//! Lookup between Linux system call names and their numbers, specialized per
//! target processor architecture.
//!
//! A per-architecture table is ingested from tab-separated text (one row per
//! system call, `name<TAB>number`), and the resulting [`Syscalls`] value
//! answers lookups in both directions: [`Syscalls::number`] by name
//! (case-insensitively) and [`Syscalls::name`] by number.

pub mod ingest;
pub mod table;
pub mod text;

pub use ingest::arch_of_filename;
pub use ingest::for_arch;
pub use table::Syscalls;

