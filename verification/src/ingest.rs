//! Discovery of per-architecture table files by name, and construction of
//! the single table that matches a target architecture.

use crate::table::{entries_of, table_of, unique_names, Syscalls};
use crate::text::str_eq;
use vstd::prelude::*;

verus! {

/// The architecture identifier a table file name carries: the name must
/// start with the fixed prefix `syscalls-`, and what follows the prefix is
/// the identifier.
pub open spec fn arch_of(fname: Seq<char>) -> Option<Seq<char>> {
    if fname.len() >= 9 && fname.subrange(0, 9) == "syscalls-"@ {
        Some(fname.subrange(9, fname.len() as int))
    } else {
        None
    }
}

/// Extracts the architecture identifier from a table file name, or nothing
/// when the name does not carry the fixed prefix.
pub fn arch_of_filename(fname: &str) -> (r: Option<&str>)
    ensures
        match r {
            Some(a) => arch_of(fname@) == Some(a@),
            None => arch_of(fname@) is None,
        },
{
    let len = fname.unicode_len();
    if len < 9 {
        return None;
    }
    let prefix = fname.substring_char(0, 9);
    if str_eq(prefix, "syscalls-") {
        Some(fname.substring_char(9, len))
    } else {
        None
    }
}

/// What a directory listing hands over: (file name, file contents) pairs.
pub open spec fn files_view(files: Seq<(String, String)>) -> Seq<(Seq<char>, Seq<char>)> {
    files.map_values(|f: (String, String)| (f.0@, f.1@))
}

/// The contents of the last listed file whose name carries the given
/// architecture identifier, if any.
pub open spec fn table_text_for(files: Seq<(Seq<char>, Seq<char>)>, arch: Seq<char>) -> Option<
    Seq<char>,
>
    decreases files.len(),
{
    if files.len() == 0 {
        None
    } else if arch_of(files.last().0) == Some(arch) {
        Some(files.last().1)
    } else {
        table_text_for(files.drop_last(), arch)
    }
}

/// Builds the system call table for one target architecture from a directory
/// listing of table files. Only the matching file's table is constructed
/// (on duplicate architectures the last listed file wins), it holds exactly
/// the entries of that file's text with last write winning on duplicate
/// names, and nothing is returned exactly when no file name carries the
/// given architecture: tables of other architectures contribute nothing.
pub fn for_arch(arch: &str, files: &Vec<(String, String)>) -> (r: Option<Syscalls>)
    ensures
        match r {
            Some(t) => table_text_for(files_view(files@), arch@) is Some && t@ == table_of(
                entries_of(table_text_for(files_view(files@), arch@).unwrap()),
            ) && unique_names(t@),
            None => table_text_for(files_view(files@), arch@) is None,
        },
{
    let ghost fv = files_view(files@);
    let mut i = files.len();
    proof {
        assert(fv.subrange(0, i as int) =~= fv);
    }
    while i > 0
        invariant
            i <= files@.len(),
            fv == files_view(files@),
            table_text_for(fv, arch@) == table_text_for(fv.subrange(0, i as int), arch@),
        decreases i,
    {
        i -= 1;
        let ghost sub = fv.subrange(0, i + 1);
        proof {
            assert(sub.last() == fv[i as int]);
            assert(sub.drop_last() =~= fv.subrange(0, i as int));
        }
        let mut matched = false;
        match arch_of_filename(files[i].0.as_str()) {
            Some(a) => {
                if str_eq(a, arch) {
                    matched = true;
                }
            },
            None => {},
        }
        if matched {
            return Some(Syscalls::from_table_text(files[i].1.as_str()));
        }
    }
    proof {
        assert(fv.subrange(0, 0) =~= Seq::<(Seq<char>, Seq<char>)>::empty());
    }
    None
}

} // verus!
