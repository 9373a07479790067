use syscalls::{arch_of_filename, for_arch, Syscalls};

fn listing() -> Vec<(String, String)> {
    vec![
        (
            String::from("syscalls-x86_64"),
            String::from("open\t2\nexecve\t59\nopenat\t257\n"),
        ),
        (
            String::from("syscalls-aarch64"),
            String::from("openat\t56\nexecve\t221\n"),
        ),
        (String::from("README"), String::from("execve\t1\n")),
    ]
}

#[test]
fn arch_is_taken_from_the_file_name() {
    assert_eq!(arch_of_filename("syscalls-x86_64"), Some("x86_64"));
    assert_eq!(arch_of_filename("syscalls-"), Some(""));
    assert_eq!(arch_of_filename("README"), None);
    assert_eq!(arch_of_filename("sys"), None);
    assert_eq!(arch_of_filename("Syscalls-x86_64"), None);
}

#[test]
fn selects_the_matching_architecture() {
    let files = listing();
    let table = for_arch("x86_64", &files).unwrap();
    assert_eq!(table.number("execve"), Some(59));
    assert_eq!(table.name(&257), Some("openat"));
    assert_eq!(table.len(), 3);
}

#[test]
fn architectures_are_isolated() {
    let files = listing();
    let a = for_arch("aarch64", &files).unwrap();
    // Entries of the x86_64 file must not show up in the aarch64 table.
    assert_eq!(a.number("open"), None);
    assert_eq!(a.number("execve"), Some(221));
    assert_eq!(a.number("openat"), Some(56));
    assert_eq!(a.len(), 2);
}

#[test]
fn unknown_architecture_gives_no_table() {
    let files = listing();
    assert!(for_arch("riscv64", &files).is_none());
    // A file without the table prefix is not an architecture's table.
    assert!(for_arch("README", &files).is_none());
}

#[test]
fn later_file_for_the_same_architecture_wins() {
    let files = vec![
        (String::from("syscalls-x86_64"), String::from("execve\t1\n")),
        (String::from("syscalls-x86_64"), String::from("execve\t59\n")),
    ];
    let table = for_arch("x86_64", &files).unwrap();
    assert_eq!(table.number("execve"), Some(59));
}

#[test]
fn table_type_is_shared_between_paths() {
    // A table built directly and one built through selection answer alike.
    let direct = Syscalls::from_table_text("execve\t59\n");
    let files = vec![(String::from("syscalls-x86_64"), String::from("execve\t59\n"))];
    let selected = for_arch("x86_64", &files).unwrap();
    assert_eq!(direct.number("execve"), selected.number("execve"));
}
