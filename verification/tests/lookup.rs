use syscalls::Syscalls;

#[test]
fn name_number_bijection_test() {
    let table = Syscalls::from_table_text("execve\t59\n");
    let number = table.number("execve").unwrap();
    let name = table.name(&number).unwrap();
    assert_eq!(name, "execve");
}

#[test]
fn case_insensitive_lookup() {
    let table = Syscalls::from_table_text("execve\t59\n");
    assert_eq!(table.number("EXECVE"), table.number("execve"));
    assert_eq!(table.number("EXECVE"), Some(59));
    assert_eq!(table.number("ExEcVe"), Some(59));
}

#[test]
fn mixed_case_storage_yields_no_match() {
    // Stored names are assumed lowercase; a mixed-case stored name is not
    // reachable, because the query is lowered before the comparison.
    let table = Syscalls::from_table_text("Execve\t59\n");
    assert_eq!(table.number("execve"), None);
    assert_eq!(table.number("Execve"), None);
    // The reverse direction still returns the name as stored.
    assert_eq!(table.name(&59), Some("Execve"));
}

#[test]
fn absence_is_none() {
    let table = Syscalls::from_table_text("execve\t59\nopen\t2\n");
    assert_eq!(table.number("not_a_real_syscall"), None);
    assert_eq!(table.name(&9_999_999), None);
}

#[test]
fn concrete_execve_row() {
    let table = Syscalls::from_table_text("execve\t59\n");
    assert_eq!(table.number("execve"), Some(59));
    assert_eq!(table.name(&59), Some("execve"));
}

#[test]
fn open_and_openat_do_not_collide() {
    let table = Syscalls::from_table_text("open\t2\nopenat\t257\n");
    assert_eq!(table.number("open"), Some(2));
    assert_eq!(table.number("openat"), Some(257));
    assert_eq!(table.name(&2), Some("open"));
    assert_eq!(table.name(&257), Some("openat"));
}

#[test]
fn unparseable_number_row_is_dropped() {
    let table = Syscalls::from_table_text("foo\tNaN\nbar\t7\n");
    assert_eq!(table.number("foo"), None);
    assert_eq!(table.number("bar"), Some(7));
    assert_eq!(table.len(), 1);
}

#[test]
fn row_without_number_column_is_dropped() {
    let table = Syscalls::from_table_text("lonely\nread\t0\n");
    assert_eq!(table.number("lonely"), None);
    assert_eq!(table.number("read"), Some(0));
    assert_eq!(table.len(), 1);
}

#[test]
fn extra_columns_are_ignored() {
    let table = Syscalls::from_table_text("write\t1\tcomment here\nclose\t3\t\t\n");
    assert_eq!(table.number("write"), Some(1));
    assert_eq!(table.number("close"), Some(3));
}

#[test]
fn fields_are_trimmed() {
    let table = Syscalls::from_table_text("  fork  \t  57 \r\nvfork\t 58\n");
    assert_eq!(table.number("fork"), Some(57));
    assert_eq!(table.number("vfork"), Some(58));
    assert_eq!(table.name(&57), Some("fork"));
}

#[test]
fn duplicate_name_last_wins() {
    let table = Syscalls::from_table_text("dup\t32\ndup\t33\n");
    assert_eq!(table.number("dup"), Some(33));
    // The superseded binding is gone in both directions.
    assert_eq!(table.name(&32), None);
    assert_eq!(table.len(), 1);
}

#[test]
fn superseded_entry_leaves_no_trace() {
    let table = Syscalls::from_table_text("a\t1\nb\t2\na\t3\n");
    assert_eq!(table.number("a"), Some(3));
    assert_eq!(table.number("b"), Some(2));
    assert_eq!(table.name(&1), None);
    assert_eq!(table.name(&3), Some("a"));
    assert_eq!(table.len(), 2);
}

#[test]
fn duplicate_number_last_wins() {
    let table = Syscalls::from_table_text("oldname\t90\nnewname\t90\n");
    assert_eq!(table.name(&90), Some("newname"));
    assert_eq!(table.number("oldname"), Some(90));
    assert_eq!(table.number("newname"), Some(90));
}

#[test]
fn empty_text_gives_empty_table() {
    let table = Syscalls::from_table_text("");
    assert_eq!(table.len(), 0);
    assert_eq!(table.number(""), None);
    assert_eq!(table.name(&0), None);
}

#[test]
fn missing_trailing_newline_still_parses() {
    let table = Syscalls::from_table_text("exit\t60");
    assert_eq!(table.number("exit"), Some(60));
}

#[test]
fn largest_number_parses_and_larger_does_not() {
    let table =
        Syscalls::from_table_text("big\t18446744073709551615\ntoobig\t18446744073709551616\n");
    assert_eq!(table.number("big"), Some(u64::MAX));
    assert_eq!(table.number("toobig"), None);
    assert_eq!(table.len(), 1);
}

#[test]
fn signed_and_malformed_numbers_are_dropped() {
    let table = Syscalls::from_table_text("neg\t-1\nplus\t+4\nhex\t0x10\nblank\t\n");
    assert_eq!(table.number("neg"), None);
    // A leading plus sign is accepted, as integer parsing conventions have it.
    assert_eq!(table.number("plus"), Some(4));
    assert_eq!(table.number("hex"), None);
    assert_eq!(table.number("blank"), None);
}

#[test]
fn empty_name_is_a_key_like_any_other() {
    let table = Syscalls::from_table_text("\t12\n");
    assert_eq!(table.number(""), Some(12));
    assert_eq!(table.name(&12), Some(""));
}

#[test]
fn new_table_is_empty() {
    let table = Syscalls::new();
    assert_eq!(table.len(), 0);
    assert_eq!(table.number("execve"), None);
}
