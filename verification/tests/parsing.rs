use syscalls::table::parse_row;
use syscalls::text::parse_u64_str;

#[test]
fn parse_u64_exact_values() {
    assert_eq!(parse_u64_str("0"), Some(0));
    assert_eq!(parse_u64_str("59"), Some(59));
    assert_eq!(parse_u64_str("0059"), Some(59));
    assert_eq!(parse_u64_str("+7"), Some(7));
    assert_eq!(parse_u64_str("18446744073709551615"), Some(u64::MAX));
}

#[test]
fn parse_u64_rejects_malformed_input() {
    assert_eq!(parse_u64_str(""), None);
    assert_eq!(parse_u64_str("+"), None);
    assert_eq!(parse_u64_str("++1"), None);
    assert_eq!(parse_u64_str("-1"), None);
    assert_eq!(parse_u64_str("NaN"), None);
    assert_eq!(parse_u64_str("1 2"), None);
    assert_eq!(parse_u64_str(" 1"), None);
    assert_eq!(parse_u64_str("18446744073709551616"), None);
}

#[test]
fn parse_row_extracts_name_and_number() {
    let (name, number) = parse_row("execve\t59").unwrap();
    assert_eq!(name, "execve");
    assert_eq!(number, 59);
}

#[test]
fn parse_row_trims_both_fields() {
    let (name, number) = parse_row(" clone \t 56 \textra").unwrap();
    assert_eq!(name, "clone");
    assert_eq!(number, 56);
}

#[test]
fn parse_row_without_tab_or_number_is_nothing() {
    assert!(parse_row("").is_none());
    assert!(parse_row("execve").is_none());
    assert!(parse_row("execve\t").is_none());
    assert!(parse_row("execve\tnope").is_none());
}
