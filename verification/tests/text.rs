use guck::text::{ends_with_char, push_decimal, push_safe_name};

fn decimal(n: u64) -> String {
    let mut out = String::new();
    push_decimal(&mut out, n);
    out
}

#[test]
fn push_decimal_writes_the_numeral() {
    assert_eq!(decimal(0), "0");
    assert_eq!(decimal(7), "7");
    assert_eq!(decimal(10), "10");
    assert_eq!(decimal(3999), "3999");
    assert_eq!(decimal(1700000000), "1700000000");
    assert_eq!(decimal(u64::MAX), "18446744073709551615");
}

#[test]
fn push_decimal_appends_to_what_is_there() {
    let mut out = String::from("port ");
    push_decimal(&mut out, 3000);
    assert_eq!(out, "port 3000");
}

#[test]
fn push_decimal_agrees_with_the_standard_formatting() {
    for n in [1u64, 9, 11, 99, 100, 101, 12345, 9_999_999_999, 10_000_000_000] {
        assert_eq!(decimal(n), format!("{}", n));
    }
}

#[test]
fn push_safe_name_replaces_separators_and_colons() {
    let mut out = String::new();
    push_safe_name(&mut out, "/home/me/repo");
    assert_eq!(out, "_home_me_repo");
    let mut out = String::new();
    push_safe_name(&mut out, "C:\\work\\repo");
    assert_eq!(out, "C__work_repo");
    let mut out = String::from("x");
    push_safe_name(&mut out, "");
    assert_eq!(out, "x");
}

#[test]
fn push_safe_name_keeps_other_characters() {
    let mut out = String::new();
    push_safe_name(&mut out, "a_b-c.d é/ü");
    assert_eq!(out, "a_b-c.d é_ü");
}

#[test]
fn ends_with_char_looks_at_the_last_character() {
    assert!(ends_with_char("/tmp/", '/'));
    assert!(!ends_with_char("/tmp", '/'));
    assert!(!ends_with_char("", '/'));
    assert!(ends_with_char("/", '/'));
    assert!(!ends_with_char("/a", '/'));
}
