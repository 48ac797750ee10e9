use dns_test::bytes::{contains, span_from};
use dns_test::canonical::{canonical_eq, canonical_lt, same_text, to_upper};
use dns_test::decimal::push_decimal;

#[test]
fn upper_case_folds_ascii_letters_only() {
    assert_eq!(to_upper(b'a'), b'A');
    assert_eq!(to_upper(b'z'), b'Z');
    assert_eq!(to_upper(b'A'), b'A');
    assert_eq!(to_upper(b'`'), b'`');
    assert_eq!(to_upper(b'{'), b'{');
    assert_eq!(to_upper(b'0'), b'0');
    assert_eq!(to_upper(0xe9), 0xe9);
}

#[test]
fn canonical_order_is_lexicographic_and_ignores_case() {
    assert!(canonical_lt(b"A", b"B"));
    assert!(canonical_lt(b"a", b"B"));
    assert!(canonical_lt(b"A", b"b"));
    assert!(!canonical_lt(b"B", b"a"));
    assert!(!canonical_lt(b"a", b"A"));
    assert!(canonical_lt(b"", b"0"));
    assert!(!canonical_lt(b"", b""));
    assert!(canonical_lt(b"AB", b"ABC"));
    assert!(!canonical_lt(b"ABC", b"AB"));
    assert!(canonical_lt(b"9Z", b"A0"));
    assert!(canonical_lt(b"ABD", b"ABE"));
    assert!(!canonical_lt(b"ABE", b"ABD"));
}

#[test]
fn canonical_equality_ignores_case() {
    assert!(canonical_eq(b"7m2f", b"7M2F"));
    assert!(canonical_eq(b"", b""));
    assert!(!canonical_eq(b"7M2F", b"7M2"));
    assert!(!canonical_eq(b"7M2F", b"7M2G"));
}

#[test]
fn same_text_is_exact() {
    assert!(same_text("network", "network"));
    assert!(!same_text("network", "Network"));
    assert!(!same_text("network", "networks"));
    assert!(same_text("", ""));
    assert!(same_text("h\u{e9}", "h\u{e9}"));
    assert!(!same_text("h\u{e9}", "h\u{e8}"));
}

#[test]
fn decimal_text_has_no_leading_zeros() {
    for (n, text) in [
        (0, "0"),
        (7, "7"),
        (10, "10"),
        (255, "255"),
        (1000, "1000"),
        (u64::MAX, "18446744073709551615"),
    ] {
        let mut out = String::from("n=");
        push_decimal(&mut out, n);
        assert_eq!(out, format!("n={text}"));
    }
}

#[test]
fn span_stops_at_the_first_stop_byte() {
    assert_eq!(span_from(b"ab.cd.", 0, b'.'), 2);
    assert_eq!(span_from(b"ab.cd.", 2, b'.'), 0);
    assert_eq!(span_from(b"ab.cd.", 3, b'.'), 2);
    assert_eq!(span_from(b"ab.cd", 3, b'.'), 2);
    assert_eq!(span_from(b"ab", 2, b'.'), 0);
    assert_eq!(span_from(b"", 0, b'.'), 0);
}

#[test]
fn contains_finds_a_pattern_anywhere() {
    assert!(contains(b"dns-test-1-1", b"dns-test"));
    assert!(contains(b"xx dns-test", b"dns-test"));
    assert!(contains(b"a dns-dns-test b", b"dns-test"));
    assert!(!contains(b"dns-tes", b"dns-test"));
    assert!(!contains(b"dns_test", b"dns-test"));
    assert!(!contains(b"", b"dns-test"));
    assert!(contains(b"", b""));
    assert!(contains(b"abc", b""));
}
