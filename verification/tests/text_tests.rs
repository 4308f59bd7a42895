use countdown::text::{eq_ignore_ascii_case, parse_i64_bytes, push_decimal, trim};

#[test]
fn trims_unicode_white_space() {
    assert_eq!(trim("  a b \n"), "a b");
    assert_eq!(trim("\u{3000}x\u{a0}"), "x");
    assert_eq!(trim("   "), "");
    assert_eq!(trim(""), "");
}

#[test]
fn decimal_rendering() {
    let mut s = String::from("n=");
    push_decimal(&mut s, 0);
    assert_eq!(s, "n=0");
    let mut s = String::new();
    push_decimal(&mut s, u64::MAX);
    assert_eq!(s, "18446744073709551615");
}

#[test]
fn ascii_case() {
    assert!(eq_ignore_ascii_case("CountDown", "countdown"));
    assert!(!eq_ignore_ascii_case("countdowns", "countdown"));
    assert!(!eq_ignore_ascii_case("cöuntdown", "countdown"));
}

#[test]
fn integer_literals() {
    assert_eq!(parse_i64_bytes(b"x12y", 1, 3), Some(12));
    assert_eq!(parse_i64_bytes(b"-", 0, 1), None);
    assert_eq!(parse_i64_bytes(b"+7", 0, 2), Some(7));
    assert_eq!(parse_i64_bytes(b"00042", 0, 5), Some(42));
}
