use public_ip_notifier::text::{decimal_text, digit_of, join2, join3, parse_u64, remove_char, same_text};

#[test]
fn unsigned_integers_are_read() {
    assert_eq!(parse_u64("0"), Some(0));
    assert_eq!(parse_u64("42"), Some(42));
    assert_eq!(parse_u64("+42"), Some(42));
    assert_eq!(parse_u64("0042"), Some(42));
    assert_eq!(parse_u64("18446744073709551615"), Some(u64::MAX));
    assert_eq!(parse_u64("18446744073709551616"), None);
    assert_eq!(parse_u64("99999999999999999999999"), None);
    assert_eq!(parse_u64(""), None);
    assert_eq!(parse_u64("+"), None);
    assert_eq!(parse_u64("++1"), None);
    assert_eq!(parse_u64("-1"), None);
    assert_eq!(parse_u64("1 "), None);
    assert_eq!(parse_u64("\u{0661}"), None);
}

#[test]
fn reading_agrees_with_the_standard_parser() {
    for text in ["0", "7", "+7", "007", "", "+", "-0", "1e3", "18446744073709551615", "18446744073709551616"] {
        assert_eq!(parse_u64(text), text.parse::<u64>().ok(), "{:?}", text);
    }
}

#[test]
fn numbers_are_written_in_decimal() {
    assert_eq!(decimal_text(0), "0");
    assert_eq!(decimal_text(9), "9");
    assert_eq!(decimal_text(10), "10");
    assert_eq!(decimal_text(65535), "65535");
    assert_eq!(decimal_text(u64::MAX), "18446744073709551615");
    for n in [1u64, 12, 123, 1000, 9_007_199_254_740_993] {
        assert_eq!(parse_u64(&decimal_text(n)), Some(n));
    }
}

#[test]
fn digits_have_their_values() {
    assert_eq!(digit_of('0'), Some(0));
    assert_eq!(digit_of('9'), Some(9));
    assert_eq!(digit_of('/'), None);
    assert_eq!(digit_of(':'), None);
    assert_eq!(digit_of('a'), None);
}

#[test]
fn characters_are_removed() {
    assert_eq!(remove_char("\"a\"b\"", '"'), "ab");
    assert_eq!(remove_char("", '"'), "");
    assert_eq!(remove_char("]]]", ']'), "");
    assert_eq!(remove_char("h\u{e9}llo", 'l'), "h\u{e9}o");
}

#[test]
fn texts_are_joined_and_compared() {
    assert_eq!(join2("a", "bc"), "abc");
    assert_eq!(join3("<", "x", ">"), "<x>");
    assert!(same_text("abc", "abc"));
    assert!(!same_text("abc", "abd"));
    assert!(!same_text("abc", "ab"));
}
