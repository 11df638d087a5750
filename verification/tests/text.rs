//! Tests of the operations on texts.
use mvn_core::text;

#[test]
fn white_space_is_that_of_unicode() {
    for n in 0..=0x10ffffu32 {
        if let Some(c) = char::from_u32(n) {
            assert_eq!(text::is_whitespace(c), c.is_whitespace(), "{n:x}");
        }
    }
}

#[test]
fn texts_are_trimmed() {
    for s in ["", "  ", " a b ", "\t\u{2003}x\u{85}", "plain"] {
        assert_eq!(text::trim(s), s.trim());
    }
}

#[test]
fn texts_are_split_and_replaced() {
    for s in ["", ":", "a:b", "::", "é:ü:"] {
        let expected: Vec<String> = s.split(':').map(String::from).collect();
        assert_eq!(text::split(s, ':'), expected);
        assert_eq!(text::replace_char(s, ':', '/'), s.replace(':', "/"));
    }
}

#[test]
fn texts_are_searched() {
    assert!(text::contains("abcabd", "abd"));
    assert!(!text::contains("ab", "abc"));
    assert!(text::contains("x", ""));
    assert!(text::starts_with("abc", "ab"));
    assert!(text::ends_with("abc", "bc"));
    assert!(!text::ends_with("c", "bc"));
}

#[test]
fn capitals_of_ascii_are_lowered() {
    assert_eq!(text::to_lower("AbZ-\u{c9}"), "abz-\u{c9}");
}

#[test]
fn numbers_are_written() {
    assert_eq!(text::decimal(0), "0");
    assert_eq!(text::decimal(u64::MAX), u64::MAX.to_string());
    assert_eq!(text::padded(7, 4), "0007");
    assert_eq!(text::padded(12345, 4), "12345");
}
