use tocsin::text::{
    decimal, hex, join_texts, same, slice, split_lines, split_once, starts_with, strip_end,
    strip, strip_prefix, strip_start, trim, truncate, Class,
};

#[test]
fn trims_what_std_trims() {
    for c in (0u32..0x3100).filter_map(char::from_u32) {
        let text = format!("{c}x{c}");
        assert_eq!(trim(&text), text.trim());
    }
    assert_eq!(strip_start("\t a ", Class::Space), "a ");
    assert_eq!(strip_end("http://a//", Class::Slash), "http://a");
    assert_eq!(strip_end("a\r\n\r", Class::LineEnd), "a");
    assert_eq!(strip(" \t\u{a0}a\n\r", Class::Blank), "\u{a0}a");
}

#[test]
fn cuts_between_characters() {
    assert_eq!(truncate("añb", 2), "a");
    assert_eq!(truncate("añb", 3), "añ");
    assert_eq!(truncate("añb", 9), "añb");
    assert_eq!(truncate("日", 2), "");
    assert_eq!(slice("añb", 1, 3), "ñ");
}

#[test]
fn finds_and_splits() {
    assert_eq!(split_once("a\tb\tc", '\t'), Some(("a", "b\tc")));
    assert_eq!(split_once("abc", '\t'), None);
    assert_eq!(strip_prefix("http-info x", "http-info"), Some(" x"));
    assert_eq!(strip_prefix("abc", "abcd"), None);
    assert!(starts_with("{}", '{'));
    assert!(!starts_with("", '{'));
    assert!(same("aé", "aé"));
    assert!(!same("a", "b"));
}

#[test]
fn splits_lines_as_std_does() {
    for text in ["", "\n", "a", "a\n", "a\r\nb", "\r\n\r\n", "a\rb\n\nc\r"] {
        let expected: Vec<&str> = text.lines().collect();
        assert_eq!(split_lines(text), expected, "{text:?}");
    }
}

#[test]
fn numbers_are_printed() {
    assert_eq!(decimal(0), "0");
    assert_eq!(decimal(u64::MAX), "18446744073709551615");
    assert_eq!(hex(0xcbf29ce484222325, 16), "cbf29ce484222325");
    assert_eq!(hex(0xab, 4), "00ab");
    assert_eq!(join_texts(&vec!["a".into(), "b".into()], "+"), "a+b");
    assert_eq!(join_texts(&Vec::new(), "+"), "");
}
