use guit::order::text_less;
use guit::text::{
    chars_of, char_is_whitespace, lines_of, non_empty_lines, split_by_newline, split_once_rest,
    split_whitespace_take, starts_with, trimmed, words_take,
};

#[test]
fn lines_of_keeps_empty_lines_and_strips_carriage_returns() {
    assert_eq!(lines_of("a\r\n\nb\r"), vec!["a", "", "b\r"]);
    assert_eq!(lines_of("a\n"), vec!["a"]);
    assert_eq!(lines_of("\n"), vec![""]);
    assert!(lines_of("").is_empty());
}

#[test]
fn non_empty_lines_drops_empty_ones() {
    assert_eq!(non_empty_lines("\r\nx\n\n"), vec!["x"]);
}

#[test]
fn split_by_newline_replaces_invalid_utf8() {
    let bytes = b"ok\n\xffbad\n";
    let result: Vec<String> = split_by_newline(bytes);

    assert_eq!(result, vec!["ok".to_string(), "\u{fffd}bad".to_string()]);
}

#[test]
fn split_by_newline_lines_hold_no_newline() {
    let result = split_by_newline(b"a\r\nb\n\r\n\nc");

    assert_eq!(result, vec!["a", "b", "c"]);
    for line in &result {
        assert!(!line.is_empty());
        assert!(!line.contains('\n'));
    }
}

#[test]
fn split_whitespace_take_unicode_spaces() {
    let bytes = "a\u{3000}b\u{a0}c\u{2028}d".as_bytes();

    assert_eq!(split_whitespace_take(bytes, 10), vec!["a", "b", "c", "d"]);
}

#[test]
fn words_take_are_clean() {
    let words = words_take(" x\ty  z ", 5);

    assert_eq!(words, vec!["x", "y", "z"]);
    for word in &words {
        assert!(!word.is_empty());
        assert!(!word.chars().any(char::is_whitespace));
    }
}

#[test]
fn char_is_whitespace_agrees_with_std() {
    for u in 0u32..0x3100 {
        if let Some(c) = char::from_u32(u) {
            assert_eq!(char_is_whitespace(c), c.is_whitespace(), "{:x}", u);
        }
    }
}

#[test]
fn trimmed_strips_both_ends() {
    assert_eq!(trimmed("  a b \n"), "a b");
    assert_eq!(trimmed(" \t "), "");
    assert_eq!(trimmed("x"), "x");
}

#[test]
fn starts_with_prefixes() {
    assert!(starts_with("@@ -1 +1 @@", "@@"));
    assert!(!starts_with("@", "@@"));
    assert!(starts_with("abc", ""));
}

#[test]
fn split_once_rest_after_first_occurrence() {
    let delimiter = chars_of("origin/");
    assert_eq!(
        split_once_rest("refs/remotes/origin/feature/origin/x", &delimiter),
        Some("feature/origin/x".to_string())
    );
    assert_eq!(split_once_rest("refs/heads/main", &delimiter), None);
}

#[test]
fn text_less_orders_as_string() {
    let words = ["", "a", "ab", "b", "é", "日本", "Z"];
    for a in words {
        for b in words {
            assert_eq!(text_less(a, b), a < b, "{} {}", a, b);
        }
    }
}

#[test]
fn split_lines_joined_again_come_back() {
    let lines = split_by_newline(b"one\n\ntwo\nthree\n");
    assert_eq!(lines, vec!["one", "two", "three"]);
    assert_eq!(split_by_newline(lines.join("\n").as_bytes()), lines);
}
