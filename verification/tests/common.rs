use guit::text::{split_by_newline, split_whitespace_take};

#[test]
fn split_by_newline_basic() {
    let bytes = b"line1\nline2\nline3";
    let result: Vec<String> = split_by_newline(bytes);

    assert_eq!(result, vec!["line1", "line2", "line3"]);
}

#[test]
fn split_by_newline_empty_lines() {
    let bytes = b"line1\n\nline2\n\n\nline3";
    let result: Vec<String> = split_by_newline(bytes);

    assert_eq!(result, vec!["line1", "line2", "line3"]);
}

#[test]
fn split_by_newline_empty_bytes() {
    let bytes = b"";
    let result: Vec<String> = split_by_newline(bytes);

    assert!(result.is_empty());
}

#[test]
fn split_by_newline_only_newlines() {
    let bytes = b"\n\n\n";
    let result: Vec<String> = split_by_newline(bytes);

    assert!(result.is_empty());
}

#[test]
fn split_by_newline_single_line() {
    let bytes = b"line1";
    let result: Vec<String> = split_by_newline(bytes);

    assert_eq!(result, vec!["line1"]);
}

#[test]
fn split_by_newline_trailing_newline() {
    let bytes = b"line1\nline2\n";
    let result: Vec<String> = split_by_newline(bytes);

    assert_eq!(result, vec!["line1", "line2"]);
}

#[test]
fn split_by_newline_leading_newline() {
    let bytes = b"\nline1\nline2";
    let result: Vec<String> = split_by_newline(bytes);

    assert_eq!(result, vec!["line1", "line2"]);
}

#[test]
fn split_by_newline_unicode() {
    let bytes = " línea1\n línea2\n日本語".as_bytes();
    let result: Vec<String> = split_by_newline(bytes);

    assert_eq!(result, vec![" línea1", " línea2", "日本語"]);
}

#[test]
fn split_by_newline_multiple_trailing_newlines() {
    let bytes = b"line1\n\n\n";
    let result: Vec<String> = split_by_newline(bytes);

    assert_eq!(result, vec!["line1"]);
}

#[test]
fn split_by_newline_multiple_leading_newlines() {
    let bytes = b"\n\n\nline1";
    let result: Vec<String> = split_by_newline(bytes);

    assert_eq!(result, vec!["line1"]);
}

#[test]
fn split_by_newline_carriage_return() {
    let bytes = b"line1\r\nline2\r\nline3";
    let result: Vec<String> = split_by_newline(bytes);

    assert_eq!(result, vec!["line1", "line2", "line3"]);
}

#[test]
fn split_whitespace_take_basic() {
    let bytes = b"word1 word2 word3";
    let result: Vec<String> = split_whitespace_take(bytes, usize::MAX);
    assert_eq!(result, vec!["word1", "word2", "word3"]);
}

#[test]
fn split_whitespace_take_multiple_spaces() {
    let bytes = b"word1  word2   word3";
    let result: Vec<String> = split_whitespace_take(bytes, usize::MAX);
    assert_eq!(result, vec!["word1", "word2", "word3"]);
}

#[test]
fn split_whitespace_take_empty_bytes() {
    let bytes = b"";
    let result: Vec<String> = split_whitespace_take(bytes, usize::MAX);
    assert!(result.is_empty());
}

#[test]
fn split_whitespace_take_only_whitespace() {
    let bytes = b"   \t\n  ";
    let result: Vec<String> = split_whitespace_take(bytes, usize::MAX);
    assert!(result.is_empty());
}

#[test]
fn split_whitespace_take_single_word() {
    let bytes = b"word1";
    let result: Vec<String> = split_whitespace_take(bytes, usize::MAX);
    assert_eq!(result, vec!["word1"]);
}

#[test]
fn split_whitespace_take_leading_whitespace() {
    let bytes = b"   word1 word2";
    let result: Vec<String> = split_whitespace_take(bytes, usize::MAX);
    assert_eq!(result, vec!["word1", "word2"]);
}

#[test]
fn split_whitespace_take_trailing_whitespace() {
    let bytes = b"word1 word2   ";
    let result: Vec<String> = split_whitespace_take(bytes, usize::MAX);
    assert_eq!(result, vec!["word1", "word2"]);
}

#[test]
fn split_whitespace_take_unicode() {
    let bytes = "función éxito 日本語".as_bytes();
    let result: Vec<String> = split_whitespace_take(bytes, usize::MAX);
    assert_eq!(result, vec!["función", "éxito", "日本語"]);
}

#[test]
fn split_whitespace_take_mixed_whitespace() {
    let bytes = b"word1\tword2\nword3  word4";
    let result: Vec<String> = split_whitespace_take(bytes, usize::MAX);
    assert_eq!(result, vec!["word1", "word2", "word3", "word4"]);
}

#[test]
fn split_whitespace_take_n_zero() {
    let bytes = b"word1 word2 word3";
    let result: Vec<String> = split_whitespace_take(bytes, 0);
    assert!(result.is_empty());
}

#[test]
fn split_whitespace_take_n_one() {
    let bytes = b"word1 word2 word3";
    let result: Vec<String> = split_whitespace_take(bytes, 1);
    assert_eq!(result, vec!["word1"]);
}

#[test]
fn split_whitespace_take_n_two() {
    let bytes = b"word1 word2 word3 word4";
    let result: Vec<String> = split_whitespace_take(bytes, 2);
    assert_eq!(result, vec!["word1", "word2"]);
}

#[test]
fn split_whitespace_take_n_exact() {
    let bytes = b"word1 word2 word3";
    let result: Vec<String> = split_whitespace_take(bytes, 3);
    assert_eq!(result, vec!["word1", "word2", "word3"]);
}

#[test]
fn split_whitespace_take_n_more_than_available() {
    let bytes = b"word1 word2";
    let result: Vec<String> = split_whitespace_take(bytes, 5);
    assert_eq!(result, vec!["word1", "word2"]);
}

#[test]
fn split_whitespace_take_n_from_empty() {
    let bytes = b"";
    let result: Vec<String> = split_whitespace_take(bytes, 3);
    assert!(result.is_empty());
}

#[test]
fn split_whitespace_take_n_unicode() {
    let bytes = "función éxito 日本語".as_bytes();
    let result: Vec<String> = split_whitespace_take(bytes, 2);
    assert_eq!(result, vec!["función", "éxito"]);
}

#[test]
fn split_whitespace_take_n_mixed_whitespace_partial() {
    let bytes = b"word1\tword2\nword3  word4\tword5";
    let result: Vec<String> = split_whitespace_take(bytes, 3);
    assert_eq!(result, vec!["word1", "word2", "word3"]);
}

#[test]
fn split_whitespace_take_n_leading_whitespace() {
    let bytes = b"   word1 word2 word3";
    let result: Vec<String> = split_whitespace_take(bytes, 2);
    assert_eq!(result, vec!["word1", "word2"]);
}

#[test]
fn split_whitespace_take_n_trailing_whitespace() {
    let bytes = b"word1 word2 word3   ";
    let result: Vec<String> = split_whitespace_take(bytes, 2);
    assert_eq!(result, vec!["word1", "word2"]);
}
