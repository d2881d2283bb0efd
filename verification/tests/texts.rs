use registry_proxy::text::{
    characters, contains_text, decimal_text, is_blank, join3, lists_text, same_bytes,
    same_text, segment_behind_last_slash,
};

#[test]
fn tells_texts_apart() {
    assert!(same_text("", ""));
    assert!(same_text("a\u{e9}", "a\u{e9}"));
    assert!(!same_text("a", "b"));
    assert!(!same_text("a", "ab"));
    assert!(same_bytes(b"gzip", b"gzip"));
    assert!(!same_bytes(b"gzip", b"Gzip"));
    assert!(is_blank(""));
    assert!(!is_blank(" "));
}

#[test]
fn finds_a_text_in_another() {
    assert!(contains_text("https://github.com/advisories/GHSA-1-2-3", "/GHSA-"));
    assert!(!contains_text("https://github.com/advisories/GHSA", "/GHSA-"));
    assert!(contains_text("aab", "ab"));
    assert!(contains_text("ab", ""));
    assert!(contains_text("", ""));
    assert!(!contains_text("", "a"));
    assert!(!contains_text("ab", "abc"));
}

#[test]
fn cuts_behind_the_last_slash() {
    assert_eq!(segment_behind_last_slash("a/b/c"), "c");
    assert_eq!(segment_behind_last_slash("a/b/"), "");
    assert_eq!(segment_behind_last_slash("abc"), "abc");
    assert_eq!(segment_behind_last_slash(""), "");
}

#[test]
fn writes_numbers_in_decimal() {
    assert_eq!(decimal_text(0), "0");
    assert_eq!(decimal_text(9), "9");
    assert_eq!(decimal_text(10), "10");
    assert_eq!(decimal_text(1096460), "1096460");
    assert_eq!(decimal_text(u64::MAX), "18446744073709551615");
}

#[test]
fn joins_and_lists_texts() {
    assert_eq!(join3("a", ">", "b"), "a>b");
    assert_eq!(characters("x\u{e9}"), vec!['x', '\u{e9}']);
    let list = vec!["a".to_string(), "b".to_string()];
    assert!(lists_text(&list, "b"));
    assert!(!lists_text(&list, "c"));
}
