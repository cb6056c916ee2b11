use dom_content_extraction::unicode::{
    collapse_whitespace, count_code_points, count_graphemes, detect_primary_script,
    join_text_fragments, join_with_spaces, normalize_text, str_equal, trim_text,
};

#[test]
fn test_count_graphemes() {
    assert_eq!(count_graphemes("hello"), 5);
    assert_eq!(count_graphemes("café"), 4);
    assert_eq!(count_graphemes("こんにちは"), 5);
    // one grapheme made of several code points
    assert_eq!(count_graphemes("👩‍💻"), 1);
}

#[test]
fn test_count_code_points() {
    assert_eq!(count_code_points("hello"), 5);
    assert_eq!(count_code_points("café"), 4);
    assert_eq!(count_code_points("こんにちは"), 5);
    assert_eq!(count_code_points("\u{1F469}\u{200D}\u{1F4BB}"), 3);
}

#[test]
fn test_normalize_text() {
    assert_eq!(normalize_text("café"), "café");
    let nfd = "cafe\u{0301}";
    assert_eq!(normalize_text(nfd), "café");
    assert_eq!(normalize_text("  hello  world  "), "hello world");
    assert_eq!(normalize_text("hello\n\t world"), "hello world");
}

#[test]
fn test_join_text_fragments() {
    let fragments = vec!["Hello".to_string(), "world".to_string(), "!".to_string()];
    assert_eq!(join_text_fragments(fragments), "Hello world !");

    let fragments = vec![
        "  Text  ".to_string(),
        " with ".to_string(),
        "  extra  ".to_string(),
        " spaces ".to_string(),
    ];
    assert_eq!(join_text_fragments(fragments), "Text with extra spaces");
}

#[test]
fn test_detect_primary_script() {
    assert_eq!(detect_primary_script("Hello world"), "Latin");
    assert_eq!(detect_primary_script("Привет мир"), "Cyrillic");
    assert_eq!(detect_primary_script("こんにちは世界"), "Han");
    assert_eq!(detect_primary_script("Hello 世界 and more Latin"), "Latin");
}

#[test]
fn detect_primary_script_of_empty_text_is_latin() {
    assert_eq!(detect_primary_script(""), "Latin");
}

#[test]
fn normalize_composes_to_nfc() {
    let out = normalize_text("e\u{0301}");
    assert_eq!(out, "\u{e9}");
    assert_eq!(count_code_points(&out), 1);
}

#[test]
fn collapse_whitespace_handles_unicode_spaces() {
    assert_eq!(collapse_whitespace("\u{3000}a\u{a0}\u{2003}b\n"), "a b");
    assert_eq!(collapse_whitespace("   "), "");
    assert_eq!(collapse_whitespace(""), "");
}

#[test]
fn trim_text_removes_both_ends() {
    assert_eq!(trim_text("  \t x y \n"), "x y");
    assert_eq!(trim_text(" \u{2028} "), "");
}

#[test]
fn join_with_spaces_keeps_inner_text() {
    let parts = vec!["a ".to_string(), "".to_string(), "b".to_string()];
    assert_eq!(join_with_spaces(&parts), "a   b");
    assert_eq!(join_with_spaces(&Vec::new()), "");
}

#[test]
fn str_equal_compares_characters() {
    assert!(str_equal("body", "body"));
    assert!(!str_equal("body", "bod"));
    assert!(!str_equal("a", "b"));
}

#[test]
fn count_graphemes_of_combining_sequence() {
    assert_eq!(count_graphemes("e\u{0301}"), 1);
    assert_eq!(count_graphemes(""), 0);
}
