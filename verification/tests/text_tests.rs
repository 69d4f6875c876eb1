use deepwoken_planner::text::{join_texts, text_contains, text_eq, text_less_than, trim_text};

#[test]
fn trim_removes_unicode_white_space_at_both_ends() {
    assert_eq!(trim_text("\u{3000} a b \t\n"), "a b");
    assert_eq!(trim_text("\u{85}\u{a0}x\u{2028}\u{202f}"), "x");
    assert_eq!(trim_text(" \u{200b}x "), "\u{200b}x");
    assert_eq!(trim_text(" \r\n "), "");
    assert_eq!(trim_text(""), "");
    for s in ["  mixed\u{2009}text\u{205f}", "\u{1680}q", "\u{b}\u{c}z\u{2000}\u{200a}"] {
        assert_eq!(trim_text(s), s.trim());
    }
}

#[test]
fn text_helpers() {
    assert!(text_eq("abc", "abc"));
    assert!(!text_eq("abc", "abd"));
    assert!(text_contains("hello world", "lo w"));
    assert!(!text_contains("hello", "world"));
    assert!(text_less_than("Alpha", "Beta"));
    assert!(!text_less_than("b", "a"));
    assert_eq!(join_texts(&vec!["a".to_owned(), "b".to_owned()], ", "), "a, b");
}
