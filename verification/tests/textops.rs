use engramark::textops::{human_display_title, humanize_memory_text, memory_excerpt, strip_title, truncate_text};

#[test]
fn utf8_excerpt_keeps_codepoints() {
    let excerpt = memory_excerpt(&"😀".repeat(20), None, Some(10), false);
    assert!(excerpt.len() <= 10 && excerpt.ends_with('…'), "{excerpt:?}");
}

#[test]
fn excerpt_collapses_whitespace_and_first_paragraph() {
    let excerpt = memory_excerpt(
        " \r\n 首\t段\u{7}事实 \r\n\r\n 第二段",
        Some(20),
        None,
        true,
    );
    assert_eq!(excerpt, "首 段 事实");
}

#[test]
fn combining_characters_respect_both_limits() {
    let excerpt = memory_excerpt(&"e\u{301}".repeat(10), Some(5), Some(6), false);
    assert!(excerpt.chars().count() <= 5 && excerpt.len() <= 6 && excerpt.ends_with('…'));
}

#[test]
fn truncation_keeps_short_text() {
    assert_eq!(truncate_text("abc", Some(5), None, "…"), "abc");
    assert_eq!(truncate_text("abcdefgh", Some(5), None, "…"), "abcd…");
    assert_eq!(truncate_text("ab   cdefgh", Some(6), None, "…"), "ab…");
    assert_eq!(truncate_text("abcdefgh", Some(5), None, ""), "");
}

#[test]
fn humanize_and_titles() {
    assert_eq!(strip_title("  标题 "), "标题");
    assert_eq!(human_display_title("abcdef", 4), "abc…");
    assert_eq!(human_display_title("  a\u{7}b   @12 ", 20), "a b 记忆 12");
    assert_eq!(humanize_memory_text("see @12, not @3x"), "see 记忆 12, not @3x");
}
