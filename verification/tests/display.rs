use engramark::display::{human_index_line, human_radar_line, human_search_line, MetaRow};

fn meta(id: i64, title: &str, body: &str, confidence: &str) -> MetaRow {
    MetaRow {
        id,
        status: String::new(),
        card_type: "fact".into(),
        i: 3,
        t: 6,
        last_used: "2026-08-02".into(),
        updated: "2026-08-02".into(),
        source: String::new(),
        lock: false,
        scope: String::new(),
        title: title.into(),
        body: body.into(),
        entities: String::new(),
        valid_from: String::new(),
        valid_to: String::new(),
        supersedes: String::new(),
        semantic_hash: String::new(),
        source_hash: String::new(),
        evidence: String::new(),
        strong_anchor: false,
        confidence: confidence.into(),
    }
}

#[test]
fn summary_keeps_exact_160_codepoints() {
    let exact = human_index_line(&meta(91, "边界", &"x".repeat(160), "high"));
    let long = human_index_line(&meta(92, "边界", &"x".repeat(161), "high"));
    assert!(exact.ends_with(&"x".repeat(160)), "{exact}");
    assert!(long.ends_with(&format!("{}…", "x".repeat(159))), "{long}");
}

#[test]
fn radar_line_first_paragraph_only() {
    let line = human_radar_line(&meta(93, "段落", "首段事实\r\n\r\n第二段不应注入", ""), "段落", 120);
    assert!(line.contains("首段事实") && !line.contains("第二段"), "{line}");
}

#[test]
fn radar_line_handles_oversized_titles() {
    let long_title = "必".repeat(400);
    let line = human_radar_line(&meta(93, &long_title, "正文", ""), "标题", 120);
    assert!(line.starts_with("记忆提示：记忆 93：") && line.len() <= 900, "{line}");
}

#[test]
fn preview_rules() {
    let fake = meta(94, "预览边界", &format!("回答事实 {}", "😀".repeat(50)), "high");
    let line = human_search_line(&fake, 0, true, 40);
    let preview = line.split("正文预览：").nth(1).expect("preview");
    assert!(preview.len() <= 40 && preview.ends_with('…'), "{line}");

    let exact = meta(94, "预览边界", &"x".repeat(40), "high");
    let exact_line = human_search_line(&exact, 0, true, 40);
    assert!(exact_line.ends_with(&"x".repeat(40)) && !exact_line.ends_with('…'), "{exact_line}");

    let empty = meta(94, "预览边界", "", "high");
    assert!(!human_search_line(&empty, 0, true, 40).contains("正文预览："));

    assert!(human_search_line(&fake, 1, true, 40).contains("摘要："));

    assert!(human_search_line(&fake, 0, false, 40).contains("摘要："));

    let medium = meta(94, "预览边界", &format!("回答事实 {}", "😀".repeat(50)), "medium");
    assert!(!human_search_line(&medium, 0, true, 40).contains("正文预览："));
}

#[test]
fn display_lines_exact_forms() {
    assert_eq!(human_index_line(&meta(7, "标题", "正文", "medium")), "可能相关：记忆 7：标题\n  摘要：正文");
    assert_eq!(human_index_line(&meta(7, "标题", "", "high")), "记忆 7：标题");
    assert_eq!(human_radar_line(&meta(8, "T", "B", ""), "e", 120), "记忆提示：记忆 8：T（与“e”相关） — B");
    assert_eq!(human_radar_line(&meta(8, "T", "B", ""), "", 0), "记忆提示：记忆 8：T");
}
