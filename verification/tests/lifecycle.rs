use engramark::lifecycle::{
    archive_card, audit_source, candidate_list, is_duplicate, merge_duplicate, prepare_new_card, publish, reject,
    tombstone_card, update_card, update_card_fields,
};
use engramark::mem::Card;
use engramark::Error;

fn card(id: i64, status: &str, scope: &str) -> Card {
    Card {
        id,
        card_type: "fact".to_string(),
        status: status.to_string(),
        importance: 2,
        trust: 3,
        updated: "2025-01-01".to_string(),
        entities: vec!["Redis".to_string()],
        source: "user:cli".to_string(),
        lock: true,
        scope: scope.to_string(),
        last_used: "2025-01-02".to_string(),
        valid_from: String::new(),
        valid_to: String::new(),
        supersedes: vec![3],
        title: "Use Redis".to_string(),
        body: vec!["line".to_string()],
        deduplicated: false,
        unchanged: false,
    }
}

fn core_message(r: Result<Card, Error>) -> String {
    match r {
        Err(Error::Core(m)) => m,
        Err(e) => panic!("{:?}", e),
        Ok(_) => panic!("expected a refusal"),
    }
}

#[test]
fn publish_candidate_then_again() {
    let p = publish(card(5, "candidate", "global"), 5, None, "2025-03-04").unwrap_or_else(|e| panic!("{:?}", e));
    assert_eq!(p.status, "published");
    assert_eq!(p.updated, "2025-03-04");
    assert!(!p.unchanged);
    let again = publish(p, 5, None, "2025-03-05").unwrap_or_else(|e| panic!("{:?}", e));
    assert!(again.unchanged);
    assert_eq!(again.updated, "2025-03-04");
    assert_eq!(core_message(publish(card(5, "archived", "global"), 5, None, "d")), "记忆 5 不是待发布的候选记忆");
}

#[test]
fn scope_hides_other_projects() {
    let r = publish(card(8, "candidate", "project:shop"), 8, Some("other"), "d");
    assert_eq!(core_message(r), "当前范围内不存在记忆 8");
    assert!(publish(card(8, "candidate", "project:shop"), 8, Some("shop"), "d").is_ok());
}

#[test]
fn reject_clears_card() {
    let t = reject(card(6, "candidate", "global"), 6, None, "2025-03-04").unwrap_or_else(|e| panic!("{:?}", e));
    assert_eq!(t.status, "tombstone");
    assert_eq!(t.source, "system:rejected");
    assert_eq!(t.title, "已拒绝的候选记忆 6。");
    assert!(t.entities.is_empty() && t.body.is_empty() && t.supersedes.is_empty());
    assert_eq!(t.importance, 0);
    assert!(!t.lock);
    let again = reject(t, 6, None, "2025-03-05").unwrap_or_else(|e| panic!("{:?}", e));
    assert!(again.unchanged);
    assert_eq!(core_message(reject(card(6, "published", "global"), 6, None, "d")), "记忆 6 不是可丢弃的候选记忆");
}

#[test]
fn archive_and_delete() {
    let a = archive_card(card(7, "published", "global"), 7, None, "2025-04-01").unwrap_or_else(|e| panic!("{:?}", e));
    assert_eq!(a.status, "archived");
    assert_eq!(core_message(archive_card(card(7, "candidate", "global"), 7, None, "d")), "记忆 7 不是可归档的正式记忆");
    assert_eq!(core_message(tombstone_card(card(7, "published", "global"), 7, false, None, "d")), "删除已发布卡片必须显式确认");
    let t = tombstone_card(card(7, "published", "global"), 7, true, None, "d").unwrap_or_else(|e| panic!("{:?}", e));
    assert_eq!(t.title, "已删除的记忆 7。");
    assert_eq!(t.source, "system:deleted");
    assert!(tombstone_card(t, 7, false, None, "e").map(|c| c.unchanged).unwrap_or(false));
}

#[test]
fn audit_source_kinds() {
    assert_eq!(audit_source("user:cli"), "user");
    assert_eq!(audit_source("external"), "external");
    assert_eq!(audit_source("robot:x"), "unknown");
}

#[test]
fn candidates_are_filtered_by_project() {
    let cards = vec![
        card(1, "candidate", "global"),
        card(2, "published", "global"),
        card(3, "candidate", "project:shop"),
    ];
    let ids: Vec<i64> = candidate_list(cards, Some("other")).iter().map(|c| c.id).collect();
    assert_eq!(ids, vec![1]);
    let all = vec![card(1, "candidate", "global"), card(3, "candidate", "project:shop")];
    assert_eq!(candidate_list(all, Some("")).len(), 2);
}

#[test]
fn update_fields_and_text() {
    let same = update_card_fields(card(4, "published", "global"), 4, Some(" Use Redis "), None, None, None, None, "d")
        .unwrap_or_else(|e| panic!("{:?}", e));
    assert!(same.unchanged);
    let changed = update_card_fields(card(4, "published", "global"), 4, Some("New title"), None, None, None, None, "2025-05-05")
        .unwrap_or_else(|e| panic!("{:?}", e));
    assert_eq!(changed.title, "New title");
    assert_eq!(changed.updated, "2025-05-05");
    assert!(!changed.unchanged);
    assert_eq!(
        core_message(update_card_fields(card(4, "candidate", "global"), 4, Some("x"), None, None, None, None, "d")),
        "记忆 4 不是可更新的正式记忆"
    );
    let text = "@9 fact candidate I2 T1 F1.0 2025-01-01\nOther title\n";
    assert_eq!(core_message(update_card(card(4, "published", "global"), 4, text, "d")), "更新文本中的编号必须为 0 或目标记忆编号");
}

#[test]
fn duplicates_and_new_cards() {
    let existing = card(11, "candidate", "global");
    let mut new_card = card(0, "candidate", "");
    new_card.title = "use redis".to_string();
    new_card.entities = vec!["Cache".to_string()];
    assert!(is_duplicate(&existing, &new_card));
    let other_scope = card(0, "candidate", "project:shop");
    assert!(!is_duplicate(&existing, &other_scope));
    let (merged, changed) = merge_duplicate(existing, &new_card, "published", "", true, "2025-06-01");
    assert!(changed);
    assert_eq!(merged.id, 11);
    assert_eq!(merged.status, "published");
    assert_eq!(merged.source, "user");
    assert_eq!(merged.entities, vec!["Cache".to_string(), "Redis".to_string()]);
    assert!(merged.deduplicated && !merged.unchanged);
    let (again, changed_again) = merge_duplicate(merged, &new_card, "candidate", "", false, "2025-06-02");
    assert!(!changed_again && again.unchanged);
    let mut fresh = card(0, "published", "global");
    fresh.lock = false;
    fresh.trust = 2;
    let stamped = prepare_new_card(fresh, "published", "self:mcp", true, "2025-07-07");
    assert_eq!(stamped.status, "published");
    assert_eq!(stamped.source, "self:mcp");
    assert!(stamped.lock);
    assert_eq!(stamped.trust, 6);
    assert_eq!(stamped.updated, "2025-07-07");
}
