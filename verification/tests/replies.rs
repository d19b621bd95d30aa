use engramark::display::{human_search_line, MetaRow};
use engramark::mcp::replies::{tool_reply, ToolOutcome};
use engramark::mcp::{Validated, WriteArgs};

fn row(id: i64) -> MetaRow {
    MetaRow {
        id,
        status: "published".into(),
        card_type: "fact".into(),
        i: 2,
        t: 2,
        last_used: String::new(),
        updated: "2026-01-01".into(),
        source: "user".into(),
        lock: false,
        scope: "global".into(),
        title: format!("标题{id}"),
        body: "正文 @7 说明".into(),
        entities: String::new(),
        valid_from: String::new(),
        valid_to: String::new(),
        supersedes: String::new(),
        semantic_hash: String::new(),
        source_hash: String::new(),
        evidence: String::new(),
        strong_anchor: false,
        confidence: "high".into(),
    }
}

fn write_args() -> Validated {
    Validated::Write(WriteArgs {
        title: "t".into(),
        body: "b".into(),
        entities: vec![],
        card_type: "fact".into(),
        scope: "global".into(),
        lock: false,
    })
}

#[test]
fn search_replies() {
    let q = Validated::Search { query: "x".into() };
    let none = ToolOutcome::Found { rows: vec![], preview: true, preview_bytes: 800 };
    assert_eq!(tool_reply("memory_search", &q, &none), Ok("没有找到相关记忆。".to_string()));
    let rows = vec![row(3), row(4)];
    let expected = format!(
        "找到 2 条相关记忆：\n- {}\n- {}",
        human_search_line(&rows[0], 0, true, 800),
        human_search_line(&rows[1], 1, true, 800)
    );
    let found = ToolOutcome::Found { rows, preview: true, preview_bytes: 800 };
    assert_eq!(tool_reply("memory_search", &q, &found), Ok(expected));
}

#[test]
fn get_replies() {
    let g = Validated::Get { ids: vec![5, 6] };
    let empty = ToolOutcome::Fetched { cards: vec![] };
    assert_eq!(tool_reply("memory_get", &g, &empty), Err("这些编号对应的记忆不存在，请先搜索后重试".to_string()));
    let cards = ToolOutcome::Fetched { cards: vec![(5, "见 @6 的说明".into(), false), (6, "长文".into(), true)] };
    assert_eq!(
        tool_reply("memory_get", &g, &cards),
        Ok("记忆 5：见 记忆 6 的说明\n\n记忆 6：长文\n（正文过长，已安全截断。）".to_string())
    );
}

#[test]
fn write_and_change_replies() {
    let w = write_args();
    let saved = ToolOutcome::Written { id: 9, title: "关于 @3".into(), deduplicated: false, unchanged: false };
    assert_eq!(tool_reply("memory_save", &w, &saved), Ok("已保存：记忆 9：关于 记忆 3".to_string()));
    assert_eq!(tool_reply("memory_propose", &w, &saved), Ok("已加入待审候选：记忆 9：关于 记忆 3".to_string()));
    let same = ToolOutcome::Written { id: 9, title: "t".into(), deduplicated: true, unchanged: true };
    assert_eq!(tool_reply("memory_save", &w, &same), Ok("相同内容已经存在，无需重复写入：记忆 9：t".to_string()));
    let reused = ToolOutcome::Written { id: 9, title: "t".into(), deduplicated: true, unchanged: false };
    assert_eq!(tool_reply("memory_save", &w, &reused), Ok("已复用现有内容并保存：记忆 9：t".to_string()));
    let id = Validated::Id { id: 4 };
    let changed = ToolOutcome::Changed { id: 4, title: "标题".into(), unchanged: false };
    let again = ToolOutcome::Changed { id: 4, title: "标题".into(), unchanged: true };
    assert_eq!(tool_reply("memory_publish", &id, &changed), Ok("已发布候选：记忆 4：标题".to_string()));
    assert_eq!(tool_reply("memory_publish", &id, &again), Ok("已经是正式记忆：记忆 4：标题".to_string()));
    assert_eq!(tool_reply("memory_reject", &id, &changed), Ok("已丢弃候选：记忆 4".to_string()));
    assert_eq!(tool_reply("memory_archive", &id, &again), Ok("已经归档：记忆 4：标题".to_string()));
    let del = Validated::Delete { id: 4 };
    assert_eq!(tool_reply("memory_delete", &del, &changed), Ok("已删除：记忆 4".to_string()));
    let fb = Validated::Feedback { id: 4, outcome: "incorrect".into() };
    assert_eq!(tool_reply("memory_feedback", &fb, &ToolOutcome::Recorded), Ok("已记录：记忆 4 的内容不正确。".to_string()));
    let up = Validated::Update { id: 4, title: None, body: None, entities: None, card_type: Some("fact".into()) };
    assert_eq!(tool_reply("memory_update", &up, &again), Ok("内容没有变化：记忆 4：标题".to_string()));
}
