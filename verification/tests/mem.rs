use engramark::mem::{
    canonical_entities, date_is_current, freshness_text, normalize_structured_content, ordinal_from_civil,
    parse_card, parse_iso_date, serialize_card, sort_unique_ids, stored_scope, Card,
};
use engramark::Error;

const SAMPLE: &str = "@1 fact published I3 T3 2026-08-01\n= Alpha, beta\n~ user\n标题一\n正文。\n";

fn core_message(result: Result<Card, Error>) -> String {
    match result {
        Err(Error::Core(message)) => message,
        Err(other) => panic!("unexpected error {}", other.message()),
        Ok(_) => panic!("expected an error"),
    }
}

#[test]
fn parses_sample_card() {
    let card = parse_card(SAMPLE).expect("parse");
    assert_eq!(card.id, 1);
    assert_eq!(card.card_type, "fact");
    assert_eq!(card.status, "published");
    assert_eq!(card.importance, 3);
    assert_eq!(card.trust, 6);
    assert_eq!(card.updated, "2026-08-01");
    assert_eq!(card.entities, vec!["Alpha".to_string(), "beta".to_string()]);
    assert_eq!(card.source, "user");
    assert_eq!(card.title, "标题一");
    assert_eq!(card.body, vec!["正文。".to_string()]);
    assert!(!card.lock);
}

#[test]
fn serializes_canonically() {
    let card = parse_card(SAMPLE).expect("parse");
    let text = serialize_card(&card, "2026-08-01");
    assert_eq!(
        text,
        "@1 fact published I3 T3 F1.0 2026-08-01\n= Alpha, beta\n~ user\n# format 1\n标题一\n正文。\n"
    );
    let again = parse_card(&text).expect("reparse");
    assert_eq!(serialize_card(&again, "2026-08-01"), text);
}

#[test]
fn parses_directives_and_crlf() {
    let text = "@7 skill candidate I2 T1.5 F0.5 2026-01-02\r\n~  codex \r\n# lock\r\n# scope project:demo\r\n# valid-from 2026-01-01\r\n# supersedes @5, @3\r\n标题\r\n\r\n正文\r\n";
    let card = parse_card(text).expect("parse");
    assert_eq!(card.trust, 3);
    assert_eq!(card.source, "codex");
    assert!(card.lock);
    assert_eq!(card.scope, "project:demo");
    assert_eq!(card.valid_from, "2026-01-01");
    assert_eq!(card.supersedes, vec![5, 3]);
    assert_eq!(card.body, vec!["".to_string(), "正文".to_string()]);
    let out = serialize_card(&card, "2026-01-02");
    assert!(out.contains("# supersedes @3, @5\n"), "{out}");
}

#[test]
fn rejects_malformed_text() {
    assert_eq!(core_message(parse_card("\u{feff}@1 fact published I3 T3 2026-08-01\nt\n")), ".mem v1 禁止 UTF-8 BOM");
    assert_eq!(core_message(parse_card("@1 fact published I3 T3 2026-08-01\nt\0\n")), ".mem v1 禁止 NUL 字符");
    assert_eq!(core_message(parse_card("@1 fact published I3 T3 2026-08-01\rt\n")), ".mem v1 只接受 LF 或完整 CRLF 换行");
    let header = "卡头非法。首行必须形如：@<id> <fact|decision|skill> <candidate|published|archived|tombstone> I<0-3> T<0|0.5|…|3> <YYYY-MM-DD>";
    assert_eq!(core_message(parse_card("")), header);
    assert_eq!(core_message(parse_card("@1 fact published I3 T3.5 2026-08-01\nt\n")), header);
    assert_eq!(core_message(parse_card("@1 fact published I4 T3 2026-08-01\nt\n")), header);
    assert_eq!(
        core_message(parse_card("@9007199254740992 fact published I3 T3 2026-08-01\nt\n")),
        "卡片编号超过安全上限 9007199254740991"
    );
    assert_eq!(
        core_message(parse_card("@1 note published I3 T3 2026-08-01\nt\n")),
        "类型必须是 ['decision', 'fact', 'skill'] 之一，收到 'note'"
    );
    assert_eq!(
        core_message(parse_card("@1 fact draft I3 T3 2026-08-01\nt\n")),
        "状态必须是 ['archived', 'candidate', 'published', 'tombstone'] 之一，收到 'draft'"
    );
}

#[test]
fn rejects_bad_directives() {
    let head = "@1 fact published I3 T3 2026-08-01\n";
    assert_eq!(core_message(parse_card(&format!("{head}\nt\n"))), "标题前不允许空行");
    assert_eq!(core_message(parse_card(&format!("{head}= a\n= b\nt\n"))), "= 实体指令只能出现一次");
    assert_eq!(core_message(parse_card(&format!("{head}~ a\n~ b\nt\n"))), "~ 来源指令只能出现一次");
    assert_eq!(core_message(parse_card(&format!("{head}~  \nt\n"))), "~ 来源不能为空");
    assert_eq!(core_message(parse_card(&format!("{head}# format 1\n# format 1\nt\n"))), "# format 只能出现一次");
    assert_eq!(core_message(parse_card(&format!("{head}# color red\nt\n"))), "未知 .mem v1 指令：# color red");
    assert_eq!(core_message(parse_card(&format!("{head}#x\nt\n"))), "非法或未知 .mem v1 指令：#x");
    assert_eq!(core_message(parse_card(head)), "缺少自足标题行（卡头与指令行之后的第一行正文）");
    assert_eq!(
        core_message(parse_card(&format!("{head}# last-used 2026-13-01\nt\n"))),
        "last-used 必须是 YYYY-MM-DD，收到 '2026-13-01'"
    );
    assert_eq!(
        core_message(parse_card(&format!("{head}# valid-from 2026-02-01\n# valid-to 2026-01-01\nt\n"))),
        "valid-from 不得晚于 valid-to"
    );
    assert_eq!(core_message(parse_card(&format!("{head}# supersedes @0\nt\n"))), "supersedes 只能引用正整数卡片 id");
    assert_eq!(
        core_message(parse_card(&format!("{head}# supersedes @99999999999999999999\nt\n"))),
        "supersedes 引用超过安全上限 9007199254740991"
    );
    assert_eq!(core_message(parse_card(&format!("{head}# supersedes @2, @2\nt\n"))), "supersedes 不得包含重复 id");
    assert_eq!(core_message(parse_card(&format!("{head}# supersedes @1\nt\n"))), "卡片不能 supersedes 自己");
}

#[test]
fn dates_and_freshness() {
    assert_eq!(parse_iso_date("2026-08-01"), Some(ordinal_from_civil(2026, 8, 1)));
    assert_eq!(parse_iso_date("20260801"), parse_iso_date("2026-08-01"));
    assert_eq!(parse_iso_date("2026-W01-1"), Some(ordinal_from_civil(2025, 12, 29)));
    assert_eq!(parse_iso_date("2026-02-30"), None);
    assert_eq!(ordinal_from_civil(1, 1, 1), 1);
    assert_eq!(ordinal_from_civil(2000, 3, 1) - ordinal_from_civil(2000, 2, 28), 2);
    assert_eq!(freshness_text("", "2026-08-01", "2026-08-01"), "1.0");
    assert_eq!(freshness_text("2026-07-31", "", "2026-08-01"), "0.97");
    assert_eq!(freshness_text("2020-01-01", "", "2026-08-01"), "0.0");
    assert_eq!(freshness_text("bad", "", "2026-08-01"), "1.0");
    assert!(date_is_current("2026-08-01", "2026-08-01", ""));
    assert!(!date_is_current("2026-08-01", "", "2026-07-31"));
}

#[test]
fn entities_sort_and_deduplicate() {
    let values = vec![" beta ".to_string(), "Alpha".to_string(), "BETA".to_string(), "".to_string()];
    assert_eq!(canonical_entities(&values), vec!["Alpha".to_string(), "beta".to_string()]);
    assert_eq!(sort_unique_ids(&[5, 3, 5, 1]), vec![1, 3, 5]);
}

#[test]
fn structured_content_rules() {
    let ok = normalize_structured_content(" 标题 ", "a\r\nb\n\n", &["x".to_string()], "fact");
    match ok {
        Ok((title, body, entities, card_type)) => {
            assert_eq!(title, "标题");
            assert_eq!(body, vec!["a".to_string(), "b".to_string()]);
            assert_eq!(entities, vec!["x".to_string()]);
            assert_eq!(card_type, "fact");
        }
        Err(e) => panic!("{}", e.message()),
    }
    let long = "t".repeat(121);
    match normalize_structured_content(&long, "", &[], "fact") {
        Err(Error::Core(m)) => assert_eq!(m, "标题最多 120 个字符"),
        _ => panic!("expected title error"),
    }
    match normalize_structured_content("t", "", &["a,b".to_string()], "fact") {
        Err(Error::Core(m)) => assert_eq!(m, "实体不能包含逗号、换行或 NUL 字符"),
        _ => panic!("expected entity error"),
    }
    match normalize_structured_content("t", "", &[], "unknown") {
        Err(Error::Core(m)) => assert_eq!(m, "类型只能是 fact、decision 或 skill"),
        _ => panic!("expected type error"),
    }
    match stored_scope("project", "demo") {
        Ok(s) => assert_eq!(s, "project:demo"),
        Err(e) => panic!("{}", e.message()),
    }
    match stored_scope("weird", "demo") {
        Err(Error::Core(m)) => assert_eq!(m, "适用范围只能是 global 或 project"),
        _ => panic!("expected scope error"),
    }
    match stored_scope("project", "global") {
        Err(Error::Core(m)) => assert_eq!(m, "scope=project 需要可识别的项目目录；请在项目会话中重试，或明确使用 global"),
        _ => panic!("expected project error"),
    }
}

#[test]
fn canonical_text_is_a_fixed_point() {
    let card = parse_card("@7 fact published I2 T3 2026-08-01\n= beta, Alpha\n~ user\n# supersedes @3, @2\n标题\n正文。\n").expect("parse");
    let text = serialize_card(&card, "2026-08-10");
    let back = parse_card(&text).expect("parse back");
    assert_eq!(serialize_card(&back, "2026-08-10"), text);
    assert!(text.contains("# supersedes @2, @3\n"));
    assert_eq!(back.supersedes, vec![2, 3]);
}
