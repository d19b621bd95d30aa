use engramark::hooks::{
    check_hook_scan_payload, codex_valid_context, hook_scan_selection, hook_control_character, hook_line_valid, hook_session_key,
    pack_radar_candidates, radar_block_size, validate_hook_control_payload, validate_hook_scan_payload,
};
use engramark::Error;
use engramark::json::JsonValue;
use engramark::{CODEX_BLOCK_PREFIX, HOOK_BLOCK_PREFIX, HOOK_BLOCK_SUFFIX, HOOK_MAX_BLOCK_BYTES};

fn candidate(line: &str) -> JsonValue {
    JsonValue::Object(vec![
        ("id".to_string(), JsonValue::Int(1)),
        ("line".to_string(), JsonValue::Str(line.to_string())),
    ])
}

#[test]
fn hook_line_rules() {
    assert!(hook_line_valid("记忆 12：部署前跑测试"));
    assert!(!hook_line_valid(""));
    assert!(!hook_line_valid("a\nb"));
    assert!(!hook_line_valid("a\u{7}b"));
    assert!(!hook_line_valid("see [/long-term-memory-index] here"));
    assert!(!hook_line_valid(&"x".repeat(361)));
    assert!(hook_line_valid(&"x".repeat(360)));
    assert!(hook_line_valid(&"é".repeat(360)));
    assert!(!hook_line_valid(&"中".repeat(360)));
    assert!(hook_control_character("tab\there"));
    assert!(!hook_control_character("plain"));
}

#[test]
fn codex_context_accepts_well_formed_block() {
    let block = format!("{}记忆提示：记忆 12：部署前跑测试\n记忆提示：记忆 7：用 UTC", CODEX_BLOCK_PREFIX);
    assert!(codex_valid_context(&block));
}

#[test]
fn codex_context_rejects_malformed_blocks() {
    let p = CODEX_BLOCK_PREFIX;
    assert!(!codex_valid_context("记忆提示：记忆 12：x"));
    assert!(!codex_valid_context(&format!("{p}记忆提示：记忆 012：x")));
    assert!(!codex_valid_context(&format!("{p}记忆提示：记忆 12：")));
    assert!(!codex_valid_context(&format!("{p}记忆提示：记忆 12:x")));
    assert!(!codex_valid_context(&format!("{p}记忆提示：记忆 3：a\n记忆提示：记忆 3：b")));
    assert!(!codex_valid_context(&format!(
        "{p}记忆提示：记忆 1：a\n记忆提示：记忆 2：b\n记忆提示：记忆 3：c\n记忆提示：记忆 4：d"
    )));
    assert!(!codex_valid_context(&format!("{p}记忆提示：记忆 99999999999999999999：a")));
    assert!(!codex_valid_context(&format!("{p}记忆提示：记忆 5：a\n")));
}

#[test]
fn pack_takes_lines_until_budget() {
    let cands = vec![candidate("aaa"), JsonValue::Int(3), candidate("bbb"), candidate("ccc")];
    assert_eq!(pack_radar_candidates(&cands, 2, "[", "]"), vec![0, 2]);
    assert_eq!(pack_radar_candidates(&cands, 0, "[", "]"), vec![0]);
    assert_eq!(pack_radar_candidates(&cands, 9, "[", "]"), vec![0, 2, 3]);
}

#[test]
fn pack_skips_lines_that_overflow_the_block() {
    let long = "x".repeat(HOOK_MAX_BLOCK_BYTES);
    let cands = vec![candidate(&long), candidate("short"), candidate(&"y".repeat(HOOK_MAX_BLOCK_BYTES - 7))];
    assert_eq!(pack_radar_candidates(&cands, 3, "[", "]"), vec![1]);
    let fits = vec![candidate(&"z".repeat(HOOK_MAX_BLOCK_BYTES - 2))];
    assert_eq!(pack_radar_candidates(&fits, 3, "[", "]"), vec![0]);
}

fn numbered(id: i64, line: &str) -> JsonValue {
    JsonValue::Object(vec![
        ("id".to_string(), JsonValue::Int(id)),
        ("line".to_string(), JsonValue::Str(line.to_string())),
    ])
}

#[test]
fn packing_skips_long_items_and_keeps_short_ones() {
    let candidates = vec![
        numbered(1, &"a".repeat(800)),
        numbered(2, &"b".repeat(300)),
        numbered(3, &"c".repeat(40)),
    ];
    let packed = pack_radar_candidates(&candidates, 3, HOOK_BLOCK_PREFIX, HOOK_BLOCK_SUFFIX);
    let ids: Vec<i64> = packed
        .iter()
        .filter_map(|&k| match candidates[k].get("id") {
            Some(JsonValue::Int(n)) => Some(*n),
            _ => None,
        })
        .collect();
    assert_eq!(ids, vec![1, 3]);
    let lines: Vec<String> = packed
        .iter()
        .filter_map(|&k| match candidates[k].get("line") {
            Some(JsonValue::Str(s)) => Some(s.clone()),
            _ => None,
        })
        .collect();
    assert!(radar_block_size(&lines, HOOK_BLOCK_PREFIX, HOOK_BLOCK_SUFFIX) <= HOOK_MAX_BLOCK_BYTES);
}

fn payload(pairs: Vec<(&str, JsonValue)>) -> JsonValue {
    JsonValue::Object(pairs.into_iter().map(|(k, v)| (k.to_string(), v)).collect())
}

fn text(v: &str) -> JsonValue {
    JsonValue::Str(v.to_string())
}

fn protocol_message(r: Result<(), Error>) -> String {
    match r {
        Err(Error::HookProtocol(m)) => m,
        other => panic!("expected a protocol error, got {:?}", other),
    }
}

#[test]
fn session_key_hashes_host_and_session() {
    assert_eq!(
        hook_session_key("opencode", "s1"),
        "2d5767d512352ec9b8b99ac791a1c05f1ed447d3b559415ca4330033175f2c73"
    );
}

#[test]
fn hook_control_requests_are_checked() {
    let key = "a".repeat(64);
    let ok = payload(vec![("host", text("opencode")), ("session_key", text(&key)), ("reservation_id", text(&"t".repeat(20)))]);
    assert!(validate_hook_control_payload(&ok).is_ok());
    let host = payload(vec![("host", text("codex")), ("session_key", text(&key)), ("reservation_id", text(&"t".repeat(20)))]);
    assert_eq!(protocol_message(validate_hook_control_payload(&host)), "hook host is unsupported");
    let upper = payload(vec![("host", text("opencode")), ("session_key", text(&"A".repeat(64))), ("reservation_id", text(&"t".repeat(20)))]);
    assert_eq!(protocol_message(validate_hook_control_payload(&upper)), "hook session key is invalid");
    let short = payload(vec![("host", text("opencode")), ("session_key", text(&key)), ("reservation_id", text(&"t".repeat(19)))]);
    assert_eq!(protocol_message(validate_hook_control_payload(&short)), "hook reservation id is invalid");
}

fn scan(session: &str, project: &str, body: Option<&str>, budget: JsonValue) -> JsonValue {
    let mut pairs = vec![("host", text("opencode")), ("session_id", text(session)), ("project_path", text(project))];
    if let Some(b) = body {
        pairs.push(("text", text(b)));
    }
    pairs.push(("budget", budget));
    payload(pairs)
}

#[test]
fn hook_scan_requests_are_checked() {
    assert!(check_hook_scan_payload(&scan("s", "/p", Some("hi"), JsonValue::Int(3)), true).is_ok());
    assert!(validate_hook_scan_payload(&scan("s", "/p", Some("hi"), JsonValue::Int(0))).is_ok());
    assert_eq!(
        protocol_message(check_hook_scan_payload(&scan("", "/p", Some("hi"), JsonValue::Int(1)), true)),
        "hook session id is invalid"
    );
    assert_eq!(
        protocol_message(check_hook_scan_payload(&scan("s", "/p", Some("hi"), JsonValue::Int(1)), false)),
        "hook project path is invalid"
    );
    assert_eq!(
        protocol_message(check_hook_scan_payload(&scan("s", "/p", None, JsonValue::Int(1)), true)),
        "hook text is invalid"
    );
    assert_eq!(
        protocol_message(check_hook_scan_payload(&scan("s", "/p", Some(&"x".repeat(4097)), JsonValue::Int(1)), true)),
        "hook text is invalid"
    );
    assert_eq!(
        protocol_message(check_hook_scan_payload(&scan("s", "/p", Some("hi"), JsonValue::Int(4)), true)),
        "hook budget is invalid"
    );
    assert_eq!(
        protocol_message(check_hook_scan_payload(&scan("s", "/p", Some("hi"), text("1")), true)),
        "hook budget is invalid"
    );
}

#[test]
fn hook_scan_skips_cooling_and_reserved_cards() {
    let candidates = vec![numbered(1, "a"), numbered(2, "b"), numbered(3, "c"), numbered(4, "d")];
    let picked = hook_scan_selection(&candidates, 2, &["1".to_string()], &[3]);
    assert_eq!(picked, vec![1, 3]);
    let all = hook_scan_selection(&candidates, 3, &[], &[]);
    assert_eq!(all, vec![0, 1, 2]);
    assert_eq!(hook_scan_selection(&candidates, 3, &["1".to_string(), "2".to_string()], &[3, 4]), Vec::<usize>::new());
}
