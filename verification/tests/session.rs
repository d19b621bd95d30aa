use engramark::json::JsonValue;
use engramark::mcp::session::{
    error_text, error_type_name, human_error, public_core_error, request_error, route_request,
    sanitize_request_id, tool_call_target, tool_error_outcome, valid_request, RequestAction, ServerState,
};
use engramark::Error;

fn obj(pairs: Vec<(&str, JsonValue)>) -> JsonValue {
    JsonValue::Object(pairs.into_iter().map(|(k, v)| (k.to_string(), v)).collect())
}

fn s(v: &str) -> JsonValue {
    JsonValue::Str(v.to_string())
}

#[test]
fn initialize_negotiates_the_protocol() {
    let mut state = ServerState::new();
    assert_eq!(state.protocol_version, "2025-11-25");
    assert!(!state.initialized);
    let params = obj(vec![
        ("protocolVersion", s("2025-06-18")),
        ("clientInfo", obj(vec![("name", s("codex")), ("version", s("1.0"))])),
        ("capabilities", obj(vec![("roots", obj(vec![]))])),
    ]);
    state.reset(&params);
    assert!(state.initialized);
    assert_eq!(state.protocol_version, "2025-06-18");
    assert_eq!(state.client_name, "codex");
    assert_eq!(state.client_version, "1.0");
    assert!(state.roots_supported);

    let mut other = ServerState::new();
    other.reset(&obj(vec![
        ("protocolVersion", s("1999-01-01")),
        ("clientInfo", obj(vec![("name", s(&"x".repeat(100)))])),
        ("capabilities", obj(vec![("roots", JsonValue::Bool(true))])),
    ]));
    assert_eq!(other.protocol_version, "2025-11-25");
    assert_eq!(other.client_name, "x".repeat(80));
    assert_eq!(other.client_version, "unknown");
    assert!(!other.roots_supported);
}

#[test]
fn roots_request_and_answer() {
    let mut state = ServerState::new();
    state.reset(&obj(vec![("capabilities", obj(vec![("roots", obj(vec![]))]))]));
    assert_eq!(state.request_roots(), Some("engramark-roots-1".to_string()));
    assert_eq!(state.request_roots(), None);
    assert!(!state.handle_roots_response(&obj(vec![("id", s("engramark-roots-9"))])));
    let answer = obj(vec![
        ("id", s("engramark-roots-1")),
        (
            "result",
            obj(vec![(
                "roots",
                JsonValue::Array(vec![obj(vec![("uri", s("file:///p"))]), obj(vec![("name", s("x"))])]),
            )]),
        ),
    ]);
    assert!(state.handle_roots_response(&answer));
    assert_eq!(state.root_uris, vec!["file:///p".to_string()]);
    assert_eq!(state.roots_request_id, "");
    assert_eq!(state.request_roots(), Some("engramark-roots-2".to_string()));

    let mut silent = ServerState::new();
    silent.reset(&obj(vec![]));
    assert_eq!(silent.request_roots(), None);
}

#[test]
fn request_ids_are_sanitized() {
    assert!(matches!(sanitize_request_id(Some(&JsonValue::Int(5))), JsonValue::Int(5)));
    assert!(matches!(sanitize_request_id(Some(&s("abc-1:x_y.z"))), JsonValue::Str(t) if t == "abc-1:x_y.z"));
    assert!(matches!(sanitize_request_id(Some(&s("a b"))), JsonValue::Null));
    assert!(matches!(sanitize_request_id(Some(&s(&"a".repeat(65)))), JsonValue::Null));
    assert!(matches!(sanitize_request_id(Some(&s(&"a".repeat(64)))), JsonValue::Str(t) if t.len() == 64));
    assert!(matches!(sanitize_request_id(Some(&JsonValue::Bool(true))), JsonValue::Null));
    assert!(matches!(sanitize_request_id(None), JsonValue::Null));
}

#[test]
fn requests_are_checked_and_routed() {
    assert!(valid_request(&obj(vec![("jsonrpc", s("2.0")), ("method", s("ping"))])));
    assert!(!valid_request(&obj(vec![("jsonrpc", s("1.0")), ("method", s("ping"))])));
    assert!(!valid_request(&obj(vec![("jsonrpc", s("2.0"))])));
    assert!(!valid_request(&s("x")));

    assert_eq!(route_request("initialize", false, true, true), RequestAction::Initialize);
    assert_eq!(route_request("initialize", true, false, true), RequestAction::RejectInitialize);
    assert_eq!(route_request("tools/list", false, true, true), RequestAction::RejectUninitialized);
    assert_eq!(route_request("notifications/initialized", false, true, false), RequestAction::Ignore);
    assert_eq!(route_request("notifications/initialized", true, true, false), RequestAction::RefreshRoots);
    assert_eq!(route_request("ping", true, true, true), RequestAction::Pong);
    assert_eq!(route_request("tools/call", true, true, true), RequestAction::CallTool);
    assert_eq!(route_request("prompts/list", true, true, true), RequestAction::ListPrompts);
    assert_eq!(route_request("bogus", true, true, true), RequestAction::RejectMethod);
    assert_eq!(route_request("bogus", true, true, false), RequestAction::Ignore);

    assert_eq!(request_error(RequestAction::RejectMethod, "bogus"), Some((-32601, "不支持的方法：bogus".to_string())));
    assert_eq!(request_error(RequestAction::RejectUninitialized, "x"), Some((-32002, "服务尚未初始化".to_string())));
    assert_eq!(
        request_error(RequestAction::RejectInitialize, "initialize"),
        Some((-32602, "initialize 参数必须是对象".to_string()))
    );
    assert_eq!(request_error(RequestAction::Pong, "ping"), None);
}

#[test]
fn public_errors_and_kinds() {
    assert!(public_core_error("标题不能为空"));
    assert!(public_core_error("查询超过 4096 字符上限"));
    assert!(public_core_error("记忆 12 不存在"));
    assert!(!public_core_error("数据库损坏"));
    assert_eq!(error_type_name(&Error::Core("x".to_string())), "CoreError");
    assert_eq!(error_type_name(&Error::HookProtocol("x".to_string())), "HookProtocolError");
}

#[test]
fn tool_calls_name_a_known_tool() {
    assert_eq!(tool_call_target(&obj(vec![("name", s("memory_get"))])), Ok("memory_get".to_string()));
    assert_eq!(tool_call_target(&obj(vec![("name", s("x"))])), Err((-32602, "未知工具：x".to_string())));
    assert_eq!(tool_call_target(&obj(vec![("arguments", obj(vec![]))])), Err((-32602, "tools/call 参数无效".to_string())));
    assert_eq!(tool_call_target(&s("memory_get")), Err((-32602, "tools/call 参数无效".to_string())));
}

#[test]
fn tool_errors_in_the_clients_words() {
    assert_eq!(human_error("@12 is candidate; @x; published@3"), "记忆 12 is 候选; @x; 正式记忆 3");
    assert_eq!(human_error("archived tombstone"), "已归档 已删除");
    let (shown, kind) = tool_error_outcome(&Error::Core("\u{1}标题不能为空".to_string()));
    assert_eq!(shown, Some("标题不能为空".to_string()));
    assert_eq!(kind, "ToolInputError");
    let (shown, kind) = tool_error_outcome(&Error::Core("@5 不是 candidate".to_string()));
    assert_eq!(shown, Some("记忆 5 不是 候选".to_string()));
    assert_eq!(kind, "CoreError");
    let (shown, kind) = tool_error_outcome(&Error::Core("数据库损坏".to_string()));
    assert_eq!(shown, None);
    assert_eq!(kind, "CoreError");
    let (shown, kind) = tool_error_outcome(&Error::CacheUnavailable("x".to_string()));
    assert!(shown.unwrap().starts_with("记忆索引暂时不可用"));
    assert_eq!(kind, "CacheUnavailable");
    let (shown, kind) = tool_error_outcome(&Error::LockTimeout("x".to_string()));
    assert_eq!(shown, None);
    assert_eq!(kind, "LockTimeout");
}

#[test]
fn error_results_carry_the_message() {
    match error_text("x") {
        JsonValue::Object(pairs) => {
            assert_eq!(pairs.len(), 2);
            assert_eq!(pairs[0].0, "content");
            assert_eq!(pairs[1].0, "isError");
            assert!(matches!(pairs[1].1, JsonValue::Bool(true)));
            match &pairs[0].1 {
                JsonValue::Array(items) => match &items[0] {
                    JsonValue::Object(item) => {
                        assert!(matches!(&item[0].1, JsonValue::Str(t) if t == "text"));
                        assert!(matches!(&item[1].1, JsonValue::Str(t) if t == "无法完成：x"));
                    }
                    _ => panic!("expected an object"),
                },
                _ => panic!("expected an array"),
            }
        }
        _ => panic!("expected an object"),
    }
}

fn text_of(v: Option<&JsonValue>) -> String {
    match v {
        Some(JsonValue::Str(t)) => t.clone(),
        _ => panic!("expected a string"),
    }
}

#[test]
fn tool_catalog_lists_the_tools() {
    let catalog = engramark::tools::tools();
    let items = match &catalog {
        JsonValue::Array(items) => items,
        _ => panic!("expected an array"),
    };
    assert_eq!(items.len(), 11);
    let names: Vec<String> = items.iter().map(|t| text_of(t.get("name"))).collect();
    assert_eq!(names[0], "memory_search");
    assert_eq!(names[10], "memory_audit");
    assert_eq!(text_of(items[9].get("description")), "把记忆改成不含正文的墓碑；必须明确传入 confirm=true。");
    let update = items[7].get("inputSchema").unwrap();
    assert!(matches!(update.get("minProperties"), Some(JsonValue::Int(2))));
    let body = update.get("properties").unwrap().get("body").unwrap();
    assert!(body.get("default").is_none());
    assert_eq!(text_of(body.get("description")), "新正文；空字符串表示清空正文");
    let audit = items[10].get("inputSchema").unwrap();
    assert!(audit.get("required").is_none());
    let annotations = items[5].get("annotations").unwrap();
    assert!(matches!(annotations.get("destructiveHint"), Some(JsonValue::Bool(true))));
    assert!(matches!(annotations.get("openWorldHint"), Some(JsonValue::Bool(false))));
}
