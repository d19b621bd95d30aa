use engramark::host_setup::codex::{patch_codex_project_config, validate_toml};
use engramark::host_setup::codex_config::{is_legacy_engramark_mcp, patch_codex_config};
use engramark::host_setup::replace_block;
use engramark::json::JsonValue;
use engramark::mcp::{validate_tool_arguments, Validated};
use engramark::Error;

fn ok_text(r: Result<String, Error>) -> String {
    match r {
        Ok(s) => s,
        Err(e) => panic!("{:?}", e),
    }
}

#[test]
fn replace_block_appends_after_blank_line() {
    assert_eq!(ok_text(replace_block("a\n", "# B", "# E", Some("x  \n"))), "a\n\n# B\nx\n# E\n");
    assert_eq!(ok_text(replace_block("", "# B", "# E", Some("x"))), "# B\nx\n# E\n");
}

#[test]
fn replace_block_removes_old_block() {
    assert_eq!(ok_text(replace_block("a\n# B\nold\n# E\nz\n", "# B", "# E", None)), "a\nz\n");
    let once = ok_text(replace_block("a\n", "# B", "# E", Some("x")));
    assert_eq!(ok_text(replace_block(&once, "# B", "# E", Some("x"))), once);
}

#[test]
fn replace_block_refuses_unbalanced_markers() {
    match replace_block("# B only\n", "# B", "# E", None) {
        Err(Error::Core(m)) => assert_eq!(m, "\u{2}配置中的 Engramark 标记不完整或重复：# B"),
        _ => panic!("expected an error"),
    }
}

fn obj(pairs: Vec<(&str, JsonValue)>) -> JsonValue {
    JsonValue::Object(pairs.into_iter().map(|(k, v)| (k.to_string(), v)).collect())
}

fn refused(name: &str, args: Option<&JsonValue>) -> String {
    match validate_tool_arguments(name, args) {
        Err(Error::Core(m)) => m,
        Err(e) => panic!("{:?}", e),
        Ok(_) => panic!("expected a refusal"),
    }
}

#[test]
fn search_query_is_trimmed() {
    let args = obj(vec![("query", JsonValue::Str("  redis  ".to_string()))]);
    match validate_tool_arguments("memory_search", Some(&args)) {
        Ok(Validated::Search { query }) => assert_eq!(query, "redis"),
        _ => panic!("expected a search"),
    }
}

#[test]
fn tool_argument_refusals() {
    let extra = obj(vec![("query", JsonValue::Str("x".to_string())), ("zz", JsonValue::Null), ("aa", JsonValue::Null)]);
    assert_eq!(refused("memory_search", Some(&extra)), "\u{1}不支持参数 aa, zz；请移除后重试");
    assert_eq!(refused("memory_search", None), "\u{1}缺少必填参数 query；请补充后重试");
    let dup = obj(vec![("ids", JsonValue::Array(vec![JsonValue::Int(3), JsonValue::Int(3)]))]);
    assert_eq!(refused("memory_get", Some(&dup)), "\u{1}ids 不能包含重复编号");
    let big = obj(vec![("id", JsonValue::Float { whole_above_max_id: true })]);
    assert_eq!(refused("memory_publish", Some(&big)), "\u{1}id 超过安全上限 9007199254740991");
    let zero = obj(vec![("id", JsonValue::Int(0))]);
    assert_eq!(refused("memory_archive", Some(&zero)), "\u{1}id 必须是大于等于 1 的整数记忆编号");
    let unconfirmed = obj(vec![("id", JsonValue::Int(2)), ("confirm", JsonValue::Bool(false))]);
    assert_eq!(refused("memory_delete", Some(&unconfirmed)), "\u{1}删除记忆需要用户明确确认；确认后请传入 confirm=true");
    assert_eq!(refused("memory_feedback", Some(&obj(vec![("id", JsonValue::Int(2)), ("outcome", JsonValue::Str("maybe".to_string()))]))), "\u{1}outcome 只能是 correct 或 incorrect");
    assert_eq!(refused("memory_nope", None), "\u{1}未知工具 memory_nope");
    assert_eq!(refused("memory_audit", Some(&JsonValue::Int(1))), "\u{1}工具参数必须是对象，请按工具说明重新调用");
    let only_id = obj(vec![("id", JsonValue::Int(2))]);
    assert_eq!(refused("memory_update", Some(&only_id)), "\u{1}除 id 外至少提供 title、body、entities 或 type 中的一项");
}

#[test]
fn ids_and_writes_validate() {
    let ids = obj(vec![("ids", JsonValue::Array(vec![JsonValue::Int(4), JsonValue::Int(2)]))]);
    match validate_tool_arguments("memory_get", Some(&ids)) {
        Ok(Validated::Get { ids }) => assert_eq!(ids, vec![4, 2]),
        _ => panic!("expected ids"),
    }
    let save = obj(vec![
        ("title", JsonValue::Str("  Deploy notes ".to_string())),
        ("body", JsonValue::Str("line one\r\nline two\n\n".to_string())),
        ("scope", JsonValue::Str("project".to_string())),
        ("lock", JsonValue::Bool(true)),
    ]);
    match validate_tool_arguments("memory_save", Some(&save)) {
        Ok(Validated::Write(w)) => {
            assert_eq!(w.title, "Deploy notes");
            assert_eq!(w.body, "line one\nline two");
            assert_eq!(w.card_type, "fact");
            assert_eq!(w.scope, "project");
            assert!(w.lock);
        },
        _ => panic!("expected a write"),
    }
    let propose_lock = obj(vec![
        ("title", JsonValue::Str("t".to_string())),
        ("scope", JsonValue::Str("global".to_string())),
        ("lock", JsonValue::Bool(true)),
    ]);
    assert_eq!(refused("memory_propose", Some(&propose_lock)), "\u{1}不支持参数 lock；请移除后重试");
}

#[test]
fn project_config_install_and_remove() {
    let installed = ok_text(patch_codex_project_config("", "/p", true));
    assert_eq!(
        installed,
        "# engramark-begin project-cwd\n[mcp_servers.engramark]\ncwd = \"/p\"\n# engramark-end project-cwd\n"
    );
    assert_eq!(ok_text(patch_codex_project_config(&installed, "/p", true)), installed);
    assert_eq!(ok_text(patch_codex_project_config(&installed, "/p", false)), "\n");
    let kept = ok_text(patch_codex_project_config("x = 1\n", "/p", true));
    assert_eq!(
        kept,
        "x = 1\n\n# engramark-begin project-cwd\n[mcp_servers.engramark]\ncwd = \"/p\"\n# engramark-end project-cwd\n"
    );
}

#[test]
fn project_config_refusals() {
    match patch_codex_project_config("[mcp_servers.engramark]\ncwd = \"/x\"\n", "/p", true) {
        Err(Error::Core(m)) => {
            assert_eq!(m, "\u{2}项目配置已经定义 mcp_servers.engramark；为避免覆盖，请先手工处理该段")
        }
        _ => panic!("expected a refusal"),
    }
    match patch_codex_project_config("a = ", "/p", true) {
        Err(Error::Core(m)) => assert!(m.starts_with("\u{2}Codex config.toml 不是有效 TOML：")),
        _ => panic!("expected a TOML error"),
    }
    assert!(validate_toml(" \n").is_ok());
}

const SERVER_BLOCK: &str = "# engramark-begin codex-mcp\n[mcp_servers.engramark]\ncommand = \"/app/bin/engramark\"\nargs = [\"mcp\"]\n\n[mcp_servers.engramark.env]\nENGRAMARK_HOME = \"/d\"\n# engramark-end codex-mcp\n";

#[test]
fn codex_config_install_on_empty_text() {
    let out = ok_text(patch_codex_config("", "/app/bin/engramark", "/d", true, None));
    assert_eq!(
        out,
        format!("[features]\n# engramark-begin codex-memory\nmemories = false\n# engramark-end codex-memory\n\n{SERVER_BLOCK}")
    );
    assert_eq!(ok_text(patch_codex_config(&out, "/app/bin/engramark", "/d", true, None)), out);
    assert_eq!(ok_text(patch_codex_config(&out, "/app/bin/engramark", "/d", false, None)), "[features]\n");
}

#[test]
fn codex_config_records_and_restores_memories() {
    let out = ok_text(patch_codex_config("[features]\nmemories = true\n", "/app/bin/engramark", "/d", true, None));
    assert_eq!(
        out,
        format!(
            "[features]\n# engramark-begin codex-memory\n# previous memories = true\nmemories = false\n# engramark-end codex-memory\n\n{SERVER_BLOCK}"
        )
    );
    assert_eq!(
        ok_text(patch_codex_config(&out, "/app/bin/engramark", "/d", false, None)),
        "[features]\nmemories = true\n"
    );
    let legacy = ok_text(patch_codex_config("", "/app/bin/engramark", "/d", true, Some(" memories = true ")));
    assert!(legacy.contains("# previous memories = true\nmemories = false\n"));
}

#[test]
fn codex_config_server_sections() {
    match patch_codex_config("[mcp_servers.engramark]\ncommand = \"other\"\n", "/b", "/d", true, None) {
        Err(Error::Core(m)) => assert_eq!(m, "\u{2}Codex 已有同名 MCP，但不是 Engramark，已停止避免覆盖"),
        _ => panic!("expected a refusal"),
    }
    let old = "x = 1\n\n[mcp_servers.engramark]\ncommand = \"/Home/U/Engramark/Bin/Engramark\"\n\n[mcp_servers.engramark.env]\nA = \"1\"\n";
    assert_eq!(ok_text(patch_codex_config(old, "/b", "/d", false, None)), "x = 1\n");
    let py = "[mcp_servers.engramark]\ncommand = 'C:\\u\\engramark\\runtime\\python'\n";
    assert_eq!(ok_text(patch_codex_config(py, "/b", "/d", false, None)), "\n");
    assert!(is_legacy_engramark_mcp("command = \"/x/engramark/python\""));
    assert!(!is_legacy_engramark_mcp("command = \"/x/engramark/pythonista\""));
}

#[test]
fn codex_config_drops_legacy_memory_blocks() {
    let text = "a = 1\n# engramark-begin old\n[features]\nmemories = false\n# engramark-end\nb = 2\n";
    assert_eq!(ok_text(patch_codex_config(text, "/b", "/d", false, None)), "a = 1\nb = 2\n");
    let other = "a = 1\n# engramark-begin old\nc = 3\n# engramark-end old\n";
    assert_eq!(ok_text(patch_codex_config(other, "/b", "/d", false, None)), other);
}
