use engramark::cache_sync::{check_table_synced, plan_cache_sync};
use engramark::display::{human_radar_line, preview_settings, MetaRow};
use engramark::hooks::{hook_scan_selection, hook_scan_step};
use engramark::host_setup::codex::{patch_codex_project_config, patch_codex_project_config_checked};
use engramark::json::JsonValue;
use engramark::hooks::candidates::{cache_usable, order_hook_candidates};
use engramark::host_setup::hooks_file::{is_engramark_hook, kept_handlers};
use engramark::host_setup::edits::{is_owned_opencode_plugin, plan_host_edits, HostEdit, HostFiles};
use engramark::radar::blob::{frame_radar_blob, radar_sections};
use engramark::radar::compile::{anchors_json_text, radar_blob_with_table};
use engramark::radar::{RadarBucket, RadarCardRef, RadarHit};
use engramark::Error;

fn pairs(items: &[(&str, &str)]) -> Vec<(String, String)> {
    items.iter().map(|(k, v)| (k.to_string(), v.to_string())).collect()
}

fn expected_meta(today: &str) -> Vec<(String, String)> {
    pairs(&[
        ("mem_format_version", "1"),
        ("cache_schema_version", "3"),
        ("query_planner_version", "2"),
        ("normalization_version", "1"),
        ("tokenizer_version", "1"),
        ("radar_compiler_version", "1"),
        ("source_collection_hash_version", "1"),
        ("sqlite_capability_fingerprint", "fts5"),
        ("build_complete", "1"),
        ("effective_date", today),
    ])
}

fn reason(r: Result<(), Error>) -> String {
    match r {
        Ok(()) => "ok".to_string(),
        Err(Error::HookUnavailable(x)) => x,
        Err(e) => panic!("{:?}", e),
    }
}

#[test]
fn cache_gate_reasons() {
    let expected = expected_meta("2026-08-02");
    assert_eq!(reason(cache_usable(&expected_meta("2026-08-02"), &expected, "2026-08-02")), "ok");
    assert_eq!(reason(cache_usable(&expected_meta("2026-08-01"), &expected, "2026-08-02")), "cache_stale");
    let mut old_schema = expected_meta("2026-08-02");
    old_schema[1].1 = "2".to_string();
    assert_eq!(reason(cache_usable(&old_schema, &expected, "2026-08-02")), "cache_incompatible");
    let mut unfinished = expected_meta("2026-08-02");
    unfinished[8].1 = "0".to_string();
    assert_eq!(reason(cache_usable(&unfinished, &expected, "2026-08-02")), "cache_corrupt");
    let mut missing = expected_meta("2026-08-02");
    missing.remove(7);
    assert_eq!(reason(cache_usable(&missing, &expected, "2026-08-02")), "cache_incompatible");
}

fn row(id: i64, status: &str, lock: bool, i: i64) -> MetaRow {
    MetaRow {
        id,
        status: status.into(),
        card_type: "fact".into(),
        i,
        t: 2,
        last_used: "2026-08-01".into(),
        updated: "2026-08-01".into(),
        source: String::new(),
        lock,
        scope: "global".into(),
        title: format!("标题{id}"),
        body: "正文".into(),
        entities: String::new(),
        valid_from: String::new(),
        valid_to: String::new(),
        supersedes: String::new(),
        semantic_hash: String::new(),
        source_hash: String::new(),
        evidence: String::new(),
        strong_anchor: false,
        confidence: String::new(),
    }
}

fn hit(id: i64, entity: &str, strong: bool) -> RadarHit {
    RadarHit {
        anchor: entity.to_lowercase(),
        entity: entity.into(),
        id,
        strong,
        kind: "acronym".into(),
        manual: false,
        scope: "global".into(),
    }
}

#[test]
fn hook_candidates_rank_and_filter() {
    let rows = vec![row(1, "published", false, 3), row(2, "published", true, 1), row(3, "candidate", true, 3)];
    let hits = vec![hit(1, "CEF", false), hit(2, "QT", true), hit(3, "GTK", true), hit(1, "CEFX", true), hit(9, "NONE", true)];
    let got = order_hook_candidates(&rows, &hits, "2026-08-02", 120);
    let ids: Vec<i64> = got.iter().map(|(id, _)| *id).collect();
    assert_eq!(ids, vec![2, 1]);
    assert_eq!(got[0].1, human_radar_line(&rows[1], "QT", 120));
    assert_eq!(got[1].1, human_radar_line(&rows[0], "CEFX", 120));
    let later = vec![row(1, "published", false, 3), row(2, "published", false, 1)];
    let got = order_hook_candidates(&later, &hits, "2026-08-02", 120);
    let ids: Vec<i64> = got.iter().map(|(id, _)| *id).collect();
    assert_eq!(ids, vec![1, 2]);
}

#[test]
fn hook_candidates_drop_expired_cards() {
    let mut expired = row(1, "published", false, 3);
    expired.valid_to = "2026-08-01".into();
    let got = order_hook_candidates(&vec![expired], &vec![hit(1, "CEF", true)], "2026-08-02", 120);
    assert!(got.is_empty());
}

fn files() -> HostFiles {
    HostFiles {
        codex_config: false,
        codex_agents: false,
        codex_hooks: false,
        opencode_jsonc: false,
        opencode_json: false,
        opencode_agents: false,
        plugin_link: false,
        plugin_exists: false,
        plugin_is_file: false,
        plugin_text: String::new(),
    }
}

fn core_message(r: Result<Vec<HostEdit>, Error>) -> String {
    match r {
        Err(Error::Core(m)) => m,
        other => panic!("{:?}", other),
    }
}

#[test]
fn host_edits_fresh_install_and_removal() {
    let plan = plan_host_edits(true, true, true, &files()).unwrap();
    assert_eq!(
        plan,
        vec![
            HostEdit::CodexConfig,
            HostEdit::CodexAgents,
            HostEdit::CodexHooks,
            HostEdit::OpenCodeConfig { jsonc: true },
            HostEdit::OpenCodeAgents,
            HostEdit::PluginWrite,
        ]
    );
    assert_eq!(plan_host_edits(false, true, true, &files()).unwrap(), vec![]);
    let mut present = files();
    present.codex_hooks = true;
    present.opencode_json = true;
    present.plugin_exists = true;
    present.plugin_is_file = true;
    present.plugin_text = "// engramark-managed-opencode-plugin-v4\nexport default {}".into();
    assert_eq!(
        plan_host_edits(false, true, true, &present).unwrap(),
        vec![HostEdit::CodexHooks, HostEdit::OpenCodeConfig { jsonc: false }, HostEdit::PluginDelete]
    );
}

#[test]
fn host_edits_refusals() {
    let mut both = files();
    both.opencode_json = true;
    both.opencode_jsonc = true;
    assert!(core_message(plan_host_edits(false, false, true, &both)).contains("opencode.jsonc 和 opencode.json"));
    assert_eq!(plan_host_edits(true, true, false, &both).unwrap().len(), 3);
    let mut foreign = files();
    foreign.plugin_exists = true;
    foreign.plugin_is_file = true;
    foreign.plugin_text = "// someone else's plugin".into();
    assert!(core_message(plan_host_edits(true, false, true, &foreign)).contains("不属于 Engramark"));
    assert_eq!(plan_host_edits(false, false, true, &foreign).unwrap(), vec![]);
    let mut link = files();
    link.plugin_link = true;
    assert!(core_message(plan_host_edits(true, false, true, &link)).contains("符号链接"));
    let mut dir = files();
    dir.plugin_exists = true;
    assert!(core_message(plan_host_edits(true, false, true, &dir)).contains("不是普通文件"));
    assert!(is_owned_opencode_plugin("// Engramark OpenCode 适配器（legacy 安全版）。\n"));
    assert!(!is_owned_opencode_plugin("// engramark-managed-opencode-plugin-v5"));
}

fn sorted(mut v: Vec<i64>) -> Vec<i64> {
    v.sort();
    v.dedup();
    v
}

fn texts(items: &[(i64, &str)]) -> Vec<(i64, String)> {
    items.iter().map(|(id, s)| (*id, s.to_string())).collect()
}

#[test]
fn cache_sync_plan_and_check() {
    let meta: Vec<(i64, String, String)> =
        vec![(1, "a".into(), "s1".into()), (2, "b".into(), "s2".into()), (4, "d".into(), "s4".into())];
    let fts = texts(&[(1, "a"), (2, "b"), (4, "d")]);
    let tri = texts(&[(1, "a"), (2, "b")]);
    let cards: Vec<(i64, String, String, bool)> = vec![
        (1, "a".into(), "s1".into(), true),
        (2, "b2".into(), "s2".into(), true),
        (3, "c".into(), "s3".into(), true),
        (5, "e".into(), "s5".into(), false),
    ];
    let plan = plan_cache_sync(&meta, &fts, &tri, &cards);
    assert_eq!(sorted(plan.delete_meta), vec![2, 3, 4, 5]);
    assert_eq!(sorted(plan.insert_meta), vec![2, 3, 5]);
    assert_eq!(sorted(plan.delete_fts), vec![2, 4]);
    assert_eq!(sorted(plan.insert_fts), vec![2, 3]);
    assert_eq!(sorted(plan.delete_tri), vec![2]);
    assert_eq!(sorted(plan.insert_tri), vec![2, 3]);
    assert!(check_table_synced(&texts(&[(3, "c"), (1, "a"), (2, "b2")]), &cards));
    assert!(!check_table_synced(&texts(&[(1, "a"), (2, "b2")]), &cards));
    assert!(!check_table_synced(&texts(&[(1, "a"), (2, "b"), (3, "c")]), &cards));
    assert!(!check_table_synced(&texts(&[(1, "a"), (2, "b2"), (3, "c"), (5, "e")]), &cards));
    assert!(!check_table_synced(&texts(&[(1, "a"), (1, "a"), (2, "b2"), (3, "c")]), &cards));
}

#[test]
fn cache_sync_unchanged_index_plans_nothing() {
    let meta: Vec<(i64, String, String)> = vec![(1, "a".into(), "s1".into())];
    let fts = texts(&[(1, "a")]);
    let cards: Vec<(i64, String, String, bool)> = vec![(1, "a".into(), "s1".into(), true)];
    let plan = plan_cache_sync(&meta, &fts, &fts, &cards);
    assert!(plan.delete_meta.is_empty() && plan.insert_meta.is_empty());
    assert!(plan.delete_fts.is_empty() && plan.insert_fts.is_empty());
    assert!(plan.delete_tri.is_empty() && plan.insert_tri.is_empty());
}

fn table() -> Vec<(String, RadarBucket)> {
    vec![(
        "cef".to_string(),
        RadarBucket {
            display: "CEF".into(),
            cards: vec![RadarCardRef { id: 7, strong: true, kind: "acronym".into(), manual: false, scope: "global".into() }],
        },
    )]
}

#[test]
fn anchors_section_is_canonical_json() {
    assert_eq!(
        anchors_json_text(&table()),
        "{\"cef\":{\"cards\":[{\"id\":7,\"kind\":\"acronym\",\"manual\":false,\"scope\":\"global\",\"strength\":\"strong\"}],\"display\":\"CEF\"}}"
    );
    assert_eq!(anchors_json_text(&vec![]), "{}");
}

#[test]
fn framed_blob_reads_back() {
    let blob = frame_radar_blob(b"{\"states\":1}", b"{\"goto\":[{}]}", b"{}");
    assert_eq!(&blob[0..4], b"MRDR");
    assert_eq!(blob.len(), 12 + 3 * 40 + 12 + 13 + 2);
    let sections = radar_sections(&blob).unwrap();
    assert_eq!(sections.meta, b"{\"states\":1}".to_vec());
    assert_eq!(sections.machine, b"{\"goto\":[{}]}".to_vec());
    assert_eq!(sections.anchors, b"{}".to_vec());
    let with_table = radar_blob_with_table(b"{}", b"{}", &table()).unwrap();
    let back = radar_sections(&with_table).unwrap();
    assert_eq!(String::from_utf8(back.anchors).unwrap(), anchors_json_text(&table()));
}

fn scan_candidate(id: i64, line: &str) -> JsonValue {
    JsonValue::Object(vec![("id".to_string(), JsonValue::Int(id)), ("line".to_string(), JsonValue::Str(line.to_string()))])
}

#[test]
fn hook_scan_step_early_answers_and_refusal() {
    let cands = vec![scan_candidate(1, "记忆提示：一"), scan_candidate(2, "记忆提示：二")];
    assert_eq!(hook_scan_step(&cands, 0, "text", &[], &[], 0).unwrap(), Vec::<usize>::new());
    assert_eq!(hook_scan_step(&cands, 3, " \n\u{3000}", &[], &[], 0).unwrap(), Vec::<usize>::new());
    assert_eq!(hook_scan_step(&[], 3, "text", &[], &[], 200).unwrap(), Vec::<usize>::new());
    match hook_scan_step(&cands, 3, "text", &[], &[], 128) {
        Err(Error::HookUnavailable(m)) => assert_eq!(m, "internal"),
        other => panic!("{:?}", other),
    }
    assert_eq!(hook_scan_step(&cands, 3, "text", &["1".to_string()], &[], 127).unwrap(), vec![1]);
    assert_eq!(hook_scan_step(&cands, 3, "text", &[], &[], 0).unwrap(), hook_scan_selection(&cands, 3, &[], &[]));
}

#[test]
fn search_preview_settings_clamp() {
    assert_eq!(preview_settings(None, None), (true, 800));
    assert_eq!(preview_settings(Some(false), Some(0)), (false, 1));
    assert_eq!(preview_settings(Some(true), Some(5000)), (true, 800));
    assert_eq!(preview_settings(None, Some(120)), (true, 120));
}

#[test]
fn project_config_checked_refuses_only_misordered_markers() {
    let misordered = "# engramark-end project-cwd\nx = 1\n# engramark-begin project-cwd\n";
    assert!(patch_codex_project_config_checked(misordered, "/work", true).is_none());
    let invalid = "x = [\n# engramark-end project-cwd\n# engramark-begin project-cwd\n";
    assert!(matches!(patch_codex_project_config_checked(invalid, "/work", true), Some(Err(Error::Core(_)))));
    let plain = "model = \"o3\"\n";
    let checked = patch_codex_project_config_checked(plain, "/work", true).unwrap().unwrap();
    assert_eq!(checked, patch_codex_project_config(plain, "/work", true).unwrap());
}

fn handler(command: &str) -> JsonValue {
    JsonValue::Object(vec![
        ("type".to_string(), JsonValue::Str("command".to_string())),
        ("command".to_string(), JsonValue::Str(command.to_string())),
    ])
}

#[test]
fn hooks_file_handlers_classified() {
    let ours = handler("/usr/bin/env ENGRAMARK_HOME='/d' /opt/Engramark/bin/engramark hook codex-prompt");
    let legacy = handler("python C:\\Users\\me\\engramark\\adapters\\codex\\hooks\\prompt.py");
    let other = handler("/usr/local/bin/other-tool hook codex-prompt");
    assert!(is_engramark_hook(&ours).unwrap());
    assert!(is_engramark_hook(&legacy).unwrap());
    assert!(!is_engramark_hook(&other).unwrap());
    assert!(!is_engramark_hook(&JsonValue::Object(vec![])).unwrap());
    assert!(matches!(is_engramark_hook(&JsonValue::Int(1)), Err(Error::Core(m)) if m.contains("处理器必须是对象")));
    let bad = JsonValue::Object(vec![("command".to_string(), JsonValue::Int(3))]);
    assert!(matches!(is_engramark_hook(&bad), Err(Error::Core(m)) if m.contains("command 必须是字符串")));
    assert_eq!(kept_handlers(&vec![handler("/opt/engramark/bin/engramark hook codex-stop"), other, legacy]).unwrap(), vec![1]);
}
