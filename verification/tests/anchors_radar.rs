use engramark::anchors::derive::{derive_anchors, AnchorConfig};
use engramark::json::JsonValue;
use engramark::mem::Card;
use engramark::radar::blob::radar_sections;
use engramark::radar::decode::radar_from_sections;
use engramark::radar::hits::radar_hits_from_runtime;
use engramark::radar::source::radar_source;
use engramark::Error;
use sha2::{Digest, Sha256};

fn card(entities: &[&str], title: &str, body: &[&str]) -> Card {
    Card {
        id: 1,
        card_type: "fact".to_string(),
        status: "published".to_string(),
        importance: 2,
        trust: 2,
        updated: "2025-01-01".to_string(),
        entities: entities.iter().map(|s| s.to_string()).collect(),
        source: "user".to_string(),
        lock: false,
        scope: "global".to_string(),
        last_used: String::new(),
        valid_from: String::new(),
        valid_to: String::new(),
        supersedes: Vec::new(),
        title: title.to_string(),
        body: body.iter().map(|s| s.to_string()).collect(),
        deduplicated: false,
        unchanged: false,
    }
}

fn config() -> AnchorConfig {
    AnchorConfig {
        stoplist: Vec::new(),
        weak_anchors: Vec::new(),
        generic_terms: Vec::new(),
        ascii_min: 4,
        cjk_min: 2,
    }
}

#[test]
fn anchors_manual_and_identifier_in_key_order() {
    let c = card(&["Redis Cluster"], "note", &["Use HTTP2 now"]);
    let anchors = derive_anchors(&c, &config());
    let got: Vec<(String, String, String, bool, bool)> = anchors
        .iter()
        .map(|a| (a.value.clone(), a.norm.clone(), a.kind.clone(), a.strong, a.manual))
        .collect();
    assert_eq!(
        got,
        vec![
            ("HTTP2".to_string(), "http2".to_string(), "identifier".to_string(), true, false),
            ("Redis Cluster".to_string(), "redis cluster".to_string(), "manual".to_string(), true, true),
        ]
    );
}

#[test]
fn anchors_stoplist_and_weak_terms() {
    let c = card(&["Redis Cluster", "Kafka"], "note", &[]);
    let mut cfg = config();
    cfg.stoplist.push("kafka".to_string());
    cfg.weak_anchors.push("Redis Cluster".to_string());
    let anchors = derive_anchors(&c, &cfg);
    assert_eq!(anchors.len(), 1);
    assert_eq!(anchors[0].norm, "redis cluster");
    assert!(!anchors[0].strong);
    assert_eq!(anchors[0].strength(), "weak");
}

fn obj(pairs: Vec<(&str, JsonValue)>) -> JsonValue {
    JsonValue::Object(pairs.into_iter().map(|(k, v)| (k.to_string(), v)).collect())
}

fn s(v: &str) -> JsonValue {
    JsonValue::Str(v.to_string())
}

fn redis_sections(card_scope: &str, strength: &str) -> (JsonValue, JsonValue, JsonValue) {
    let meta = obj(vec![
        ("compiler_version", JsonValue::Int(1)),
        ("normalization_version", JsonValue::Int(1)),
        ("states", JsonValue::Int(6)),
        ("edges", JsonValue::Int(5)),
        ("max_index", JsonValue::Int(5)),
    ]);
    let word = "redis";
    let mut goto = Vec::new();
    for (i, ch) in word.chars().enumerate() {
        goto.push(obj(vec![(&ch.to_string(), JsonValue::Int(i as i64 + 1))]));
    }
    goto.push(obj(vec![]));
    let mut out = Vec::new();
    for i in 0..6 {
        if i == 5 {
            out.push(JsonValue::Array(vec![s("redis")]));
        } else {
            out.push(JsonValue::Array(Vec::new()));
        }
    }
    let fail = (0..6).map(|_| JsonValue::Int(0)).collect();
    let machine = obj(vec![
        ("goto", JsonValue::Array(goto)),
        ("out", JsonValue::Array(out)),
        ("fail", JsonValue::Array(fail)),
    ]);
    let card_ref = obj(vec![
        ("id", JsonValue::Int(7)),
        ("strength", s(strength)),
        ("kind", s("manual")),
        ("manual", JsonValue::Bool(true)),
        ("scope", s(card_scope)),
    ]);
    let anchors = obj(vec![(
        "redis",
        obj(vec![("display", s("Redis")), ("cards", JsonValue::Array(vec![card_ref]))]),
    )]);
    (meta, machine, anchors)
}

#[test]
fn radar_decodes_and_finds_strong_hit() {
    let (meta, machine, anchors) = redis_sections("global", "strong");
    let (table, ac) = match radar_from_sections(&meta, &machine, &anchors) {
        Ok(v) => v,
        Err(e) => panic!("{:?}", e),
    };
    let hits = match radar_hits_from_runtime(&table, &ac, "We run Redis daily", "", None, None) {
        Ok(h) => h,
        Err(e) => panic!("{:?}", e),
    };
    assert_eq!(hits.len(), 1);
    assert_eq!(hits[0].anchor, "redis");
    assert_eq!(hits[0].entity, "Redis");
    assert_eq!(hits[0].id, 7);
    assert!(hits[0].strong);
    let none = radar_hits_from_runtime(&table, &ac, "credis is not a word match", "", None, None);
    assert!(matches!(none, Ok(ref h) if h.is_empty()));
}

#[test]
fn radar_weak_hit_needs_corroboration() {
    let (meta, machine, anchors) = redis_sections("project:shop", "weak");
    let (table, ac) = radar_from_sections(&meta, &machine, &anchors).unwrap_or_else(|e| panic!("{:?}", e));
    let hidden = radar_hits_from_runtime(&table, &ac, "Redis", "other", None, None);
    assert!(matches!(hidden, Ok(ref h) if h.is_empty()));
    let shown = radar_hits_from_runtime(&table, &ac, "Redis", "shop", None, None);
    assert!(matches!(shown, Ok(ref h) if h.len() == 1 && !h[0].strong));
}

#[test]
fn radar_candidate_limit_overflows() {
    let (meta, machine, anchors) = redis_sections("global", "strong");
    let (table, ac) = radar_from_sections(&meta, &machine, &anchors).unwrap_or_else(|e| panic!("{:?}", e));
    let r = radar_hits_from_runtime(&table, &ac, "Redis", "", Some(0), None);
    assert!(matches!(r, Err(Error::HookCandidateOverflow)));
}

#[test]
fn radar_rejects_bad_structure() {
    let (meta, _machine, anchors) = redis_sections("global", "strong");
    let bad_machine = obj(vec![("goto", JsonValue::Array(Vec::new()))]);
    match radar_from_sections(&meta, &bad_machine, &anchors) {
        Err(Error::CacheUnavailable(m)) => assert_eq!(m, "雷达自动机结构非法"),
        other => panic!("{:?}", other.is_ok()),
    }
    let bad_meta = obj(vec![("compiler_version", JsonValue::Int(2))]);
    match radar_from_sections(&bad_meta, &bad_machine, &anchors) {
        Err(Error::CacheUnavailable(m)) => assert_eq!(m, "雷达元数据字段非法"),
        other => panic!("{:?}", other.is_ok()),
    }
}

fn section(kind: u16, flags: u16, payload: &[u8]) -> Vec<u8> {
    let mut v = Vec::new();
    v.extend_from_slice(&kind.to_be_bytes());
    v.extend_from_slice(&flags.to_be_bytes());
    v.extend_from_slice(&(payload.len() as u32).to_be_bytes());
    v.extend_from_slice(&Sha256::digest(payload));
    v.extend_from_slice(payload);
    v
}

fn blob(sections: &[Vec<u8>]) -> Vec<u8> {
    let body: Vec<u8> = sections.concat();
    let mut b = b"MRDR".to_vec();
    b.extend_from_slice(&1u16.to_be_bytes());
    b.extend_from_slice(&(sections.len() as u16).to_be_bytes());
    b.extend_from_slice(&(body.len() as u32).to_be_bytes());
    b.extend_from_slice(&body);
    b
}

#[test]
fn radar_blob_sections_read_back() {
    let b = blob(&[section(1, 1, b"{}"), section(9, 0, b"x"), section(2, 1, b"[]"), section(3, 1, b"{\"a\":1}")]);
    match radar_sections(&b) {
        Ok(s) => {
            assert_eq!(s.meta, b"{}".to_vec());
            assert_eq!(s.machine, b"[]".to_vec());
            assert_eq!(s.anchors, b"{\"a\":1}".to_vec());
        },
        Err(e) => panic!("{:?}", e),
    }
}

fn blob_error(b: &[u8]) -> String {
    match radar_sections(b) {
        Err(Error::CacheUnavailable(m)) => m,
        _ => panic!("expected a cache error"),
    }
}

#[test]
fn radar_blob_errors() {
    assert_eq!(blob_error(b"MRDR"), "雷达缓存长度非法");
    let mut bad_magic = blob(&[section(1, 1, b"{}")]);
    bad_magic[0] = b'X';
    assert_eq!(blob_error(&bad_magic), "雷达缓存头非法或版本不兼容");
    let mut bad_sum = blob(&[section(1, 1, b"{}")]);
    let last = bad_sum.len() - 1;
    bad_sum[last] = b']';
    assert_eq!(blob_error(&bad_sum), "雷达区段校验失败");
    assert_eq!(blob_error(&blob(&[section(7, 1, b"")])), "存在未知必需雷达区段 7");
    assert_eq!(blob_error(&blob(&[section(1, 1, b"a"), section(1, 1, b"b")])), "雷达区段 1 重复");
    assert_eq!(blob_error(&blob(&[section(1, 1, b"a")])), "雷达缓存缺少必需区段");
}

#[test]
fn radar_source_watches_current_published_cards() {
    let mut a = card(&["Redis Cluster"], "note", &[]);
    a.id = 1;
    let mut b = card(&["Redis Cluster", "Kafka"], "note", &[]);
    b.id = 2;
    b.scope = "project".to_string();
    let mut low = card(&["Zookeeper"], "note", &[]);
    low.id = 3;
    low.trust = 1;
    let mut ext = card(&["Etcd"], "note", &[]);
    ext.id = 4;
    ext.source = "external:web".to_string();
    let mut old = card(&["Consul"], "note", &[]);
    old.id = 5;
    let mut newer = card(&["Nomad"], "note", &[]);
    newer.id = 6;
    newer.supersedes = vec![5];
    let mut expired = card(&["Vault"], "note", &[]);
    expired.id = 7;
    expired.valid_to = "2020-01-01".to_string();
    let table = radar_source(&[a, b, low, ext, old, newer, expired], &config(), "2025-06-01");
    let keys: Vec<&str> = table.iter().map(|(k, _)| k.as_str()).collect();
    assert_eq!(keys, vec!["kafka", "nomad", "redis cluster"]);
    let redis = &table[2].1;
    assert_eq!(redis.display, "Redis Cluster");
    let ids: Vec<i64> = redis.cards.iter().map(|c| c.id).collect();
    assert_eq!(ids, vec![1, 2]);
    assert_eq!(redis.cards[1].scope, "project");
}

fn json_value(v: serde_json::Value) -> JsonValue {
    match v {
        serde_json::Value::Null => JsonValue::Null,
        serde_json::Value::Bool(b) => JsonValue::Bool(b),
        serde_json::Value::Number(n) => match n.as_i64() {
            Some(i) => JsonValue::Int(i),
            None => JsonValue::Float { whole_above_max_id: false },
        },
        serde_json::Value::String(s) => JsonValue::Str(s),
        serde_json::Value::Array(items) => JsonValue::Array(items.into_iter().map(json_value).collect()),
        serde_json::Value::Object(map) => JsonValue::Object(map.into_iter().map(|(k, v)| (k, json_value(v))).collect()),
    }
}

fn json_of(bytes: &[u8]) -> JsonValue {
    json_value(serde_json::from_slice(bytes).expect("section is JSON"))
}

#[test]
fn built_radar_blob_decodes_to_its_anchor_table() {
    let mut a = card(&["Redis Cluster"], "note", &[]);
    a.id = 1;
    let mut b = card(&["Redis Cluster", "Kafka", "Redis"], "note", &[]);
    b.id = 2;
    let cards = [a, b];
    let blob = engramark::radar::compile::build_radar_blob(&cards, &config(), "2025-06-01").expect("small radar");
    let sections = radar_sections(&blob).unwrap_or_else(|e| panic!("{:?}", e));
    let meta = json_of(&sections.meta);
    let machine = json_of(&sections.machine);
    let anchors = json_of(&sections.anchors);
    let (table, ac) = radar_from_sections(&meta, &machine, &anchors).unwrap_or_else(|e| panic!("{:?}", e));
    let source = radar_source(&cards, &config(), "2025-06-01");
    assert_eq!(table.len(), source.len());
    for ((k1, b1), (k2, b2)) in table.iter().zip(source.iter()) {
        assert_eq!(k1, k2);
        assert_eq!(b1.display, b2.display);
        let ids1: Vec<i64> = b1.cards.iter().map(|c| c.id).collect();
        let ids2: Vec<i64> = b2.cards.iter().map(|c| c.id).collect();
        assert_eq!(ids1, ids2);
    }
    let mut found = ac.scan("we run redis cluster and kafka", None).unwrap_or_else(|e| panic!("{:?}", e));
    found.sort();
    assert_eq!(found, vec!["kafka".to_string(), "redis".to_string(), "redis cluster".to_string()]);
    let text = String::from_utf8(sections.meta.clone()).unwrap();
    assert!(text.starts_with("{\"compiler_version\":1,\"edges\":"), "{text}");
    let machine_text = String::from_utf8(sections.machine.clone()).unwrap();
    assert!(machine_text.starts_with("{\"fail\":[0,"), "{machine_text}");
}

#[test]
fn compiled_automaton_finds_overlapping_keys() {
    let keys = vec!["abc".to_string(), "bd".to_string(), "b".to_string(), "cab".to_string()];
    let ac = engramark::radar::aho::compile_automaton(&keys).expect("small automaton");
    let mut found = ac.scan("abd", None).unwrap_or_else(|e| panic!("{:?}", e));
    found.sort();
    assert_eq!(found, vec!["b".to_string(), "bd".to_string()]);
    let mut found = ac.scan("xcabcd", None).unwrap_or_else(|e| panic!("{:?}", e));
    found.sort();
    assert_eq!(found, vec!["abc".to_string(), "b".to_string(), "cab".to_string()]);
    assert!(ac.scan("zzz", None).unwrap_or_else(|e| panic!("{:?}", e)).is_empty());
}
