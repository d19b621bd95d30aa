use engramark::config::{bounded_int, get, parse_rust_int, py_int, section, string_list};
use engramark::json::JsonValue;
use engramark::mcp::public_id;
use engramark::Error;

fn obj(pairs: Vec<(&str, JsonValue)>) -> JsonValue {
    JsonValue::Object(pairs.into_iter().map(|(k, v)| (k.to_string(), v)).collect())
}

fn chars(s: &str) -> Vec<char> {
    s.chars().collect()
}

#[test]
fn config_sections_and_values() {
    let cfg = obj(vec![
        ("radar", obj(vec![("budget", JsonValue::Int(4)), ("stoplist", JsonValue::Array(vec![
            JsonValue::Str("foo".into()),
            JsonValue::Int(3),
            JsonValue::Str("bar".into()),
        ]))])),
        ("search", JsonValue::Int(1)),
    ]);
    let radar = section(&cfg, "radar");
    assert!(radar.is_some());
    assert!(section(&cfg, "search").is_none());
    assert!(section(&cfg, "missing").is_none());
    assert!(matches!(get(radar, "budget"), Some(JsonValue::Int(4))));
    assert!(get(None, "budget").is_none());
    assert_eq!(string_list(get(radar, "stoplist")), vec!["foo".to_string(), "bar".to_string()]);
    assert!(string_list(get(radar, "budget")).is_empty());
}

#[test]
fn python_int_of_settings() {
    assert_eq!(py_int(&JsonValue::Bool(true)), Some(1));
    assert_eq!(py_int(&JsonValue::Int(-7)), Some(-7));
    assert_eq!(py_int(&JsonValue::Str("  +42 \n".into())), Some(42));
    assert_eq!(py_int(&JsonValue::Str("-9223372036854775808".into())), Some(i64::MIN));
    assert_eq!(py_int(&JsonValue::Str("9223372036854775808".into())), None);
    assert_eq!(py_int(&JsonValue::Str("4x".into())), None);
    assert_eq!(py_int(&JsonValue::Str("   ".into())), None);
    assert_eq!(py_int(&JsonValue::Null), None);
    assert_eq!(parse_rust_int(&chars("-")), None);
    assert_eq!(parse_rust_int(&chars("007")), Some(7));
}

#[test]
fn bounded_settings_clamp() {
    assert_eq!(bounded_int(None, 800, 1, 800), 800);
    assert_eq!(bounded_int(Some(0), 800, 1, 800), 1);
    assert_eq!(bounded_int(Some(5000), 800, 1, 800), 800);
    assert_eq!(bounded_int(Some(120), 800, 1, 800), 120);
}

#[test]
fn public_ids_bounded() {
    assert_eq!(public_id(1).unwrap(), 1);
    assert!(matches!(public_id(0), Err(Error::Core(m)) if m == "记忆编号必须大于等于 1"));
    assert!(matches!(public_id(9_007_199_254_740_992), Err(Error::Core(m)) if m == "记忆编号超过安全上限 9007199254740991"));
    assert_eq!(public_id(9_007_199_254_740_991).unwrap(), 9_007_199_254_740_991);
}
