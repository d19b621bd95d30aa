use engramark::hooks::radar_block_size;
use engramark::radar::{scope_visible, AhoCorasick, RadarHit};
use engramark::Error;

fn machine() -> AhoCorasick {
    // words "ab" and "b"
    AhoCorasick {
        goto: vec![vec![('a', 1), ('b', 3)], vec![('b', 2)], vec![], vec![]],
        out: vec![vec![], vec![], vec!["ab".to_string(), "b".to_string()], vec!["b".to_string()]],
        fail: vec![0, 0, 3, 0],
    }
}

#[test]
fn scan_finds_each_word_once() {
    let mut found = match machine().scan("xabab", None) {
        Ok(found) => found,
        Err(e) => panic!("{}", e.message()),
    };
    found.sort();
    assert_eq!(found, vec!["ab".to_string(), "b".to_string()]);
    match machine().scan("xyz", None) {
        Ok(found) => assert!(found.is_empty()),
        Err(e) => panic!("{}", e.message()),
    }
}

#[test]
fn scan_stops_at_a_past_deadline() {
    let past = std::time::Instant::now();
    match machine().scan("ab", Some(past)) {
        Err(Error::HookDeadlineExceeded) => {}
        _ => panic!("expected a deadline error"),
    }
}

#[test]
fn scope_rules() {
    assert!(scope_visible("", "demo"));
    assert!(scope_visible("global", ""));
    assert!(!scope_visible("project:demo", ""));
    assert!(scope_visible("project:Demo", "demo"));
    assert!(!scope_visible("project:other", "demo"));
}

#[test]
fn block_size_counts_utf8() {
    let lines = vec!["甲".to_string(), "b".to_string()];
    assert_eq!(radar_block_size(&lines, "[", "]"), 1 + 3 + 1 + 1 + 1);
    let hit = RadarHit {
        anchor: "a".to_string(),
        entity: "A".to_string(),
        id: 1,
        strong: false,
        kind: "manual".to_string(),
        manual: true,
        scope: String::new(),
    };
    assert_eq!(hit.strength(), "weak");
}
