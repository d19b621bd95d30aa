use engramark::hash::{field_bytes, semantic_hash, sha256_hex, sha256_raw, source_collection_hash_items};
use engramark::mem::parse_card;

#[test]
fn sha256_matches_known_digest() {
    assert_eq!(sha256_hex(b"abc"), "ba7816bf8f01cfea414140de5dae2223b00361a396177a9cb410ff61f20015ad");
    assert_eq!(sha256_raw(b"abc")[0], 0xba);
}

#[test]
fn field_layout() {
    let mut out = Vec::new();
    field_bytes(&mut out, 17, 1, b"12");
    assert_eq!(out, vec![0x00, 0x11, 0x01, 0x00, 0x00, 0x00, 0x02, b'1', b'2']);
}

#[test]
fn semantic_hash_of_sample() {
    let card = parse_card("@1 fact published I3 T3 2026-08-01\n= Alpha, beta\n~ user\n标题一\n正文。\n").expect("parse");
    assert_eq!(semantic_hash(&card), "a55f83da848d191c9931adf51d2439a313202a1fc00b4529bbde4f6608f191b8");
}

#[test]
fn source_set_hash_sorts_by_path() {
    let items = vec![
        ("cards/0002.mem".to_string(), b"x".to_vec()),
        ("cards/0001.mem".to_string(), b"hello".to_vec()),
    ];
    assert_eq!(
        source_collection_hash_items(&items),
        "4379bb11116ff78b451e19a0df08a5cbbf61a401dea1c0889eddc75977d6a230"
    );
}

#[test]
fn semantic_hash_reads_entity_keys_as_a_set() {
    let a = parse_card("@1 fact published I3 T3 2026-08-01\n= Alpha, beta\n~ user\n标题一\n正文。\n").expect("parse");
    let mut b = a.clone();
    b.entities = vec!["BETA".to_string(), " alpha ".to_string(), "Beta".to_string(), "  ".to_string()];
    assert_eq!(semantic_hash(&a), semantic_hash(&b));
    let mut c = a.clone();
    c.entities = vec!["Alpha".to_string(), "gamma".to_string()];
    assert_ne!(semantic_hash(&a), semantic_hash(&c));
}
