//! Hash encodings: the semantic card hash (`MEMSEM\0`) and the source set
//! hash (`MEMSET\0v2`), each a SHA-256 over fields that carry a number, a
//! type and a length.

use vstd::prelude::*;
use vstd::utf8::encode_utf8;

use sha2::Digest;
use sha2::Sha256;

use crate::chars::{from_chars, hex2, int_text, int_to_string, push_decimal, push_hex2, to_chars};
use crate::mem::entities::{entity_key_set, law_canonical_entities_keys, lemma_same_keys_same_places};
use crate::mem::{canonical_entities_of, lemma_canonical_unique, chars_lt, canonical_entities, canonical_entities_seq, seq_lt, sort_unique_ids, sorted_unique, views, Card, CardModel};
use crate::normalize::{normalize_seq, normalize_text};
use crate::{MEM_FORMAT_VERSION, SOURCE_COLLECTION_HASH_VERSION};

verus! {

broadcast use vstd::string::group_string_axioms;

/// The SHA-256 digest of `data`.
pub uninterp spec fn sha256_of(data: Seq<u8>) -> Seq<u8>;

/// `sha2::Sha256::digest` of `data`. Claimed of the result: it is the named
/// digest, 32 bytes long.
#[verifier::external_body]
fn sha256_digest(data: &[u8]) -> (r: Vec<u8>)
    ensures
        r@ == sha256_of(data@),
        r@.len() == 32,
{
    Sha256::digest(data).to_vec()
}

/// Lowercase hexadecimal text of bytes, two digits each.
pub open spec fn hex_seq(bytes: Seq<u8>) -> Seq<char>
    decreases bytes.len(),
{
    if bytes.len() == 0 {
        Seq::empty()
    } else {
        hex_seq(bytes.drop_last()) + hex2(bytes.last() as nat)
    }
}

/// Two hex digits per byte.
pub proof fn lemma_hex_len(bytes: Seq<u8>)
    ensures
        hex_seq(bytes).len() == 2 * bytes.len(),
    decreases bytes.len(),
{
    if bytes.len() > 0 {
        lemma_hex_len(bytes.drop_last());
    }
}

/// The lowercase hexadecimal text of a digest.
pub fn hex_digest(digest: &[u8]) -> (r: String)
    ensures
        r@ == hex_seq(digest@),
{
    let mut out: Vec<char> = Vec::new();
    let mut i: usize = 0;
    while i < digest.len()
        invariant
            i <= digest.len(),
            out@ == hex_seq(digest@.take(i as int)),
        decreases digest.len() - i,
    {
        push_hex2(&mut out, digest[i] as u32);
        assert(digest@.take(i + 1).drop_last() =~= digest@.take(i as int));
        i = i + 1;
    }
    assert(digest@.take(digest.len() as int) =~= digest@);
    crate::chars::from_chars(&out)
}

/// SHA-256 of `data` as lowercase hexadecimal text.
pub fn sha256_hex(data: &[u8]) -> (r: String)
    ensures
        r@ == hex_seq(sha256_of(data@)),
        r@.len() == 64,
{
    let digest = sha256_digest(data);
    proof {
        lemma_hex_len(digest@);
    }
    hex_digest(&digest)
}

/// SHA-256 of `data` as 32 raw bytes.
pub fn sha256_raw(data: &[u8]) -> (r: [u8; 32])
    ensures
        r@ == sha256_of(data@),
{
    let digest = sha256_digest(data);
    let mut out = [0u8; 32];
    let mut i: usize = 0;
    while i < 32
        invariant
            i <= 32,
            digest@.len() == 32,
            forall|k: int| 0 <= k < i ==> out@[k] == digest@[k],
        decreases 32 - i,
    {
        out[i] = digest[i];
        i = i + 1;
    }
    assert(out@ =~= digest@);
    out
}


/// Two big-endian bytes of `n`.
pub open spec fn be16(n: nat) -> Seq<u8> {
    seq![((n / 256) % 256) as u8, (n % 256) as u8]
}

/// Four big-endian bytes of `n`.
pub open spec fn be32(n: nat) -> Seq<u8> {
    seq![((n / 16777216) % 256) as u8, ((n / 65536) % 256) as u8, ((n / 256) % 256) as u8, (n % 256) as u8]
}

/// One field: number (2 bytes), type (1 byte), length (4 bytes, modulo
/// 2^32) and the data.
pub open spec fn field_enc(number: nat, kind: u8, data: Seq<u8>) -> Seq<u8> {
    be16(number) + seq![kind] + be32((data.len() % 4294967296) as nat) + data
}

/// A field holding the UTF-8 encoding of a text.
pub open spec fn text_field(number: nat, kind: u8, text: Seq<char>) -> Seq<u8> {
    field_enc(number, kind, encode_utf8(text))
}

/// Appends bytes.
fn extend_bytes(out: &mut Vec<u8>, data: &[u8])
    ensures
        final(out)@ == old(out)@ + data@,
{
    let mut i: usize = 0;
    while i < data.len()
        invariant
            i <= data.len(),
            out@ == old(out)@ + data@.take(i as int),
        decreases data.len() - i,
    {
        out.push(data[i]);
        assert(data@.take(i + 1) =~= data@.take(i as int).push(data@[i as int]));
        i = i + 1;
    }
    assert(data@.take(data.len() as int) =~= data@);
}

/// Appends one field.
pub fn field_bytes(out: &mut Vec<u8>, number: u16, kind: u8, data: &[u8])
    ensures
        final(out)@ == old(out)@ + field_enc(number as nat, kind, data@),
{
    let ghost start = out@;
    out.push((number / 256) as u8);
    out.push((number % 256) as u8);
    out.push(kind);
    let len64 = data.len() as u64;
    let len = (len64 % 4294967296) as u32;
    out.push(((len / 16777216) % 256) as u8);
    out.push(((len / 65536) % 256) as u8);
    out.push(((len / 256) % 256) as u8);
    out.push((len % 256) as u8);
    extend_bytes(out, data);
    assert(out@ =~= start + field_enc(number as nat, kind, data@));
}

/// Appends one field holding the UTF-8 encoding of `text`.
fn text_field_bytes(out: &mut Vec<u8>, number: u16, kind: u8, text: &str)
    ensures
        final(out)@ == old(out)@ + text_field(number as nat, kind, text@),
{
    field_bytes(out, number, kind, text.as_bytes());
}

/// Lines joined by line feeds.
pub open spec fn join_newline(lines: Seq<Seq<char>>) -> Seq<char>
    decreases lines.len(),
{
    if lines.len() == 0 {
        Seq::empty()
    } else if lines.len() == 1 {
        lines[0]
    } else {
        join_newline(lines.drop_last()) + seq!['\n'] + lines.last()
    }
}

/// Lines joined by line feeds.
pub(crate) fn joined_lines(lines: &Vec<String>) -> (r: String)
    ensures
        r@ == join_newline(views(lines@)),
{
    let ghost vs = views(lines@);
    let mut out: Vec<char> = Vec::new();
    let mut i: usize = 0;
    while i < lines.len()
        invariant
            i <= lines.len(),
            vs == views(lines@),
            out@ == join_newline(vs.take(i as int)),
        decreases lines.len() - i,
    {
        if i > 0 {
            out.push('\n');
        }
        crate::chars::extend_str(&mut out, lines[i].as_str());
        assert(vs.take(i + 1).drop_last() =~= vs.take(i as int));
        assert(vs.take(i + 1).last() == lines@[i as int]@);
        assert(out@ =~= join_newline(vs.take(i + 1)));
        i = i + 1;
    }
    assert(vs.take(lines.len() as int) =~= vs);
    crate::chars::from_chars(&out)
}

/// Entity fields: the normalization key of each entity.
pub open spec fn entity_fields(es: Seq<Seq<char>>) -> Seq<u8>
    decreases es.len(),
{
    if es.len() == 0 {
        Seq::empty()
    } else {
        entity_fields(es.drop_last()) + text_field(16, 2, normalize_seq(es.last()))
    }
}

/// Reference fields: the decimal text of each id.
pub open spec fn ref_fields(ids: Seq<i64>) -> Seq<u8>
    decreases ids.len(),
{
    if ids.len() == 0 {
        Seq::empty()
    } else {
        ref_fields(ids.drop_last()) + text_field(17, 1, int_text(ids.last() as int))
    }
}

/// The `MEMSEM\0` encoding of a card's meaning: every field but freshness,
/// the entities canonical and normalized, the references sorted and
/// distinct.
pub open spec fn semantic_payload(c: CardModel) -> Seq<u8> {
    encode_utf8("MEMSEM\0"@)
        + text_field(1, 1, int_text(MEM_FORMAT_VERSION as int))
        + text_field(2, 1, int_text(c.id))
        + text_field(3, 2, c.card_type)
        + text_field(4, 2, c.status)
        + text_field(5, 1, int_text(c.importance))
        + text_field(6, 1, int_text(c.trust))
        + text_field(7, 2, c.updated)
        + text_field(8, 2, c.source)
        + text_field(9, 1, if c.lock { "1"@ } else { "0"@ })
        + text_field(10, 2, c.scope)
        + text_field(11, 2, c.last_used)
        + text_field(12, 2, c.valid_from)
        + text_field(13, 2, c.valid_to)
        + text_field(14, 2, c.title)
        + text_field(15, 3, join_newline(c.body))
        + entity_fields(canonical_entities_seq(c.entities))
        + ref_fields(sorted_unique(c.supersedes))
}

proof fn lemma_entity_fields_by_keys(a: Seq<Seq<char>>, b: Seq<Seq<char>>)
    requires
        a.len() == b.len(),
        forall|i: int| 0 <= i < a.len() ==> normalize_seq(#[trigger] a[i]) == normalize_seq(b[i]),
    ensures
        entity_fields(a) == entity_fields(b),
    decreases a.len(),
{
    if a.len() > 0 {
        lemma_entity_fields_by_keys(a.drop_last(), b.drop_last());
        assert(normalize_seq(a.last()) == normalize_seq(b.last()));
    }
}

/// The semantic hash reads a card's meaning only: two cards that differ
/// only in the spelling of their entities (the canonical entities having
/// the same normalization keys in order), in the order and repetition of
/// their references, and in the write flags hash alike. No date of the
/// day enters the payload.
pub proof fn law_semantic_hash_meaning(c1: CardModel, c2: CardModel)
    requires
        c1.id == c2.id,
        c1.card_type == c2.card_type,
        c1.status == c2.status,
        c1.importance == c2.importance,
        c1.trust == c2.trust,
        c1.updated == c2.updated,
        c1.source == c2.source,
        c1.lock == c2.lock,
        c1.scope == c2.scope,
        c1.last_used == c2.last_used,
        c1.valid_from == c2.valid_from,
        c1.valid_to == c2.valid_to,
        c1.title == c2.title,
        c1.body == c2.body,
        canonical_entities_seq(c1.entities).len() == canonical_entities_seq(c2.entities).len(),
        forall|i: int|
            0 <= i < canonical_entities_seq(c1.entities).len() ==> normalize_seq(
                #[trigger] canonical_entities_seq(c1.entities)[i],
            ) == normalize_seq(canonical_entities_seq(c2.entities)[i]),
        c1.supersedes.to_set() == c2.supersedes.to_set(),
    ensures
        semantic_payload(c1) == semantic_payload(c2),
{
    lemma_entity_fields_by_keys(canonical_entities_seq(c1.entities), canonical_entities_seq(c2.entities));
    assert(sorted_unique(c1.supersedes) == sorted_unique(c2.supersedes));
}

/// The semantic hash reads a card's entities as a set of keys: two cards
/// that agree in every other field of meaning, whose stripped non-empty
/// entities have the same set of normalization keys and whose references
/// form the same set, have the same payload, however the entities are
/// spelled, ordered or repeated. `r1` and `r2` are the cards' canonical
/// entity lists, as `canonical_entities` returns them.
pub proof fn law_semantic_hash_entity_keys(c1: CardModel, c2: CardModel, r1: Seq<Seq<char>>, r2: Seq<Seq<char>>)
    requires
        c1.id == c2.id,
        c1.card_type == c2.card_type,
        c1.status == c2.status,
        c1.importance == c2.importance,
        c1.trust == c2.trust,
        c1.updated == c2.updated,
        c1.source == c2.source,
        c1.lock == c2.lock,
        c1.scope == c2.scope,
        c1.last_used == c2.last_used,
        c1.valid_from == c2.valid_from,
        c1.valid_to == c2.valid_to,
        c1.title == c2.title,
        c1.body == c2.body,
        canonical_entities_of(c1.entities, r1),
        canonical_entities_of(c2.entities, r2),
        entity_key_set(c1.entities) == entity_key_set(c2.entities),
        c1.supersedes.to_set() == c2.supersedes.to_set(),
    ensures
        semantic_payload(c1) == semantic_payload(c2),
{
    law_canonical_entities_keys(c1.entities, r1);
    law_canonical_entities_keys(c2.entities, r2);
    lemma_same_keys_same_places(r1, r2);
    let s1 = canonical_entities_seq(c1.entities);
    let s2 = canonical_entities_seq(c2.entities);
    assert(canonical_entities_of(c1.entities, s1));
    assert(canonical_entities_of(c2.entities, s2));
    lemma_canonical_unique(c1.entities, r1, s1);
    lemma_canonical_unique(c2.entities, r2, s2);
    law_semantic_hash_meaning(c1, c2);
}

/// The bytes hashed for a card's semantic hash.
pub fn semantic_payload_bytes(card: &Card) -> (r: Vec<u8>)
    ensures
        r@ == semantic_payload(card@),
{
    let mut out: Vec<u8> = Vec::new();
    extend_bytes(&mut out, "MEMSEM\0".as_bytes());
    let version = int_to_string(MEM_FORMAT_VERSION);
    text_field_bytes(&mut out, 1, 1, version.as_str());
    let id = int_to_string(card.id);
    text_field_bytes(&mut out, 2, 1, id.as_str());
    text_field_bytes(&mut out, 3, 2, card.card_type.as_str());
    text_field_bytes(&mut out, 4, 2, card.status.as_str());
    let importance = int_to_string(card.importance);
    text_field_bytes(&mut out, 5, 1, importance.as_str());
    let trust = int_to_string(card.trust);
    text_field_bytes(&mut out, 6, 1, trust.as_str());
    text_field_bytes(&mut out, 7, 2, card.updated.as_str());
    text_field_bytes(&mut out, 8, 2, card.source.as_str());
    text_field_bytes(&mut out, 9, 1, if card.lock { "1" } else { "0" });
    text_field_bytes(&mut out, 10, 2, card.scope.as_str());
    text_field_bytes(&mut out, 11, 2, card.last_used.as_str());
    text_field_bytes(&mut out, 12, 2, card.valid_from.as_str());
    text_field_bytes(&mut out, 13, 2, card.valid_to.as_str());
    text_field_bytes(&mut out, 14, 2, card.title.as_str());
    let body = joined_lines(&card.body);
    text_field_bytes(&mut out, 15, 3, body.as_str());
    let ghost head = out@;
    let entities = canonical_entities(&card.entities);
    let ghost es = views(entities@);
    let mut i: usize = 0;
    while i < entities.len()
        invariant
            i <= entities.len(),
            es == views(entities@),
            out@ == head + entity_fields(es.take(i as int)),
        decreases entities.len() - i,
    {
        let key = normalize_text(entities[i].as_str());
        text_field_bytes(&mut out, 16, 2, key.as_str());
        assert(es.take(i + 1).drop_last() =~= es.take(i as int));
        assert(es.take(i + 1).last() == entities@[i as int]@);
        assert(out@ =~= head + entity_fields(es.take(i + 1)));
        i = i + 1;
    }
    assert(es.take(entities.len() as int) =~= es);
    let ghost mid = out@;
    let refs = sort_unique_ids(card.supersedes.as_slice());
    let mut j: usize = 0;
    while j < refs.len()
        invariant
            j <= refs.len(),
            out@ == mid + ref_fields(refs@.take(j as int)),
        decreases refs.len() - j,
    {
        let text = int_to_string(refs[j]);
        text_field_bytes(&mut out, 17, 1, text.as_str());
        assert(refs@.take(j + 1).drop_last() =~= refs@.take(j as int));
        assert(out@ =~= mid + ref_fields(refs@.take(j + 1)));
        j = j + 1;
    }
    assert(refs@.take(refs.len() as int) =~= refs@);
    out
}

/// The semantic hash of a card: SHA-256 of its `MEMSEM\0` encoding, as
/// lowercase hexadecimal text.
pub fn semantic_hash(card: &Card) -> (r: String)
    ensures
        r@ == hex_seq(sha256_of(semantic_payload(card@))),
        r@.len() == 64,
{
    let payload = semantic_payload_bytes(card);
    sha256_hex(&payload)
}


/// A source item as plain values: relative path and content.
pub type SourceItem = (Seq<char>, Seq<u8>);

/// The views of source items.
pub open spec fn item_views(items: Seq<(String, Vec<u8>)>) -> Seq<SourceItem> {
    items.map_values(|it: (String, Vec<u8>)| (it.0@, it.1@))
}

/// `x` inserted into `sorted` after every item whose path is not greater.
pub open spec fn insert_by_path(sorted: Seq<SourceItem>, x: SourceItem) -> Seq<SourceItem>
    decreases sorted.len(),
{
    if sorted.len() == 0 {
        seq![x]
    } else if seq_lt(x.0, sorted.last().0) {
        insert_by_path(sorted.drop_last(), x).push(sorted.last())
    } else {
        sorted.push(x)
    }
}

/// The items in order of path, equal paths kept in their given order.
pub open spec fn sorted_by_path(items: Seq<SourceItem>) -> Seq<SourceItem>
    decreases items.len(),
{
    if items.len() == 0 {
        Seq::empty()
    } else {
        insert_by_path(sorted_by_path(items.drop_last()), items.last())
    }
}

/// Items ordered strictly by path.
pub open spec fn path_sorted(s: Seq<SourceItem>) -> bool {
    forall|i: int, j: int| 0 <= i < j < s.len() ==> seq_lt((#[trigger] s[i]).0, (#[trigger] s[j]).0)
}

/// No two items share a path.
pub open spec fn distinct_paths(s: Seq<SourceItem>) -> bool {
    forall|i: int, j: int| 0 <= i < j < s.len() ==> (#[trigger] s[i]).0 != (#[trigger] s[j]).0
}

proof fn lemma_insert_by_path(s: Seq<SourceItem>, x: SourceItem)
    requires
        path_sorted(s),
        forall|k: int| 0 <= k < s.len() ==> (#[trigger] s[k]).0 != x.0,
    ensures
        path_sorted(insert_by_path(s, x)),
        insert_by_path(s, x).to_set() == s.to_set().insert(x),
    decreases s.len(),
{
    if s.len() == 0 {
        assert(seq![x][0] == x);
        assert(seq![x].to_set() =~= Set::<SourceItem>::empty().insert(x));
        assert(s.to_set() =~= Set::<SourceItem>::empty());
    } else if seq_lt(x.0, s.last().0) {
        let p = s.drop_last();
        let l = s.last();
        lemma_insert_by_path(p, x);
        let r1 = insert_by_path(p, x);
        let r = r1.push(l);
        assert forall|k: int| 0 <= k < r1.len() implies seq_lt((#[trigger] r1[k]).0, l.0) by {
            assert(r1.to_set().contains(r1[k]));
            if r1[k] != x {
                assert(p.to_set().contains(r1[k]));
                let i = choose|i: int| 0 <= i < p.len() && p[i] == r1[k];
                assert(s[i] == p[i]);
                assert(seq_lt(s[i].0, s[s.len() - 1].0));
            }
        }
        assert(path_sorted(r)) by {
            assert forall|i: int, j: int| 0 <= i < j < r.len() implies seq_lt((#[trigger] r[i]).0, (#[trigger] r[j]).0) by {
                if j < r1.len() {
                    assert(r[i] == r1[i] && r[j] == r1[j]);
                } else {
                    assert(r[i] == r1[i]);
                }
            }
        }
        r1.lemma_push_to_set_commute(l);
        p.lemma_push_to_set_commute(l);
        assert(s =~= p.push(l));
        assert(s.to_set() =~= p.to_set().insert(l));
        assert(r.to_set() =~= s.to_set().insert(x));
    } else {
        let l = s.last();
        crate::mem::lemma_seq_lt_total(x.0, l.0);
        assert(seq_lt(l.0, x.0));
        let r = s.push(x);
        assert(path_sorted(r)) by {
            assert forall|i: int, j: int| 0 <= i < j < r.len() implies seq_lt((#[trigger] r[i]).0, (#[trigger] r[j]).0) by {
                if j < s.len() {
                    assert(r[i] == s[i] && r[j] == s[j]);
                } else if i < s.len() - 1 {
                    assert(r[i] == s[i]);
                    assert(seq_lt(s[i].0, s[s.len() - 1].0));
                    crate::mem::lemma_seq_lt_transitive(s[i].0, l.0, x.0);
                } else {
                    assert(r[i] == l);
                }
            }
        }
        s.lemma_push_to_set_commute(x);
    }
}

proof fn lemma_sorted_by_path(items: Seq<SourceItem>)
    requires
        distinct_paths(items),
    ensures
        path_sorted(sorted_by_path(items)),
        sorted_by_path(items).to_set() == items.to_set(),
    decreases items.len(),
{
    if items.len() == 0 {
        assert(items.to_set() =~= Set::<SourceItem>::empty());
        assert(sorted_by_path(items).to_set() =~= Set::<SourceItem>::empty());
    } else {
        let p = items.drop_last();
        let x = items.last();
        assert(distinct_paths(p)) by {
            assert forall|i: int, j: int| 0 <= i < j < p.len() implies (#[trigger] p[i]).0 != (#[trigger] p[j]).0 by {
                assert(p[i] == items[i] && p[j] == items[j]);
            }
        }
        lemma_sorted_by_path(p);
        let sp = sorted_by_path(p);
        assert forall|k: int| 0 <= k < sp.len() implies (#[trigger] sp[k]).0 != x.0 by {
            assert(sp.to_set().contains(sp[k]));
            let i = choose|i: int| 0 <= i < p.len() && p[i] == sp[k];
            assert(items[i] == p[i]);
            assert(items[i].0 != items[items.len() - 1].0);
        }
        lemma_insert_by_path(sp, x);
        assert(items =~= p.push(x));
        p.lemma_push_to_set_commute(x);
    }
}

proof fn lemma_path_sorted_unique(a: Seq<SourceItem>, b: Seq<SourceItem>)
    requires
        path_sorted(a),
        path_sorted(b),
        a.to_set() == b.to_set(),
    ensures
        a == b,
    decreases a.len(),
{
    if a.len() == 0 {
        if b.len() > 0 {
            assert(b.to_set().contains(b[0]));
        }
        assert(a =~= b);
    } else {
        assert(a.to_set().contains(a[0]));
        assert(b.len() > 0);
        assert(a.to_set().contains(b[0]));
        let ia = choose|i: int| 0 <= i < a.len() && a[i] == b[0];
        let ib = choose|i: int| 0 <= i < b.len() && b[i] == a[0];
        if ia > 0 && ib > 0 {
            assert(seq_lt(a[0].0, a[ia].0));
            assert(seq_lt(b[0].0, b[ib].0));
            crate::mem::lemma_seq_lt_transitive(a[0].0, b[0].0, a[0].0);
            crate::mem::lemma_seq_lt_irreflexive(a[0].0);
        }
        assert(a[0] == b[0]);
        let ta = a.drop_first();
        let tb = b.drop_first();
        assert forall|x: SourceItem| ta.to_set().contains(x) implies tb.to_set().contains(x) by {
            let i = choose|i: int| 0 <= i < ta.len() && ta[i] == x;
            assert(a[i + 1] == x);
            assert(b.to_set().contains(x));
            let j = choose|j: int| 0 <= j < b.len() && b[j] == x;
            assert(seq_lt(a[0].0, x.0));
            if j == 0 {
                crate::mem::lemma_seq_lt_irreflexive(a[0].0);
            }
            assert(tb[j - 1] == x);
        }
        assert forall|x: SourceItem| tb.to_set().contains(x) implies ta.to_set().contains(x) by {
            let i = choose|i: int| 0 <= i < tb.len() && tb[i] == x;
            assert(b[i + 1] == x);
            assert(a.to_set().contains(x));
            let j = choose|j: int| 0 <= j < a.len() && a[j] == x;
            assert(seq_lt(b[0].0, x.0));
            if j == 0 {
                crate::mem::lemma_seq_lt_irreflexive(b[0].0);
            }
            assert(ta[j - 1] == x);
        }
        assert(ta.to_set() =~= tb.to_set());
        assert(path_sorted(ta)) by {
            assert forall|i: int, j: int| 0 <= i < j < ta.len() implies seq_lt((#[trigger] ta[i]).0, (#[trigger] ta[j]).0) by {
                assert(ta[i] == a[i + 1] && ta[j] == a[j + 1]);
            }
        }
        assert(path_sorted(tb)) by {
            assert forall|i: int, j: int| 0 <= i < j < tb.len() implies seq_lt((#[trigger] tb[i]).0, (#[trigger] tb[j]).0) by {
                assert(tb[i] == b[i + 1] && tb[j] == b[j + 1]);
            }
        }
        lemma_path_sorted_unique(ta, tb);
        assert(a =~= seq![a[0]] + ta);
        assert(b =~= seq![b[0]] + tb);
    }
}

/// The source-set payload does not depend on the order of the items: two
/// lists that hold the same items, each path once, give the same payload
/// (and so the same hash).
pub proof fn law_source_set_order_free(items: Seq<SourceItem>, q: Seq<SourceItem>)
    requires
        distinct_paths(items),
        distinct_paths(q),
        q.to_set() == items.to_set(),
    ensures
        source_set_payload(q) == source_set_payload(items),
{
    lemma_sorted_by_path(items);
    lemma_sorted_by_path(q);
    lemma_path_sorted_unique(sorted_by_path(items), sorted_by_path(q));
}

/// The fields of the sorted source items: path, content length, content
/// SHA-256 in hexadecimal.
pub open spec fn item_fields(items: Seq<SourceItem>) -> Seq<u8>
    decreases items.len(),
{
    if items.len() == 0 {
        Seq::empty()
    } else {
        item_fields(items.drop_last()) + text_field(1, 2, items.last().0) + text_field(
            2,
            1,
            int_text(items.last().1.len() as int),
        ) + text_field(3, 2, hex_seq(sha256_of(items.last().1)))
    }
}

/// The `MEMSET\0v2` encoding of a source set.
pub open spec fn source_set_payload(items: Seq<SourceItem>) -> Seq<u8> {
    encode_utf8("MEMSET\0v"@) + encode_utf8(int_text(SOURCE_COLLECTION_HASH_VERSION as int)) + item_fields(
        sorted_by_path(items),
    )
}

/// Inserting at position `j` is inserting by path when `j` follows every
/// item not greater than `x` and precedes every greater one.
proof fn lemma_insert_at(sorted: Seq<SourceItem>, x: SourceItem, j: int)
    requires
        0 <= j <= sorted.len(),
        forall|k: int| j <= k < sorted.len() ==> seq_lt(x.0, #[trigger] sorted[k].0),
        j > 0 ==> !seq_lt(x.0, sorted[j - 1].0),
    ensures
        insert_by_path(sorted, x) == sorted.take(j).push(x) + sorted.skip(j),
    decreases sorted.len(),
{
    if sorted.len() == 0 {
        assert(sorted.take(j).push(x) + sorted.skip(j) =~= seq![x]);
    } else if j == sorted.len() {
        assert(sorted.take(j).push(x) + sorted.skip(j) =~= sorted.push(x));
    } else {
        lemma_insert_at(sorted.drop_last(), x, j);
        assert(sorted.drop_last().take(j) =~= sorted.take(j));
        assert((sorted.take(j).push(x) + sorted.drop_last().skip(j)).push(sorted.last()) =~= sorted.take(j).push(x)
            + sorted.skip(j));
    }
}

/// The positions of `items` in order of path (stable).
fn path_order(items: &[(String, Vec<u8>)], keys: &Vec<Vec<char>>) -> (order: Vec<usize>)
    requires
        keys@.len() == items@.len(),
        forall|k: int| 0 <= k < keys@.len() ==> #[trigger] keys@[k]@ == items@[k].0@,
    ensures
        order@.len() == items@.len(),
        forall|k: int| 0 <= k < order@.len() ==> order@[k] < items@.len(),
        order@.map_values(|p: usize| (items@[p as int].0@, items@[p as int].1@)) == sorted_by_path(
            item_views(items@),
        ),
{
    let ghost iv = item_views(items@);
    let mut order: Vec<usize> = Vec::new();
    let mut i: usize = 0;
    while i < items.len()
        invariant
            i <= items.len(),
            keys@.len() == items@.len(),
            forall|k: int| 0 <= k < keys@.len() ==> #[trigger] keys@[k]@ == items@[k].0@,
            iv == item_views(items@),
            order@.len() == i,
            forall|k: int| 0 <= k < order@.len() ==> order@[k] < items@.len(),
            order@.map_values(|p: usize| (items@[p as int].0@, items@[p as int].1@)) == sorted_by_path(
                iv.take(i as int),
            ),
        decreases items.len() - i,
    {
        let ghost before = order@.map_values(|p: usize| (items@[p as int].0@, items@[p as int].1@));
        let mut j = order.len();
        while j > 0 && chars_lt(&keys[i], &keys[order[j - 1]])
            invariant
                j <= order@.len(),
                i < items.len(),
                keys@.len() == items@.len(),
                forall|k: int| 0 <= k < keys@.len() ==> #[trigger] keys@[k]@ == items@[k].0@,
                forall|k: int| 0 <= k < order@.len() ==> order@[k] < items@.len(),
                before == order@.map_values(|p: usize| (items@[p as int].0@, items@[p as int].1@)),
                forall|k: int| j <= k < before.len() ==> seq_lt(items@[i as int].0@, #[trigger] before[k].0),
            decreases j,
        {
            j = j - 1;
        }
        proof {
            assert(iv[i as int] == (items@[i as int].0@, items@[i as int].1@));
            lemma_insert_at(before, iv[i as int], j as int);
            assert(iv.take(i + 1).drop_last() =~= iv.take(i as int));
        }
        order.insert(j, i);
        assert(order@.map_values(|p: usize| (items@[p as int].0@, items@[p as int].1@)) =~= before.take(j as int).push(
            iv[i as int],
        ) + before.skip(j as int));
        i = i + 1;
    }
    assert(iv.take(items.len() as int) =~= iv);
    order
}

/// Appends the fields of one source item.
fn push_item_fields(out: &mut Vec<u8>, path: &str, data: &Vec<u8>)
    ensures
        final(out)@ == old(out)@ + text_field(1, 2, path@) + text_field(2, 1, int_text(data@.len() as int))
            + text_field(3, 2, hex_seq(sha256_of(data@))),
{
    text_field_bytes(out, 1, 2, path);
    let mut digits: Vec<char> = Vec::new();
    push_decimal(&mut digits, data.len() as u64);
    let size = from_chars(&digits);
    assert(size@ =~= int_text(data@.len() as int));
    text_field_bytes(out, 2, 1, size.as_str());
    let digest = sha256_hex(data.as_slice());
    text_field_bytes(out, 3, 2, digest.as_str());
}

/// The hash of a source set of (relative path, content) items.
pub fn source_collection_hash_items(items: &[(String, Vec<u8>)]) -> (r: String)
    ensures
        r@ == hex_seq(sha256_of(source_set_payload(item_views(items@)))),
        r@.len() == 64,
{
    let mut keys: Vec<Vec<char>> = Vec::new();
    let mut i: usize = 0;
    while i < items.len()
        invariant
            i <= items.len(),
            keys@.len() == i,
            forall|k: int| 0 <= k < i ==> #[trigger] keys@[k]@ == items@[k].0@,
        decreases items.len() - i,
    {
        keys.push(to_chars(items[i].0.as_str()));
        i = i + 1;
    }
    let order = path_order(items, &keys);
    let ghost sorted = sorted_by_path(item_views(items@));
    let mut out: Vec<u8> = Vec::new();
    extend_bytes(&mut out, "MEMSET\0v".as_bytes());
    let version = int_to_string(SOURCE_COLLECTION_HASH_VERSION);
    extend_bytes(&mut out, version.as_str().as_bytes());
    let ghost head = out@;
    let mut k: usize = 0;
    while k < order.len()
        invariant
            k <= order.len(),
            forall|m: int| 0 <= m < order@.len() ==> order@[m] < items@.len(),
            order@.map_values(|p: usize| (items@[p as int].0@, items@[p as int].1@)) == sorted,
            out@ == head + item_fields(sorted.take(k as int)),
        decreases order.len() - k,
    {
        let item = &items[order[k]];
        assert(sorted[k as int] == (item.0@, item.1@));
        push_item_fields(&mut out, item.0.as_str(), &item.1);
        assert(sorted.take(k + 1).drop_last() =~= sorted.take(k as int));
        assert(out@ =~= head + item_fields(sorted.take(k + 1)));
        k = k + 1;
    }
    assert(sorted.take(order.len() as int) =~= sorted);
    sha256_hex(&out)
}

} // verus!
