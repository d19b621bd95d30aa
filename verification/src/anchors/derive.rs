//! Anchor derivation: manual anchors from a card's entities and automatic
//! ones (URLs, domains, paths, code identifiers) from its text, trimmed,
//! normalized, filtered by length and stop words, ranked strong or weak,
//! one per normalization key, in key order.

use vstd::prelude::*;

use crate::anchors::Anchor;
use crate::chars::{contains_char, extend_str, from_chars, slice_chars, str_eq, to_chars, utf8_len};
use crate::normalize::{char_is_numeric, contains_cjk, is_upper, lemma_trim_end_at, lemma_trim_start_at, normalize_text, py_strip};
use crate::pyregex::{
    byte_boundary, char_index, find_code_tokens, find_domains, find_paths, find_urls, is_caps_acronym, is_caps_identifier,
    is_domain_full, is_path_full, is_url_full, lemma_boundary_scan_spans, lemma_utf8_prefix_increasing,
};
use crate::hash::{join_newline, joined_lines};
use crate::mem::{chars_lt, newline_prefixed, seq_lt, views, Card, CardModel};
use crate::normalize::{cjk, normalize_seq, numeric, py_strip_seq, trim_end_by, trim_start_by, uppercase};
use crate::pyregex::{
    boundary_scan, index_at_byte, regex_find_at, regex_find_iter, regex_is_match, Finder, CAPS_ACRONYM_PATTERN,
    CAPS_IDENTIFIER_PATTERN, URL_PATTERN,
};

verus! {

broadcast use vstd::string::group_string_axioms;

/// Punctuation trimmed from both ends of anchor values.
pub open spec fn trim_punct(c: char) -> bool {
    c == '.' || c == ',' || c == ';' || c == ':' || c == '!' || c == '?' || c == '，' || c == '。' || c == '；' || c
        == '：' || c == '！' || c == '？' || c == '(' || c == ')' || c == '[' || c == ']' || c == '{' || c == '}'
}

pub open spec fn trim_punct_pred() -> spec_fn(char) -> bool {
    |c: char| trim_punct(c)
}

/// Punctuation trimmed from the end of URLs.
pub open spec fn url_tail(c: char) -> bool {
    c == '.' || c == ',' || c == ';' || c == '，' || c == '。' || c == '；'
}

pub open spec fn url_tail_pred() -> spec_fn(char) -> bool {
    |c: char| url_tail(c)
}

/// `s` with leading and trailing `pred` characters removed.
pub open spec fn trim_both(s: Seq<char>, pred: spec_fn(char) -> bool) -> Seq<char> {
    trim_end_by(trim_start_by(s, pred), pred)
}

/// The settings that shape anchor derivation.
pub struct AnchorConfig {
    /// Values never used as anchors.
    pub stoplist: Vec<String>,
    /// Values that make only weak anchors.
    pub weak_anchors: Vec<String>,
    /// Generic terms that make only weak anchors.
    pub generic_terms: Vec<String>,
    /// Shortest ASCII anchor, in characters.
    pub ascii_min: usize,
    /// Shortest anchor holding CJK, in characters.
    pub cjk_min: usize,
}

/// Whether some value of `list` normalizes to `x`.
pub open spec fn listed_norm(list: Seq<Seq<char>>, x: Seq<char>) -> bool {
    exists|i: int| 0 <= i < list.len() && normalize_seq(#[trigger] list[i]) == x
}

/// An upper-case character after the first.
pub open spec fn upper_after_first(v: Seq<char>) -> bool {
    exists|i: int| 1 <= i < v.len() && uppercase(#[trigger] v[i])
}

/// A numeric character.
pub open spec fn any_numeric(v: Seq<char>) -> bool {
    exists|i: int| 0 <= i < v.len() && numeric(#[trigger] v[i])
}

/// The whole value is one URL match.
pub open spec fn url_full(v: Seq<char>) -> bool {
    regex_find_at(URL_PATTERN@, v, 0) == Some((0usize, utf8_len(v) as usize))
}

/// The whole value is one domain.
pub open spec fn domain_full(v: Seq<char>) -> bool {
    boundary_scan(Finder::Domain, v, 0) == seq![(0usize, utf8_len(v) as usize)]
}

/// The whole value is one path.
pub open spec fn path_full(v: Seq<char>) -> bool {
    boundary_scan(Finder::Path, v, 0) == seq![(0usize, utf8_len(v) as usize)]
}

/// Whether an anchor is strong: never when its key is a weak or generic
/// term; otherwise for whole URLs, domains and paths, manual anchors,
/// upper-case identifiers, and values with a later upper-case or any
/// numeric character.
pub open spec fn strength_of(value: Seq<char>, manual: bool, weak: Seq<Seq<char>>, generic: Seq<Seq<char>>) -> bool {
    let key = trim_both(normalize_seq(value), trim_punct_pred());
    if listed_norm(weak, key) || listed_norm(generic, key) {
        false
    } else if url_full(value) || domain_full(value) || path_full(value) {
        true
    } else if manual {
        true
    } else if regex_is_match(CAPS_IDENTIFIER_PATTERN@, value) {
        true
    } else {
        upper_after_first(value) || any_numeric(value)
    }
}

/// An anchor as plain values: value, key, kind, strong, manual.
pub type AnchorModel = (Seq<char>, Seq<char>, Seq<char>, bool, bool);

/// The plain values of an anchor.
pub open spec fn anchor_view(a: Anchor) -> AnchorModel {
    (a.value@, a.norm@, a.kind@, a.strong, a.manual)
}

/// The plain values of a list of anchors.
pub open spec fn anchor_views(v: Seq<Anchor>) -> Seq<AnchorModel> {
    v.map_values(|a: Anchor| anchor_view(a))
}

/// The anchor a candidate value makes, if it is long enough and not a
/// stop word.
pub open spec fn anchor_of(value: Seq<char>, kind: Seq<char>, manual: bool, cfg: AnchorConfig) -> Option<AnchorModel> {
    let trimmed = trim_both(py_strip_seq(value), trim_punct_pred());
    let key = normalize_seq(trimmed);
    if key.len() == 0 || listed_norm(views(cfg.stoplist@), key) {
        None
    } else if exists|i: int| 0 <= i < trimmed.len() && cjk(#[trigger] trimmed[i]) {
        if trimmed.len() < cfg.cjk_min {
            None
        } else {
            Some((trimmed, key, kind, strength_of(trimmed, manual, views(cfg.weak_anchors@), views(cfg.generic_terms@)), manual))
        }
    } else if trimmed.len() < cfg.ascii_min && !regex_is_match(CAPS_ACRONYM_PATTERN@, trimmed) {
        None
    } else {
        Some((trimmed, key, kind, strength_of(trimmed, manual, views(cfg.weak_anchors@), views(cfg.generic_terms@)), manual))
    }
}

/// Strong before weak, then manual before automatic.
pub open spec fn outranks(a: AnchorModel, b: AnchorModel) -> bool {
    (a.3 && !b.3) || (a.3 == b.3 && a.4 && !b.4)
}

/// Whether some anchor of `found` has key `key`.
pub open spec fn has_key(found: Seq<AnchorModel>, key: Seq<char>) -> bool {
    exists|k: int| 0 <= k < found.len() && (#[trigger] found[k]).1 == key
}

/// The position of the anchor with key `key`.
pub open spec fn key_index(found: Seq<AnchorModel>, key: Seq<char>) -> int {
    choose|k: int| 0 <= k < found.len() && (#[trigger] found[k]).1 == key
}

/// Adds an anchor: a new key is appended; an existing key keeps the better
/// ranked anchor (the earlier one on a tie).
pub open spec fn add_anchor(found: Seq<AnchorModel>, a: Option<AnchorModel>) -> Seq<AnchorModel> {
    match a {
        None => found,
        Some(item) => if has_key(found, item.1) {
            let k = key_index(found, item.1);
            if outranks(item, found[k]) {
                found.update(k, item)
            } else {
                found
            }
        } else {
            found.push(item)
        },
    }
}

/// A candidate: value, kind, manual.
pub type AnchorSource = (Seq<char>, Seq<char>, bool);

/// The anchors found from candidates in order.
pub open spec fn found_from(sources: Seq<AnchorSource>, cfg: AnchorConfig) -> Seq<AnchorModel>
    decreases sources.len(),
{
    if sources.len() == 0 {
        Seq::empty()
    } else {
        add_anchor(
            found_from(sources.drop_last(), cfg),
            anchor_of(sources.last().0, sources.last().1, sources.last().2, cfg),
        )
    }
}

/// The text scanned for automatic anchors: the entities, the title and the
/// body lines, one per line.
pub open spec fn anchor_text(m: CardModel) -> Seq<char> {
    join_newline(m.entities) + seq!['\n'] + m.title + newline_prefixed(m.body)
}

/// The text of a byte span.
pub open spec fn span_text(t: Seq<char>, span: (usize, usize)) -> Seq<char> {
    t.subrange(index_at_byte(t, span.0 as int), index_at_byte(t, span.1 as int))
}

/// Manual candidates from entities.
pub open spec fn entity_sources(es: Seq<Seq<char>>) -> Seq<AnchorSource> {
    es.map_values(|e: Seq<char>| (e, "manual"@, true))
}

/// URL candidates, their trailing punctuation removed.
pub open spec fn url_sources(t: Seq<char>, spans: Seq<(usize, usize)>) -> Seq<AnchorSource> {
    spans.map_values(|sp: (usize, usize)| (trim_end_by(span_text(t, sp), url_tail_pred()), "url"@, false))
}

/// Domain candidates.
pub open spec fn domain_sources(t: Seq<char>, spans: Seq<(usize, usize)>) -> Seq<AnchorSource> {
    spans.map_values(|sp: (usize, usize)| (span_text(t, sp), "domain"@, false))
}

/// Path candidates of at least four characters.
pub open spec fn path_sources(t: Seq<char>, spans: Seq<(usize, usize)>) -> Seq<AnchorSource>
    decreases spans.len(),
{
    if spans.len() == 0 {
        Seq::empty()
    } else {
        let prev = path_sources(t, spans.drop_last());
        let v = span_text(t, spans.last());
        if v.len() >= 4 {
            prev.push((v, "path"@, false))
        } else {
            prev
        }
    }
}

/// A code token worth an anchor: an upper-case identifier, or one with a
/// later upper-case or numeric character, a dot, underscore or hyphen.
pub open spec fn identifier_eligible(v: Seq<char>) -> bool {
    regex_is_match(CAPS_IDENTIFIER_PATTERN@, v) || upper_after_first(v) || any_numeric(v) || v.contains('.')
        || v.contains('_') || v.contains('-')
}

/// Identifier candidates.
pub open spec fn identifier_sources(t: Seq<char>, spans: Seq<(usize, usize)>) -> Seq<AnchorSource>
    decreases spans.len(),
{
    if spans.len() == 0 {
        Seq::empty()
    } else {
        let prev = identifier_sources(t, spans.drop_last());
        let v = span_text(t, spans.last());
        if identifier_eligible(v) {
            prev.push((v, "identifier"@, false))
        } else {
            prev
        }
    }
}

/// All candidates of a card, in the order they are considered.
pub open spec fn anchor_sources(m: CardModel) -> Seq<AnchorSource> {
    let t = anchor_text(m);
    entity_sources(m.entities) + url_sources(t, regex_find_iter(URL_PATTERN@, t)) + domain_sources(
        t,
        boundary_scan(Finder::Domain, t, 0),
    ) + path_sources(t, boundary_scan(Finder::Path, t, 0)) + identifier_sources(
        t,
        boundary_scan(Finder::CodeToken, t, 0),
    )
}

/// `x` inserted after every anchor whose key is not greater.
pub open spec fn insert_by_key(sorted: Seq<AnchorModel>, x: AnchorModel) -> Seq<AnchorModel>
    decreases sorted.len(),
{
    if sorted.len() == 0 {
        seq![x]
    } else if seq_lt(x.1, sorted.last().1) {
        insert_by_key(sorted.drop_last(), x).push(sorted.last())
    } else {
        sorted.push(x)
    }
}

/// Anchors in order of key.
pub open spec fn sorted_by_key(items: Seq<AnchorModel>) -> Seq<AnchorModel>
    decreases items.len(),
{
    if items.len() == 0 {
        Seq::empty()
    } else {
        insert_by_key(sorted_by_key(items.drop_last()), items.last())
    }
}

/// The anchors of a card.
pub open spec fn derived_anchors(m: CardModel, cfg: AnchorConfig) -> Seq<AnchorModel> {
    sorted_by_key(found_from(anchor_sources(m), cfg))
}


fn is_trim_punct(c: char) -> (r: bool)
    ensures
        r == trim_punct(c),
{
    c == '.' || c == ',' || c == ';' || c == ':' || c == '!' || c == '?' || c == '，' || c == '。' || c == '；' || c
        == '：' || c == '！' || c == '？' || c == '(' || c == ')' || c == '[' || c == ']' || c == '{' || c == '}'
}

fn is_url_tail(c: char) -> (r: bool)
    ensures
        r == url_tail(c),
{
    c == '.' || c == ',' || c == ';' || c == '，' || c == '。' || c == '；'
}

/// `v` without leading and trailing punctuation.
fn trim_punct_chars(v: &[char]) -> (r: Vec<char>)
    ensures
        r@ == trim_both(v@, trim_punct_pred()),
{
    let mut a: usize = 0;
    while a < v.len() && is_trim_punct(v[a])
        invariant
            a <= v.len(),
            forall|i: int| 0 <= i < a ==> (trim_punct_pred())(#[trigger] v@[i]),
        decreases v.len() - a,
    {
        a = a + 1;
    }
    proof {
        lemma_trim_start_at(v@, trim_punct_pred(), a as int);
    }
    let mut b: usize = v.len();
    while b > a && is_trim_punct(v[b - 1])
        invariant
            a <= b <= v.len(),
            forall|i: int| b <= i < v.len() ==> (trim_punct_pred())(#[trigger] v@[i]),
        decreases b,
    {
        b = b - 1;
    }
    proof {
        let t = v@.skip(a as int);
        assert forall|i: int| (b - a) <= i < t.len() implies (trim_punct_pred())(#[trigger] t[i]) by {
            assert(t[i] == v@[i + a]);
        }
        if b > a {
            assert(t[b - a - 1] == v@[b - 1]);
        }
        lemma_trim_end_at(t, trim_punct_pred(), b - a);
        assert(t.take(b - a) =~= v@.subrange(a as int, b as int));
    }
    slice_chars(v, a, b)
}

/// `v` without trailing URL punctuation.
fn trim_url_tail(v: &[char]) -> (r: Vec<char>)
    ensures
        r@ == trim_end_by(v@, url_tail_pred()),
{
    let mut b: usize = v.len();
    while b > 0 && is_url_tail(v[b - 1])
        invariant
            b <= v.len(),
            forall|i: int| b <= i < v.len() ==> (url_tail_pred())(#[trigger] v@[i]),
        decreases b,
    {
        b = b - 1;
    }
    proof {
        lemma_trim_end_at(v@, url_tail_pred(), b as int);
        assert(v@.take(b as int) =~= v@.subrange(0, b as int));
    }
    slice_chars(v, 0, b)
}

/// The normalization keys of a list of values.
fn normalize_all(list: &Vec<String>) -> (r: Vec<String>)
    ensures
        r@.len() == list@.len(),
        forall|i: int| 0 <= i < r@.len() ==> #[trigger] r@[i]@ == normalize_seq(list@[i]@),
{
    let mut out: Vec<String> = Vec::new();
    let mut i: usize = 0;
    while i < list.len()
        invariant
            i <= list.len(),
            out@.len() == i,
            forall|k: int| 0 <= k < i ==> #[trigger] out@[k]@ == normalize_seq(list@[k]@),
        decreases list.len() - i,
    {
        out.push(normalize_text(list[i].as_str()));
        i = i + 1;
    }
    out
}

/// Whether `x` is one of the keys.
fn key_listed(keys: &Vec<String>, list: &Vec<String>, x: &str) -> (r: bool)
    requires
        keys@.len() == list@.len(),
        forall|i: int| 0 <= i < keys@.len() ==> #[trigger] keys@[i]@ == normalize_seq(list@[i]@),
    ensures
        r == listed_norm(views(list@), x@),
{
    let mut i: usize = 0;
    while i < keys.len()
        invariant
            i <= keys.len(),
            keys@.len() == list@.len(),
            forall|k: int| 0 <= k < keys@.len() ==> #[trigger] keys@[k]@ == normalize_seq(list@[k]@),
            forall|k: int| 0 <= k < i ==> normalize_seq(#[trigger] views(list@)[k]) != x@,
        decreases keys.len() - i,
    {
        if str_eq(keys[i].as_str(), x) {
            assert(normalize_seq(views(list@)[i as int]) == x@);
            return true;
        }
        assert(views(list@)[i as int] == list@[i as int]@);
        i = i + 1;
    }
    false
}

/// An upper-case character after the first.
fn has_upper_after_first(v: &[char]) -> (r: bool)
    ensures
        r == upper_after_first(v@),
{
    let mut i: usize = 1;
    while i < v.len()
        invariant
            1 <= i,
            forall|k: int| 1 <= k < i && k < v.len() ==> !uppercase(#[trigger] v@[k]),
        decreases v.len() - i,
    {
        if is_upper(v[i]) {
            return true;
        }
        i = i + 1;
    }
    false
}

/// A numeric character.
fn has_numeric(v: &[char]) -> (r: bool)
    ensures
        r == any_numeric(v@),
{
    let mut i: usize = 0;
    while i < v.len()
        invariant
            i <= v.len(),
            forall|k: int| 0 <= k < i ==> !numeric(#[trigger] v@[k]),
        decreases v.len() - i,
    {
        if char_is_numeric(v[i]) {
            return true;
        }
        i = i + 1;
    }
    false
}

/// The normalized stop, weak and generic lists of the settings.
pub open spec fn keys_of(keys: Seq<String>, list: Seq<String>) -> bool {
    &&& keys.len() == list.len()
    &&& forall|i: int| 0 <= i < keys.len() ==> #[trigger] keys[i]@ == normalize_seq(list[i]@)
}

/// Whether an anchor value is strong.
fn anchor_strength(value: &str, manual: bool, cfg: &AnchorConfig, weak: &Vec<String>, generic: &Vec<String>) -> (r: bool)
    requires
        keys_of(weak@, cfg.weak_anchors@),
        keys_of(generic@, cfg.generic_terms@),
    ensures
        r == strength_of(value@, manual, views(cfg.weak_anchors@), views(cfg.generic_terms@)),
{
    let key_text = normalize_text(value);
    let key_chars = trim_punct_chars(&to_chars(key_text.as_str()));
    let key = from_chars(&key_chars);
    if key_listed(weak, &cfg.weak_anchors, key.as_str()) || key_listed(generic, &cfg.generic_terms, key.as_str()) {
        return false;
    }
    if is_url_full(value) || is_domain_full(value) || is_path_full(value) {
        return true;
    }
    if manual {
        return true;
    }
    if is_caps_identifier(value) {
        return true;
    }
    let v = to_chars(value);
    has_upper_after_first(&v) || has_numeric(&v)
}

/// The anchor a candidate value makes, if any.
fn anchor_candidate(
    value: &str,
    kind: &str,
    manual: bool,
    cfg: &AnchorConfig,
    stop: &Vec<String>,
    weak: &Vec<String>,
    generic: &Vec<String>,
) -> (r: Option<Anchor>)
    requires
        keys_of(stop@, cfg.stoplist@),
        keys_of(weak@, cfg.weak_anchors@),
        keys_of(generic@, cfg.generic_terms@),
    ensures
        match anchor_of(value@, kind@, manual, *cfg) {
            None => r is None,
            Some(a) => r matches Some(x) && anchor_view(x) == a,
        },
{
    let stripped = py_strip(value);
    let trimmed_chars = trim_punct_chars(&to_chars(stripped));
    let trimmed = from_chars(&trimmed_chars);
    let key = normalize_text(trimmed.as_str());
    if key.as_str().unicode_len() == 0 || key_listed(stop, &cfg.stoplist, key.as_str()) {
        return None;
    }
    if contains_cjk(trimmed.as_str()) {
        if trimmed_chars.len() < cfg.cjk_min {
            return None;
        }
    } else if trimmed_chars.len() < cfg.ascii_min && !is_caps_acronym(trimmed.as_str()) {
        return None;
    }
    let strong = anchor_strength(trimmed.as_str(), manual, cfg, weak, generic);
    Some(Anchor { value: trimmed, norm: key, kind: String::from_str(kind), strong, manual })
}


/// No two anchors share a key.
pub open spec fn keys_distinct(f: Seq<AnchorModel>) -> bool {
    forall|a: int, b: int| 0 <= a < b < f.len() ==> (#[trigger] f[a]).1 != (#[trigger] f[b]).1
}

/// The plain values of an optional anchor.
pub open spec fn opt_view(a: Option<Anchor>) -> Option<AnchorModel> {
    match a {
        Some(x) => Some(anchor_view(x)),
        None => None,
    }
}

/// Adding an anchor keeps the keys distinct.
proof fn lemma_add_distinct(found: Seq<AnchorModel>, a: Option<AnchorModel>)
    requires
        keys_distinct(found),
    ensures
        keys_distinct(add_anchor(found, a)),
{
    match a {
        None => {},
        Some(item) => {
            if has_key(found, item.1) {
                let k = key_index(found, item.1);
                let r = add_anchor(found, a);
                assert forall|x: int, y: int| 0 <= x < y < r.len() implies (#[trigger] r[x]).1 != (#[trigger] r[y]).1 by {
                    if x != k && y != k {
                        assert(r[x] == found[x] && r[y] == found[y]);
                    } else if x == k {
                        assert(r[y] == found[y]);
                    } else {
                        assert(r[x] == found[x]);
                    }
                }
            } else {
                let r = add_anchor(found, a);
                assert forall|x: int, y: int| 0 <= x < y < r.len() implies (#[trigger] r[x]).1 != (#[trigger] r[y]).1 by {
                    if y == found.len() {
                        assert(r[x] == found[x]);
                    } else {
                        assert(r[x] == found[x] && r[y] == found[y]);
                    }
                }
            }
        },
    }
}

/// Adds an anchor to the found list.
fn add_found(found: &mut Vec<Anchor>, a: Option<Anchor>)
    requires
        keys_distinct(anchor_views(old(found)@)),
    ensures
        anchor_views(final(found)@) == add_anchor(anchor_views(old(found)@), opt_view(a)),
        keys_distinct(anchor_views(final(found)@)),
{
    let ghost before = anchor_views(found@);
    proof {
        lemma_add_distinct(before, opt_view(a));
    }
    match a {
        None => {},
        Some(item) => {
            let mut k: usize = 0;
            while k < found.len()
                invariant
                    k <= found.len(),
                    before == anchor_views(found@),
                    forall|j: int| 0 <= j < k ==> found@[j].norm@ != item.norm@,
                ensures
                    k <= found.len(),
                    before == anchor_views(found@),
                    forall|j: int| 0 <= j < k ==> found@[j].norm@ != item.norm@,
                    k < found.len() ==> found@[k as int].norm@ == item.norm@,
                decreases found.len() - k,
            {
                if str_eq(found[k].norm.as_str(), item.norm.as_str()) {
                    break;
                }
                k = k + 1;
            }
            if k < found.len() && str_eq(found[k].norm.as_str(), item.norm.as_str()) {
                proof {
                    assert(before[k as int].1 == item.norm@);
                    assert(has_key(before, item.norm@));
                    let c = key_index(before, item.norm@);
                    if c != k {
                        if c < k {
                            assert(found@[c].norm@ != item.norm@);
                        } else {
                            assert(before[k as int].1 != before[c].1);
                        }
                    }
                }
                let better = (item.strong && !found[k].strong) || (item.strong == found[k].strong && item.manual
                    && !found[k].manual);
                if better {
                    found.set(k, item);
                    assert(anchor_views(found@) =~= before.update(k as int, anchor_view(item)));
                }
            } else {
                proof {
                    assert(!has_key(before, item.norm@)) by {
                        if has_key(before, item.norm@) {
                            let c = choose|c: int| 0 <= c < before.len() && (#[trigger] before[c]).1 == item.norm@;
                            assert(found@[c].norm@ != item.norm@);
                        }
                    }
                }
                found.push(item);
                assert(anchor_views(found@) =~= before.push(anchor_view(item)));
            }
        },
    }
}


/// The plain values of candidates.
pub open spec fn source_views(v: Seq<(String, &'static str, bool)>) -> Seq<AnchorSource> {
    v.map_values(|x: (String, &'static str, bool)| (x.0@, x.1@, x.2))
}

proof fn lemma_source_views_push(v: Seq<(String, &'static str, bool)>, x: (String, &'static str, bool))
    ensures
        source_views(v.push(x)) == source_views(v).push((x.0@, x.1@, x.2)),
{
    assert(source_views(v.push(x)) =~= source_views(v).push((x.0@, x.1@, x.2)));
}

/// The text scanned for automatic anchors.
fn anchor_text_chars(card: &Card) -> (r: Vec<char>)
    ensures
        r@ == anchor_text(card@),
{
    let joined = joined_lines(&card.entities);
    let mut out = to_chars(joined.as_str());
    out.push('\n');
    extend_str(&mut out, card.title.as_str());
    let ghost head = out@;
    let ghost body = views(card.body@);
    let mut i: usize = 0;
    while i < card.body.len()
        invariant
            i <= card.body.len(),
            body == views(card.body@),
            out@ == head + newline_prefixed(body.take(i as int)),
        decreases card.body.len() - i,
    {
        out.push('\n');
        extend_str(&mut out, card.body[i].as_str());
        assert(body.take(i + 1).drop_last() =~= body.take(i as int));
        assert(body.take(i + 1).last() == card.body@[i as int]@);
        assert(out@ =~= head + newline_prefixed(body.take(i + 1)));
        i = i + 1;
    }
    assert(body.take(card.body.len() as int) =~= body);
    out
}

/// The text of a byte span between scalar boundaries.
fn span_chars(t: &Vec<char>, span: (usize, usize)) -> (r: Vec<char>)
    requires
        span.0 <= span.1,
        byte_boundary(t@, span.0 as int),
        byte_boundary(t@, span.1 as int),
    ensures
        r@ == span_text(t@, span),
{
    let ks = char_index(t.as_slice(), span.0);
    let ke = char_index(t.as_slice(), span.1);
    proof {
        if ks > ke {
            lemma_utf8_prefix_increasing(t@, ke as int, ks as int);
        }
    }
    slice_chars(t.as_slice(), ks, ke)
}

/// Whether a code token is worth an anchor.
fn eligible_identifier(v: &Vec<char>) -> (r: bool)
    ensures
        r == identifier_eligible(v@),
{
    let text = from_chars(v.as_slice());
    is_caps_identifier(text.as_str()) || has_upper_after_first(v.as_slice()) || has_numeric(v.as_slice())
        || contains_char(v.as_slice(), '.') || contains_char(v.as_slice(), '_') || contains_char(v.as_slice(), '-')
}

/// The candidates of a card, in order.
#[verifier::rlimit(40)]
fn collect_sources(card: &Card) -> (r: Vec<(String, &'static str, bool)>)
    ensures
        source_views(r@) == anchor_sources(card@),
{
    let m = card;
    let ghost es = views(card.entities@);
    let mut out: Vec<(String, &'static str, bool)> = Vec::new();
    let mut i: usize = 0;
    while i < card.entities.len()
        invariant
            i <= card.entities.len(),
            es == views(card.entities@),
            source_views(out@) == entity_sources(es.take(i as int)),
        decreases card.entities.len() - i,
    {
        let ghost prev = out@;
        let item = (String::from_str(card.entities[i].as_str()), "manual", true);
        out.push(item);
        proof {
            lemma_source_views_push(prev, item);
        }
        assert(source_views(out@) =~= entity_sources(es.take(i + 1)));
        i = i + 1;
    }
    assert(es.take(card.entities.len() as int) =~= es);
    let t = anchor_text_chars(card);
    let text = from_chars(t.as_slice());
    let ghost tv = t@;
    let urls = find_urls(text.as_str());
    let ghost a1 = source_views(out@);
    let mut k: usize = 0;
    while k < urls.len()
        invariant
            k <= urls.len(),
            tv == t@,
            text@ == t@,
            forall|j: int| 0 <= j < urls@.len() ==> (#[trigger] urls@[j]).0 <= urls@[j].1 <= utf8_len(text@)
                && byte_boundary(text@, urls@[j].0 as int) && byte_boundary(text@, urls@[j].1 as int),
            source_views(out@) == a1 + url_sources(tv, urls@.take(k as int)),
        decreases urls.len() - k,
    {
        let piece = span_chars(&t, urls[k]);
        let trimmed = trim_url_tail(piece.as_slice());
        let ghost prev = out@;
        let item = (from_chars(trimmed.as_slice()), "url", false);
        out.push(item);
        proof {
            lemma_source_views_push(prev, item);
        }
        assert(url_sources(tv, urls@.take(k + 1)) =~= url_sources(tv, urls@.take(k as int)).push(
            (trim_end_by(span_text(tv, urls@[k as int]), url_tail_pred()), "url"@, false),
        ));
        assert(source_views(out@) =~= a1 + url_sources(tv, urls@.take(k + 1)));
        k = k + 1;
    }
    assert(urls@.take(urls.len() as int) =~= urls@);
    let domains = find_domains(text.as_str());
    proof {
        lemma_boundary_scan_spans(Finder::Domain, text@, 0);
    }
    let ghost a2 = source_views(out@);
    let mut k: usize = 0;
    while k < domains.len()
        invariant
            k <= domains.len(),
            tv == t@,
            text@ == t@,
            domains@ == boundary_scan(Finder::Domain, text@, 0),
            forall|j: int| 0 <= j < domains@.len() ==> {
                let sp = #[trigger] domains@[j];
                &&& 0 <= sp.0 < sp.1 <= utf8_len(text@)
                &&& byte_boundary(text@, sp.0 as int)
                &&& byte_boundary(text@, sp.1 as int)
            },
            source_views(out@) == a2 + domain_sources(tv, domains@.take(k as int)),
        decreases domains.len() - k,
    {
        let ghost sp = domains@[k as int];
        let piece = span_chars(&t, domains[k]);
        let ghost prev = out@;
        let item = (from_chars(piece.as_slice()), "domain", false);
        out.push(item);
        proof {
            lemma_source_views_push(prev, item);
        }
        assert(domain_sources(tv, domains@.take(k + 1)) =~= domain_sources(tv, domains@.take(k as int)).push(
            (span_text(tv, sp), "domain"@, false),
        ));
        assert(source_views(out@) =~= a2 + domain_sources(tv, domains@.take(k + 1)));
        k = k + 1;
    }
    assert(domains@.take(domains.len() as int) =~= domains@);
    let paths = find_paths(text.as_str());
    proof {
        lemma_boundary_scan_spans(Finder::Path, text@, 0);
    }
    let ghost a3 = source_views(out@);
    let mut k: usize = 0;
    while k < paths.len()
        invariant
            k <= paths.len(),
            tv == t@,
            text@ == t@,
            paths@ == boundary_scan(Finder::Path, text@, 0),
            forall|j: int| 0 <= j < paths@.len() ==> {
                let sp = #[trigger] paths@[j];
                &&& 0 <= sp.0 < sp.1 <= utf8_len(text@)
                &&& byte_boundary(text@, sp.0 as int)
                &&& byte_boundary(text@, sp.1 as int)
            },
            source_views(out@) == a3 + path_sources(tv, paths@.take(k as int)),
        decreases paths.len() - k,
    {
        let ghost sp = paths@[k as int];
        let piece = span_chars(&t, paths[k]);
        assert(paths@.take(k + 1).drop_last() =~= paths@.take(k as int));
        assert(paths@.take(k + 1).last() == sp);
        if piece.len() >= 4 {
            let ghost prev = out@;
            let item = (from_chars(piece.as_slice()), "path", false);
            out.push(item);
            proof {
                lemma_source_views_push(prev, item);
            }
            assert(source_views(out@) =~= a3 + path_sources(tv, paths@.take(k + 1)));
        }
        k = k + 1;
    }
    assert(paths@.take(paths.len() as int) =~= paths@);
    let tokens = find_code_tokens(text.as_str());
    proof {
        lemma_boundary_scan_spans(Finder::CodeToken, text@, 0);
    }
    let ghost a4 = source_views(out@);
    let mut k: usize = 0;
    while k < tokens.len()
        invariant
            k <= tokens.len(),
            tv == t@,
            text@ == t@,
            tokens@ == boundary_scan(Finder::CodeToken, text@, 0),
            forall|j: int| 0 <= j < tokens@.len() ==> {
                let sp = #[trigger] tokens@[j];
                &&& 0 <= sp.0 < sp.1 <= utf8_len(text@)
                &&& byte_boundary(text@, sp.0 as int)
                &&& byte_boundary(text@, sp.1 as int)
            },
            source_views(out@) == a4 + identifier_sources(tv, tokens@.take(k as int)),
        decreases tokens.len() - k,
    {
        let ghost sp = tokens@[k as int];
        let piece = span_chars(&t, tokens[k]);
        assert(tokens@.take(k + 1).drop_last() =~= tokens@.take(k as int));
        assert(tokens@.take(k + 1).last() == sp);
        if eligible_identifier(&piece) {
            let ghost prev = out@;
            let item = (from_chars(piece.as_slice()), "identifier", false);
            out.push(item);
            proof {
                lemma_source_views_push(prev, item);
            }
            assert(source_views(out@) =~= a4 + identifier_sources(tv, tokens@.take(k + 1)));
        }
        k = k + 1;
    }
    assert(tokens@.take(tokens.len() as int) =~= tokens@);
    assert(tv == anchor_text(card@));
    out
}


/// Inserting at position `j` is inserting by key when `j` follows every
/// anchor whose key is not greater and precedes every greater one.
proof fn lemma_insert_key_at(sorted: Seq<AnchorModel>, x: AnchorModel, j: int)
    requires
        0 <= j <= sorted.len(),
        forall|k: int| j <= k < sorted.len() ==> seq_lt(x.1, #[trigger] sorted[k].1),
        j > 0 ==> !seq_lt(x.1, sorted[j - 1].1),
    ensures
        insert_by_key(sorted, x) == sorted.take(j).push(x) + sorted.skip(j),
    decreases sorted.len(),
{
    if sorted.len() == 0 {
        assert(sorted.take(j).push(x) + sorted.skip(j) =~= seq![x]);
    } else if j == sorted.len() {
        assert(sorted.take(j).push(x) + sorted.skip(j) =~= sorted.push(x));
    } else {
        lemma_insert_key_at(sorted.drop_last(), x, j);
        assert(sorted.drop_last().take(j) =~= sorted.take(j));
        assert((sorted.take(j).push(x) + sorted.drop_last().skip(j)).push(sorted.last()) =~= sorted.take(j).push(x)
            + sorted.skip(j));
    }
}


/// Inserting by key places `x` at some position of `sorted`.
proof fn lemma_insert_key_shape(sorted: Seq<AnchorModel>, x: AnchorModel) -> (j: int)
    ensures
        0 <= j <= sorted.len(),
        insert_by_key(sorted, x) == sorted.take(j).push(x) + sorted.skip(j),
    decreases sorted.len(),
{
    if sorted.len() == 0 {
        assert(sorted.take(0).push(x) + sorted.skip(0) =~= seq![x]);
        0
    } else if seq_lt(x.1, sorted.last().1) {
        let j = lemma_insert_key_shape(sorted.drop_last(), x);
        assert(sorted.drop_last().take(j) =~= sorted.take(j));
        assert((sorted.take(j).push(x) + sorted.drop_last().skip(j)).push(sorted.last()) =~= sorted.take(j).push(x)
            + sorted.skip(j));
        j
    } else {
        assert(sorted.take(sorted.len() as int).push(x) + sorted.skip(sorted.len() as int) =~= sorted.push(x));
        sorted.len() as int
    }
}

/// Sorting by key keeps the anchors, so distinct keys stay distinct.
proof fn lemma_sorted_keys_distinct(items: Seq<AnchorModel>)
    requires
        keys_distinct(items),
    ensures
        sorted_by_key(items).len() == items.len(),
        keys_distinct(sorted_by_key(items)),
        forall|p: int| 0 <= p < items.len() ==> exists|q: int| 0 <= q < items.len() && #[trigger] sorted_by_key(items)[p] == items[q],
    decreases items.len(),
{
    if items.len() > 0 {
        let prev = items.drop_last();
        let x = items.last();
        assert(keys_distinct(prev)) by {
            assert forall|a: int, b: int| 0 <= a < b < prev.len() implies (#[trigger] prev[a]).1 != (#[trigger] prev[b]).1 by {
                assert(prev[a] == items[a] && prev[b] == items[b]);
            }
        }
        lemma_sorted_keys_distinct(prev);
        let sp = sorted_by_key(prev);
        let j = lemma_insert_key_shape(sp, x);
        let r = sorted_by_key(items);
        assert(r == sp.take(j).push(x) + sp.skip(j));
        assert forall|p: int| 0 <= p < sp.len() implies (#[trigger] sp[p]).1 != x.1 by {
            let q = choose|q: int| 0 <= q < prev.len() && sp[p] == prev[q];
            assert(prev[q] == items[q]);
        }
        assert forall|a: int, b: int| 0 <= a < b < r.len() implies (#[trigger] r[a]).1 != (#[trigger] r[b]).1 by {
            if a < j && b < j {
                assert(r[a] == sp[a] && r[b] == sp[b]);
            } else if a < j && b == j {
                assert(r[a] == sp[a]);
            } else if a < j {
                assert(r[a] == sp[a] && r[b] == sp[b - 1]);
            } else if a == j {
                assert(r[b] == sp[b - 1]);
            } else {
                assert(r[a] == sp[a - 1] && r[b] == sp[b - 1]);
            }
        }
        assert forall|p: int| 0 <= p < items.len() implies exists|q: int| 0 <= q < items.len() && #[trigger] r[p] == items[q] by {
            if p < j {
                assert(r[p] == sp[p]);
                let q = choose|q: int| 0 <= q < prev.len() && sp[p] == prev[q];
                assert(r[p] == items[q]);
            } else if p == j {
                assert(r[p] == items[items.len() - 1]);
            } else {
                assert(r[p] == sp[p - 1]);
                let q = choose|q: int| 0 <= q < prev.len() && sp[p - 1] == prev[q];
                assert(r[p] == items[q]);
            }
        }
    }
}

/// The anchors in order of key, equal keys kept in their given order.
fn sort_anchors(found: Vec<Anchor>) -> (r: Vec<Anchor>)
    ensures
        anchor_views(r@) == sorted_by_key(anchor_views(found@)),
{
    let ghost fv = anchor_views(found@);
    let n = found.len();
    let mut rest = found;
    let mut sorted: Vec<Anchor> = Vec::new();
    let mut i: usize = 0;
    while rest.len() > 0
        invariant
            i <= n,
            fv.len() == n,
            rest@.len() == n - i,
            anchor_views(rest@) == fv.skip(i as int),
            anchor_views(sorted@) == sorted_by_key(fv.take(i as int)),
        decreases rest.len(),
    {
        let ghost rv = rest@;
        let item = rest.remove(0);
        assert(anchor_views(rest@) =~= fv.skip(i + 1)) by {
            assert(rest@ =~= rv.skip(1));
            assert forall|k: int| 0 <= k < rest@.len() implies #[trigger] anchor_views(rest@)[k] == fv.skip(i + 1)[k] by {
                assert(anchor_views(rest@)[k] == anchor_views(rv)[k + 1]);
            }
        }
        assert(anchor_view(item) == fv[i as int]) by {
            assert(anchor_views(rv)[0] == fv.skip(i as int)[0]);
        }
        let ghost before = anchor_views(sorted@);
        let key = to_chars(item.norm.as_str());
        let mut j = sorted.len();
        while j > 0 && chars_lt(&key, &to_chars(sorted[j - 1].norm.as_str()))
            invariant
                j <= sorted@.len(),
                key@ == item.norm@,
                before == anchor_views(sorted@),
                forall|k: int| j <= k < before.len() ==> seq_lt(item.norm@, #[trigger] before[k].1),
            decreases j,
        {
            j = j - 1;
        }
        proof {
            lemma_insert_key_at(before, anchor_view(item), j as int);
            assert(fv.take(i + 1).drop_last() =~= fv.take(i as int));
            assert(fv.take(i + 1).last() == fv[i as int]);
        }
        sorted.insert(j, item);
        assert(anchor_views(sorted@) =~= before.take(j as int).push(anchor_view(item)) + before.skip(j as int));
        i = i + 1;
    }
    assert(fv.take(n as int) =~= fv);
    sorted
}

/// Derives the anchors of a card: manual ones from its entities, automatic
/// ones from the URLs, domains, paths and code identifiers of its
/// entities, title and body; one per normalization key, the better ranked
/// kept, in order of key.
pub fn derive_anchors(card: &Card, cfg: &AnchorConfig) -> (r: Vec<Anchor>)
    ensures
        anchor_views(r@) == derived_anchors(card@, *cfg),
        keys_distinct(anchor_views(r@)),
{
    let stop = normalize_all(&cfg.stoplist);
    let weak = normalize_all(&cfg.weak_anchors);
    let generic = normalize_all(&cfg.generic_terms);
    let sources = collect_sources(card);
    let ghost sv = source_views(sources@);
    let mut found: Vec<Anchor> = Vec::new();
    let mut i: usize = 0;
    while i < sources.len()
        invariant
            i <= sources.len(),
            sv == source_views(sources@),
            keys_of(stop@, cfg.stoplist@),
            keys_of(weak@, cfg.weak_anchors@),
            keys_of(generic@, cfg.generic_terms@),
            anchor_views(found@) == found_from(sv.take(i as int), *cfg),
            keys_distinct(anchor_views(found@)),
        decreases sources.len() - i,
    {
        let a = anchor_candidate(sources[i].0.as_str(), sources[i].1, sources[i].2, cfg, &stop, &weak, &generic);
        proof {
            assert(sv[i as int] == (sources@[i as int].0@, sources@[i as int].1@, sources@[i as int].2));
            assert(sv.take(i + 1).drop_last() =~= sv.take(i as int));
            assert(sv.take(i + 1).last() == sv[i as int]);
            assert(opt_view(a) == anchor_of(sv[i as int].0, sv[i as int].1, sv[i as int].2, *cfg));
        }
        add_found(&mut found, a);
        i = i + 1;
    }
    assert(sv.take(sources.len() as int) =~= sv);
    let r = sort_anchors(found);
    proof {
        lemma_sorted_keys_distinct(anchor_views(found@));
    }
    r
}

/// The key a value's strength is judged by: its normalization without
/// surrounding punctuation.
pub open spec fn strength_key(value: Seq<char>) -> Seq<char> {
    trim_both(normalize_seq(value), trim_punct_pred())
}

/// Whether an anchor's strength is the one its value and origin give.
pub open spec fn strength_consistent(a: AnchorModel, weak: Seq<Seq<char>>, generic: Seq<Seq<char>>) -> bool {
    a.3 == strength_of(a.0, a.4, weak, generic)
}

/// A value whose key is a weak or generic term is never strong; any other
/// value with a numeric character, or with an upper-case character after
/// the first, is strong, and so is any other manual value.
pub proof fn law_strength(value: Seq<char>, manual: bool, weak: Seq<Seq<char>>, generic: Seq<Seq<char>>)
    ensures
        listed_norm(weak, strength_key(value)) || listed_norm(generic, strength_key(value)) ==> !strength_of(
            value,
            manual,
            weak,
            generic,
        ),
        !listed_norm(weak, strength_key(value)) && !listed_norm(generic, strength_key(value)) ==> {
            &&& (exists|i: int| 0 <= i < value.len() && numeric(#[trigger] value[i])) ==> strength_of(value, manual, weak, generic)
            &&& (exists|i: int| 1 <= i < value.len() && uppercase(#[trigger] value[i])) ==> strength_of(
                value,
                manual,
                weak,
                generic,
            )
            &&& manual ==> strength_of(value, manual, weak, generic)
        },
{
}

proof fn lemma_found_consistent(sources: Seq<AnchorSource>, cfg: AnchorConfig)
    ensures
        forall|k: int|
            0 <= k < found_from(sources, cfg).len() ==> strength_consistent(
                #[trigger] found_from(sources, cfg)[k],
                views(cfg.weak_anchors@),
                views(cfg.generic_terms@),
            ),
    decreases sources.len(),
{
    if sources.len() > 0 {
        lemma_found_consistent(sources.drop_last(), cfg);
        let prev = found_from(sources.drop_last(), cfg);
        let a = anchor_of(sources.last().0, sources.last().1, sources.last().2, cfg);
        let cur = found_from(sources, cfg);
        assert(cur == add_anchor(prev, a));
        assert forall|k: int| 0 <= k < cur.len() implies strength_consistent(
            #[trigger] cur[k],
            views(cfg.weak_anchors@),
            views(cfg.generic_terms@),
        ) by {
            if k < prev.len() && cur[k] == prev[k] {
            } else {
                assert(a is Some && cur[k] == a->0);
            }
        }
    }
}

proof fn lemma_sorted_consistent(items: Seq<AnchorModel>, weak: Seq<Seq<char>>, generic: Seq<Seq<char>>)
    requires
        forall|k: int| 0 <= k < items.len() ==> strength_consistent(#[trigger] items[k], weak, generic),
    ensures
        forall|k: int| 0 <= k < sorted_by_key(items).len() ==> strength_consistent(#[trigger] sorted_by_key(items)[k], weak, generic),
    decreases items.len(),
{
    if items.len() > 0 {
        let rest = items.drop_last();
        assert forall|k: int| 0 <= k < rest.len() implies strength_consistent(#[trigger] rest[k], weak, generic) by {
            assert(rest[k] == items[k]);
        }
        lemma_sorted_consistent(rest, weak, generic);
        let prev = sorted_by_key(rest);
        let x = items.last();
        let j = lemma_insert_key_shape(prev, x);
        let cur = sorted_by_key(items);
        assert forall|k: int| 0 <= k < cur.len() implies strength_consistent(#[trigger] cur[k], weak, generic) by {
            if k < j {
                assert(cur[k] == prev[k]);
            } else if k == j {
                assert(cur[k] == x);
            } else {
                assert(cur[k] == prev[k - 1]);
            }
        }
    }
}

/// Every derived anchor is as strong as its value and origin make it: an
/// anchor whose key is not a weak or generic term is strong when its value
/// has a numeric character or a later upper-case one, or when it is
/// manual; an anchor whose key is such a term is weak.
pub proof fn law_derived_anchor_strength(m: CardModel, cfg: AnchorConfig)
    ensures
        forall|k: int|
            0 <= k < derived_anchors(m, cfg).len() ==> {
                let a = #[trigger] derived_anchors(m, cfg)[k];
                let weak = views(cfg.weak_anchors@);
                let generic = views(cfg.generic_terms@);
                &&& listed_norm(weak, strength_key(a.0)) || listed_norm(generic, strength_key(a.0)) ==> !a.3
                &&& !listed_norm(weak, strength_key(a.0)) && !listed_norm(generic, strength_key(a.0)) ==> {
                    &&& (exists|i: int| 0 <= i < a.0.len() && numeric(#[trigger] a.0[i])) ==> a.3
                    &&& (exists|i: int| 1 <= i < a.0.len() && uppercase(#[trigger] a.0[i])) ==> a.3
                    &&& a.4 ==> a.3
                }
            },
{
    let weak = views(cfg.weak_anchors@);
    let generic = views(cfg.generic_terms@);
    let found = found_from(anchor_sources(m), cfg);
    lemma_found_consistent(anchor_sources(m), cfg);
    lemma_sorted_consistent(found, weak, generic);
    let d = derived_anchors(m, cfg);
    assert forall|k: int| 0 <= k < d.len() implies {
        let a = #[trigger] d[k];
        &&& listed_norm(weak, strength_key(a.0)) || listed_norm(generic, strength_key(a.0)) ==> !a.3
        &&& !listed_norm(weak, strength_key(a.0)) && !listed_norm(generic, strength_key(a.0)) ==> {
            &&& (exists|i: int| 0 <= i < a.0.len() && numeric(#[trigger] a.0[i])) ==> a.3
            &&& (exists|i: int| 1 <= i < a.0.len() && uppercase(#[trigger] a.0[i])) ==> a.3
            &&& a.4 ==> a.3
        }
    } by {
        assert(strength_consistent(d[k], weak, generic));
        law_strength(d[k].0, d[k].4, weak, generic);
    }
}

} // verus!
