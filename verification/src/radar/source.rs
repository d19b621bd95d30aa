//! The radar's anchor table: which cards the radar watches, and under which
//! anchors.

use vstd::prelude::*;

use crate::anchors::derive::{anchor_views, derive_anchors, derived_anchors, AnchorConfig, AnchorModel};
use crate::chars::{is_prefix, starts_with, str_eq, to_chars};
use crate::mem::{card_is_current, chars_lt, date_is_current_seq, seq_lt, Card, CardModel};
use crate::radar::hits::{anchors_view, bucket_view, ref_view, BucketModel, RefModel};
use crate::radar::{RadarBucket, RadarCardRef};

verus! {

broadcast use vstd::string::group_string_axioms;

/// The anchor table as plain values: key, display text and references.
pub type TableModel = Seq<(Seq<char>, BucketModel)>;

/// The plain values of the cards.
pub open spec fn card_models(cards: Seq<Card>) -> Seq<CardModel> {
    cards.map_values(|c: Card| c@)
}

/// Whether a current published card supersedes `id`.
pub open spec fn superseded(cards: Seq<CardModel>, today: Seq<char>, id: int) -> bool {
    exists|k: int|
        0 <= k < cards.len() && (#[trigger] cards[k]).status == "published"@ && date_is_current_seq(
            today,
            cards[k].valid_from,
            cards[k].valid_to,
        ) && cards[k].supersedes.contains(id as i64)
}

/// Whether the radar watches card `k`: published, importance at least 1,
/// trust at least T1, current, not from an external source, and not
/// superseded by a current published card.
pub open spec fn radar_eligible(cards: Seq<CardModel>, k: int, today: Seq<char>) -> bool {
    let c = cards[k];
    &&& c.status == "published"@
    &&& c.importance >= 1
    &&& c.trust >= 2
    &&& !superseded(cards, today, c.id)
    &&& !is_prefix(c.source, "external"@)
    &&& date_is_current_seq(today, c.valid_from, c.valid_to)
}

/// The first entry of the table with `key`, searching from `i`.
pub open spec fn key_pos(t: TableModel, key: Seq<char>, i: int) -> Option<int>
    decreases t.len() - i,
{
    if i < 0 || i >= t.len() {
        None
    } else if t[i].0 == key {
        Some(i)
    } else {
        key_pos(t, key, i + 1)
    }
}

/// An entry inserted after every entry whose key is not greater.
pub open spec fn insert_sorted(t: TableModel, e: (Seq<char>, BucketModel)) -> TableModel
    decreases t.len(),
{
    if t.len() == 0 {
        seq![e]
    } else if seq_lt(e.0, t.last().0) {
        insert_sorted(t.drop_last(), e).push(t.last())
    } else {
        t.push(e)
    }
}

/// A card's anchor added to the table: its reference appended to the
/// entry of its key, or a new entry (with the anchor's text for display)
/// inserted in key order.
pub open spec fn add_anchor(t: TableModel, a: AnchorModel, c: CardModel) -> TableModel {
    let r: RefModel = (c.id as i64, a.3, a.2, a.4, c.scope);
    match key_pos(t, a.1, 0) {
        Some(i) => t.update(i, (t[i].0, (t[i].1.0, t[i].1.1.push(r)))),
        None => insert_sorted(t, (a.1, (a.0, seq![r]))),
    }
}

/// A card's anchors added in order.
pub open spec fn add_anchors(t: TableModel, anchors: Seq<AnchorModel>, c: CardModel) -> TableModel
    decreases anchors.len(),
{
    if anchors.len() == 0 {
        t
    } else {
        add_anchor(add_anchors(t, anchors.drop_last(), c), anchors.last(), c)
    }
}

/// The anchor table of the first `n` cards: each watched card adds its
/// derived anchors, in card order.
pub open spec fn radar_table(cards: Seq<CardModel>, n: nat, cfg: AnchorConfig, today: Seq<char>) -> TableModel
    decreases n,
{
    if n == 0 {
        Seq::empty()
    } else {
        let t = radar_table(cards, (n - 1) as nat, cfg, today);
        if n - 1 < cards.len() && radar_eligible(cards, n - 1, today) {
            add_anchors(t, derived_anchors(cards[n - 1], cfg), cards[n - 1])
        } else {
            t
        }
    }
}

proof fn lemma_key_pos(t: TableModel, key: Seq<char>, i: int)
    requires
        0 <= i,
    ensures
        key_pos(t, key, i) matches Some(k) ==> i <= k < t.len() && t[k].0 == key,
        key_pos(t, key, i) is None ==> forall|k: int| i <= k < t.len() ==> t[k].0 != key,
    decreases t.len() - i,
{
    if 0 <= i < t.len() && t[i].0 != key {
        lemma_key_pos(t, key, i + 1);
    }
}

fn find_entry(t: &Vec<(String, RadarBucket)>, key: &str) -> (r: Option<usize>)
    ensures
        match key_pos(anchors_view(t@), key@, 0) {
            Some(k) => r == Some(k as usize),
            None => r is None,
        },
{
    let ghost tv = anchors_view(t@);
    let mut i: usize = 0;
    while i < t.len()
        invariant
            i <= t.len(),
            tv == anchors_view(t@),
            key_pos(tv, key@, i as int) == key_pos(tv, key@, 0),
        decreases t.len() - i,
    {
        assert(tv[i as int].0 == t@[i as int].0@);
        if str_eq(t[i].0.as_str(), key) {
            return Some(i);
        }
        i = i + 1;
    }
    None
}

proof fn lemma_insert_sorted_split(t: TableModel, e: (Seq<char>, BucketModel), pos: int)
    requires
        0 <= pos <= t.len(),
        forall|j: int| pos <= j < t.len() ==> seq_lt(e.0, (#[trigger] t[j]).0),
    ensures
        insert_sorted(t, e) == insert_sorted(t.take(pos), e) + t.skip(pos),
    decreases t.len() - pos,
{
    if pos == t.len() {
        assert(t.take(pos) =~= t);
        assert(t.skip(pos) =~= Seq::<(Seq<char>, BucketModel)>::empty());
        assert(insert_sorted(t, e) + Seq::<(Seq<char>, BucketModel)>::empty() =~= insert_sorted(t, e));
    } else {
        let d = t.drop_last();
        assert(seq_lt(e.0, t[t.len() - 1].0));
        lemma_insert_sorted_split(d, e, pos);
        assert(d.take(pos) =~= t.take(pos));
        assert(d.skip(pos).push(t.last()) =~= t.skip(pos));
        assert(insert_sorted(t, e) == insert_sorted(d, e).push(t.last()));
        assert((insert_sorted(t.take(pos), e) + d.skip(pos)).push(t.last()) =~= insert_sorted(t.take(pos), e)
            + t.skip(pos));
    }
}

fn insert_entry(t: &mut Vec<(String, RadarBucket)>, e: (String, RadarBucket))
    ensures
        anchors_view(final(t)@) == insert_sorted(anchors_view(old(t)@), (e.0@, bucket_view(e.1))),
{
    let ghost tv = anchors_view(t@);
    let ghost ev = (e.0@, bucket_view(e.1));
    let key = to_chars(e.0.as_str());
    let mut pos = t.len();
    while pos > 0 && chars_lt(&key, &to_chars(t[pos - 1].0.as_str()))
        invariant
            pos <= t.len(),
            tv == anchors_view(t@),
            key@ == ev.0,
            forall|j: int| pos <= j < tv.len() ==> seq_lt(ev.0, (#[trigger] tv[j]).0),
        decreases pos,
    {
        assert(tv[pos - 1].0 == t@[pos - 1].0@);
        pos = pos - 1;
    }
    proof {
        lemma_insert_sorted_split(tv, ev, pos as int);
        let head = tv.take(pos as int);
        if pos > 0 {
            assert(tv[pos - 1].0 == t@[pos - 1].0@);
            assert(head.last() == tv[pos - 1]);
            assert(head.drop_last() =~= tv.take(pos - 1));
        }
        assert(insert_sorted(head, ev) == head.push(ev));
    }
    t.insert(pos, e);
    assert(anchors_view(t@) =~= tv.take(pos as int).push(ev) + tv.skip(pos as int));
}

fn add_anchor_to(t: &mut Vec<(String, RadarBucket)>, a: &crate::anchors::Anchor, c: &Card)
    ensures
        anchors_view(final(t)@) == add_anchor(anchors_view(old(t)@), crate::anchors::derive::anchor_view(*a), c@),
{
    let ghost tv = anchors_view(t@);
    let r = RadarCardRef { id: c.id, strong: a.strong, kind: a.kind.clone(), manual: a.manual, scope: c.scope.clone() };
    assert(ref_view(r) == (c@.id as i64, a.strong, a.kind@, a.manual, c@.scope));
    let n = t.len();
    let found = find_entry(t, a.norm.as_str());
    assert(match key_pos(tv, a.norm@, 0) {
        Some(k) => found == Some(k as usize),
        None => found is None,
    });
    match found {
        Some(i) => {
            proof {
                lemma_key_pos(tv, a.norm@, 0);
                if let Some(k) = key_pos(tv, a.norm@, 0) {
                    assert(0 <= k < tv.len());
                    assert(tv.len() == n);
                    assert(k == i);
                }
            }
            let mut entry = t.remove(i);
            let ghost old_refs = bucket_view(entry.1).1;
            entry.1.cards.push(r);
            assert(bucket_view(entry.1).1 =~= old_refs.push(ref_view(r)));
            t.insert(i, entry);
            assert(anchors_view(t@) =~= tv.update(i as int, (tv[i as int].0, (tv[i as int].1.0, tv[i as int].1.1.push(ref_view(r))))));
            assert(key_pos(tv, a.norm@, 0) == Some(i as int));
            assert(anchors_view(t@) == add_anchor(tv, crate::anchors::derive::anchor_view(*a), c@));
        },
        None => {
            let ghost rv0 = ref_view(r);
            let mut cards: Vec<RadarCardRef> = Vec::new();
            cards.push(r);
            let b = RadarBucket { display: a.value.clone(), cards };
            assert(bucket_view(b) =~= (a.value@, seq![rv0]));
            let ghost rv = rv0;
            let key = a.norm.clone();
            assert(key@ == a.norm@);
            insert_entry(t, (key, b));
            assert(key_pos(tv, a.norm@, 0) is None);
            assert(anchors_view(t@) == insert_sorted(tv, (a.norm@, (a.value@, seq![rv]))));
        },
    }
}

fn supersedes_has(ids: &Vec<i64>, id: i64) -> (r: bool)
    ensures
        r == ids@.contains(id),
{
    let mut i: usize = 0;
    while i < ids.len()
        invariant
            i <= ids.len(),
            forall|k: int| 0 <= k < i ==> ids@[k] != id,
        decreases ids.len() - i,
    {
        if ids[i] == id {
            return true;
        }
        i = i + 1;
    }
    false
}

fn is_superseded(cards: &[Card], today: &str, id: i64) -> (r: bool)
    ensures
        r == superseded(card_models(cards@), today@, id as int),
{
    let ghost cm = card_models(cards@);
    let mut k: usize = 0;
    while k < cards.len()
        invariant
            k <= cards.len(),
            cm == card_models(cards@),
            forall|j: int|
                0 <= j < k ==> !((#[trigger] cm[j]).status == "published"@ && date_is_current_seq(
                    today@,
                    cm[j].valid_from,
                    cm[j].valid_to,
                ) && cm[j].supersedes.contains(id)),
        decreases cards.len() - k,
    {
        assert(cm[k as int] == cards@[k as int]@);
        if str_eq(cards[k].status.as_str(), "published") && card_is_current(&cards[k], today) && supersedes_has(
            &cards[k].supersedes,
            id,
        ) {
            return true;
        }
        k = k + 1;
    }
    false
}

fn eligible(cards: &[Card], k: usize, today: &str) -> (r: bool)
    requires
        k < cards.len(),
    ensures
        r == radar_eligible(card_models(cards@), k as int, today@),
{
    let c = &cards[k];
    assert(card_models(cards@)[k as int] == c@);
    let ext = to_chars("external");
    str_eq(c.status.as_str(), "published") && c.importance >= 1 && c.trust >= 2 && !is_superseded(cards, today, c.id)
        && !starts_with(&to_chars(c.source.as_str()), &ext) && card_is_current(c, today)
}

/// The radar's anchor table: the anchors of the watched cards, by key in
/// order, each with the display text of its first anchor and the references
/// of the cards that carry it, in card order.
pub fn radar_source(cards: &[Card], cfg: &AnchorConfig, today: &str) -> (r: Vec<(String, RadarBucket)>)
    ensures
        anchors_view(r@) == radar_table(card_models(cards@), cards@.len(), *cfg, today@),
{
    let ghost cm = card_models(cards@);
    let mut t: Vec<(String, RadarBucket)> = Vec::new();
    assert(anchors_view(t@) =~= Seq::<(Seq<char>, BucketModel)>::empty());
    let mut k: usize = 0;
    while k < cards.len()
        invariant
            k <= cards.len(),
            cm == card_models(cards@),
            anchors_view(t@) == radar_table(cm, k as nat, *cfg, today@),
        decreases cards.len() - k,
    {
        assert(cm[k as int] == cards@[k as int]@);
        if eligible(cards, k, today) {
            let anchors = derive_anchors(&cards[k], cfg);
            let ghost av = anchor_views(anchors@);
            let ghost start = anchors_view(t@);
            let mut j: usize = 0;
            while j < anchors.len()
                invariant
                    j <= anchors.len(),
                    av == anchor_views(anchors@),
                    k < cards.len(),
                    anchors_view(t@) == add_anchors(start, av.take(j as int), cards@[k as int]@),
                decreases anchors.len() - j,
            {
                add_anchor_to(&mut t, &anchors[j], &cards[k]);
                assert(av.take(j + 1).drop_last() =~= av.take(j as int));
                assert(av.take(j + 1).last() == av[j as int]);
                j = j + 1;
            }
            assert(av.take(anchors.len() as int) =~= av);
        }
        k = k + 1;
    }
    t
}

} // verus!
