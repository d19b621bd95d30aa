//! Radar hits from a compiled radar: the anchors the automaton finds in the
//! normalized text and confirms by presence, grouped by card in order of
//! anchor, filtered by scope and corroboration, ranked, one hit per card.

use vstd::prelude::*;

use std::time::Instant;

use crate::anchors::{anchor_present, anchor_present_seq};
use crate::chars::{contains_chars, contains_seq, from_chars, slice_chars, starts_with, str_eq, to_chars};
use crate::mem::{chars_lt, lemma_seq_lt_asymmetric, lemma_seq_lt_irreflexive, lemma_seq_lt_total, lemma_seq_lt_transitive, seq_lt, views};
use crate::normalize::{normalize_seq, normalize_text};
use crate::radar::{deadline_passed, find_key, scope_visible, scope_visible_seq, AhoCorasick, RadarBucket, RadarCardRef, RadarHit};
use crate::Error;

verus! {

broadcast use vstd::string::group_string_axioms;

/// A card reference as plain values: id, strong, kind, manual, scope.
pub type RefModel = (i64, bool, Seq<char>, bool, Seq<char>);

/// A bucket as plain values: display text and card references.
pub type BucketModel = (Seq<char>, Seq<RefModel>);

/// A hit as plain values: anchor, entity, id, strong, kind, manual, scope.
pub type HitModel = (Seq<char>, Seq<char>, i64, bool, Seq<char>, bool, Seq<char>);

/// The hits of one card: its id and the (anchor, reference) pairs.
pub type GroupModel = (i64, Seq<(Seq<char>, RefModel)>);

pub open spec fn ref_view(c: RadarCardRef) -> RefModel {
    (c.id, c.strong, c.kind@, c.manual, c.scope@)
}

pub open spec fn refs_view(v: Seq<RadarCardRef>) -> Seq<RefModel> {
    v.map_values(|c: RadarCardRef| ref_view(c))
}

pub open spec fn bucket_view(b: RadarBucket) -> BucketModel {
    (b.display@, refs_view(b.cards@))
}

/// The plain values of the anchor table.
pub open spec fn anchors_view(a: Seq<(String, RadarBucket)>) -> Seq<(Seq<char>, BucketModel)> {
    a.map_values(|e: (String, RadarBucket)| (e.0@, bucket_view(e.1)))
}

pub open spec fn hit_view(h: RadarHit) -> HitModel {
    (h.anchor@, h.entity@, h.id, h.strong, h.kind@, h.manual, h.scope@)
}

pub open spec fn hits_view(v: Seq<RadarHit>) -> Seq<HitModel> {
    v.map_values(|h: RadarHit| hit_view(h))
}

/// A table keyed by distinct, non-empty anchors.
pub open spec fn table_well_formed(am: Seq<(Seq<char>, BucketModel)>) -> bool {
    &&& forall|a: int, b: int| 0 <= a < b < am.len() ==> (#[trigger] am[a]).0 != (#[trigger] am[b]).0
    &&& forall|a: int| 0 <= a < am.len() ==> (#[trigger] am[a]).0.len() > 0
}

/// Every word the automaton reports is non-empty.
pub open spec fn words_nonempty(ac: AhoCorasick) -> bool {
    forall|s: int, k: int| 0 <= s < ac.out@.len() && 0 <= k < ac.out@[s]@.len() ==> (#[trigger] ac.out@[s]@[k])@.len() > 0
}

/// The bucket of an anchor.
pub open spec fn lookup(am: Seq<(Seq<char>, BucketModel)>, a: Seq<char>) -> Option<BucketModel> {
    if exists|k: int| 0 <= k < am.len() && (#[trigger] am[k]).0 == a {
        Some(am[choose|k: int| 0 <= k < am.len() && (#[trigger] am[k]).0 == a].1)
    } else {
        None
    }
}

/// The anchors found and confirmed in the normalized text.
pub open spec fn raw_set(ac: AhoCorasick, n: Seq<char>) -> Set<Seq<char>> {
    ac.found_within(n, n.len()).filter(|a: Seq<char>| anchor_present_seq(a, n))
}

/// `s` lists the set `set` in strictly increasing order.
pub open spec fn sorted_listing(s: Seq<Seq<char>>, set: Set<Seq<char>>) -> bool {
    &&& forall|i: int, j: int| 0 <= i < j < s.len() ==> seq_lt(#[trigger] s[i], #[trigger] s[j])
    &&& s.to_set() == set
}

/// The confirmed anchors in increasing order.
pub open spec fn raw_hits(ac: AhoCorasick, n: Seq<char>) -> Seq<Seq<char>> {
    choose|s: Seq<Seq<char>>| sorted_listing(s, raw_set(ac, n))
}

/// Why hits could not be computed.
pub enum HitsFault {
    MissingAnchor,
    BadCardRef,
    Overflow,
}

/// The error reported for a fault.
pub open spec fn fault_error(f: HitsFault, e: Error) -> bool {
    match f {
        HitsFault::MissingAnchor => e matches Error::CacheUnavailable(m) && m@ == "雷达锚点引用不存在"@,
        HitsFault::BadCardRef => e matches Error::CacheUnavailable(m) && m@ == "雷达卡片引用非法"@,
        HitsFault::Overflow => e is HookCandidateOverflow,
    }
}

/// Whether some group has card id `id`.
pub open spec fn has_group(g: Seq<GroupModel>, id: i64) -> bool {
    exists|k: int| 0 <= k < g.len() && (#[trigger] g[k]).0 == id
}

/// The group of card id `id`.
pub open spec fn group_of(g: Seq<GroupModel>, id: i64) -> int {
    choose|k: int| 0 <= k < g.len() && (#[trigger] g[k]).0 == id
}

/// Adds one (anchor, reference) pair: to the card's group, or as a new
/// group, refused past `limit` groups.
pub open spec fn add_ref(g: Seq<GroupModel>, anchor: Seq<char>, c: RefModel, limit: Option<usize>) -> Result<
    Seq<GroupModel>,
    HitsFault,
> {
    if c.0 <= 0 {
        Err(HitsFault::BadCardRef)
    } else if has_group(g, c.0) {
        let k = group_of(g, c.0);
        Ok(g.update(k, (g[k].0, g[k].1.push((anchor, c)))))
    } else {
        let g2 = g.push((c.0, seq![(anchor, c)]));
        match limit {
            Some(l) => if g2.len() > l {
                Err(HitsFault::Overflow)
            } else {
                Ok(g2)
            },
            None => Ok(g2),
        }
    }
}

/// Adds the pairs of one anchor with each of its references, in order.
pub open spec fn add_refs(g: Seq<GroupModel>, anchor: Seq<char>, cards: Seq<RefModel>, limit: Option<usize>) -> Result<
    Seq<GroupModel>,
    HitsFault,
>
    decreases cards.len(),
{
    if cards.len() == 0 {
        Ok(g)
    } else {
        match add_refs(g, anchor, cards.drop_last(), limit) {
            Err(f) => Err(f),
            Ok(g2) => add_ref(g2, anchor, cards.last(), limit),
        }
    }
}

/// Groups the references of the confirmed anchors by card, in first-seen
/// order.
pub open spec fn group_all(am: Seq<(Seq<char>, BucketModel)>, raw: Seq<Seq<char>>, limit: Option<usize>) -> Result<
    Seq<GroupModel>,
    HitsFault,
>
    decreases raw.len(),
{
    if raw.len() == 0 {
        Ok(Seq::empty())
    } else {
        match group_all(am, raw.drop_last(), limit) {
            Err(f) => Err(f),
            Ok(g) => match lookup(am, raw.last()) {
                None => Err(HitsFault::MissingAnchor),
                Some(b) => add_refs(g, raw.last(), b.1, limit),
            },
        }
    }
}

/// Card ids with a strong reference under an anchor present in the
/// normalized project.
pub open spec fn project_strong(am: Seq<(Seq<char>, BucketModel)>, p: Seq<char>, id: i64) -> bool {
    p.len() > 0 && exists|k: int, j: int|
        0 <= k < am.len() && 0 <= j < am[k].1.1.len() && anchor_present_seq(am[k].0, p) && (#[trigger] am[k].1.1[j]).1
            && am[k].1.1[j].0 == id
}

/// The scope without a leading `project:`.
pub open spec fn strip_project(s: Seq<char>) -> Seq<char> {
    if s.len() >= 8 && s.take(8) == "project:"@ {
        s.skip(8)
    } else {
        s
    }
}

/// Whether the hits of a group name at least two distinct anchors.
pub open spec fn two_anchors(hs: Seq<(Seq<char>, RefModel)>) -> bool {
    exists|i: int, j: int| 0 <= i < hs.len() && 0 <= j < hs.len() && (#[trigger] hs[i]).0 != (#[trigger] hs[j]).0
}

/// The hit a pair gives, if it is visible and, when weak, corroborated by
/// scope, a second anchor or a strong project anchor.
pub open spec fn accept(am: Seq<(Seq<char>, BucketModel)>, p: Seq<char>, project: Seq<char>, g: GroupModel, h: (
    Seq<char>,
    RefModel,
)) -> Option<HitModel> {
    let c = h.1;
    let display = lookup(am, h.0).unwrap().0;
    if !scope_visible_seq(c.4, project) {
        None
    } else if c.1 {
        Some((h.0, display, g.0, true, c.2, c.3, c.4))
    } else {
        let scope = normalize_seq(strip_project(c.4));
        let scope_match = scope.len() > 0 && p.len() > 0 && (contains_seq(p, scope) || contains_seq(scope, p));
        if scope_match || two_anchors(g.1) || project_strong(am, p, g.0) {
            Some((h.0, display, g.0, false, c.2, c.3, c.4))
        } else {
            None
        }
    }
}

/// The accepted hits of the first `n` pairs of a group.
pub open spec fn accept_pairs(am: Seq<(Seq<char>, BucketModel)>, p: Seq<char>, project: Seq<char>, g: GroupModel, n: int) -> Seq<
    HitModel,
>
    decreases n,
{
    if n <= 0 {
        Seq::empty()
    } else {
        let prev = accept_pairs(am, p, project, g, n - 1);
        match accept(am, p, project, g, g.1[n - 1]) {
            Some(h) => prev.push(h),
            None => prev,
        }
    }
}

/// The accepted hits of all groups, in order.
pub open spec fn accepted(am: Seq<(Seq<char>, BucketModel)>, p: Seq<char>, project: Seq<char>, gs: Seq<GroupModel>) -> Seq<
    HitModel,
>
    decreases gs.len(),
{
    if gs.len() == 0 {
        Seq::empty()
    } else {
        accepted(am, p, project, gs.drop_last()) + accept_pairs(am, p, project, gs.last(), gs.last().1.len() as int)
    }
}

/// Rank order: strong first, then manual, then longer anchors, then lower
/// id, then anchor text.
pub open spec fn hit_before(a: HitModel, b: HitModel) -> bool {
    if a.3 != b.3 {
        a.3
    } else if a.5 != b.5 {
        a.5
    } else if a.0.len() != b.0.len() {
        a.0.len() > b.0.len()
    } else if a.2 != b.2 {
        a.2 < b.2
    } else {
        seq_lt(a.0, b.0)
    }
}

/// `x` inserted after every hit not ranked after it.
pub open spec fn insert_hit(sorted: Seq<HitModel>, x: HitModel) -> Seq<HitModel>
    decreases sorted.len(),
{
    if sorted.len() == 0 {
        seq![x]
    } else if hit_before(x, sorted.last()) {
        insert_hit(sorted.drop_last(), x).push(sorted.last())
    } else {
        sorted.push(x)
    }
}

/// The hits in rank order, ties kept in their given order.
pub open spec fn rank_hits(items: Seq<HitModel>) -> Seq<HitModel>
    decreases items.len(),
{
    if items.len() == 0 {
        Seq::empty()
    } else {
        insert_hit(rank_hits(items.drop_last()), items.last())
    }
}

/// The first hit of each card.
pub open spec fn first_per_card(items: Seq<HitModel>) -> Seq<HitModel>
    decreases items.len(),
{
    if items.len() == 0 {
        Seq::empty()
    } else {
        let prev = first_per_card(items.drop_last());
        if exists|k: int| 0 <= k < prev.len() && (#[trigger] prev[k]).2 == items.last().2 {
            prev
        } else {
            prev.push(items.last())
        }
    }
}

/// The radar hits of `text` seen from `project`.
pub open spec fn radar_hits(
    am: Seq<(Seq<char>, BucketModel)>,
    ac: AhoCorasick,
    text: Seq<char>,
    project: Seq<char>,
    limit: Option<usize>,
) -> Result<Seq<HitModel>, HitsFault> {
    if am.len() == 0 {
        Ok(Seq::empty())
    } else {
        let n = normalize_seq(text);
        let p = normalize_seq(project);
        match group_all(am, raw_hits(ac, n), limit) {
            Err(f) => Err(f),
            Ok(gs) => Ok(first_per_card(rank_hits(accepted(am, p, project, gs)))),
        }
    }
}


/// Two increasing listings of one set are equal.
pub proof fn lemma_listing_unique(a: Seq<Seq<char>>, b: Seq<Seq<char>>, set: Set<Seq<char>>)
    requires
        sorted_listing(a, set),
        sorted_listing(b, set),
    ensures
        a == b,
    decreases a.len(),
{
    if a.len() > 0 {
        assert(a.to_set().contains(a[0]));
        assert(b.to_set().contains(a[0]));
        assert(a.to_set().contains(b[0]));
        let ia = choose|i: int| 0 <= i < a.len() && a[i] == b[0];
        let ib = choose|i: int| 0 <= i < b.len() && b[i] == a[0];
        if a[0] != b[0] {
            assert(ia > 0 && ib > 0);
            assert(seq_lt(a[0], a[ia]));
            assert(seq_lt(b[0], b[ib]));
            lemma_seq_lt_asymmetric(a[0], b[0]);
        }
        let ta = a.drop_first();
        let tb = b.drop_first();
        assert forall|x: Seq<char>| ta.to_set().contains(x) implies tb.to_set().contains(x) by {
            let i = choose|i: int| 0 <= i < ta.len() && ta[i] == x;
            assert(a[i + 1] == x);
            assert(b.to_set().contains(x));
            let j = choose|j: int| 0 <= j < b.len() && b[j] == x;
            assert(seq_lt(a[0], x));
            if j == 0 {
                lemma_seq_lt_irreflexive(x);
            }
            assert(tb[j - 1] == x);
        }
        assert forall|x: Seq<char>| tb.to_set().contains(x) implies ta.to_set().contains(x) by {
            let j = choose|j: int| 0 <= j < tb.len() && tb[j] == x;
            assert(b[j + 1] == x);
            assert(a.to_set().contains(x));
            let i = choose|i: int| 0 <= i < a.len() && a[i] == x;
            assert(seq_lt(b[0], x));
            if i == 0 {
                lemma_seq_lt_irreflexive(x);
            }
            assert(ta[i - 1] == x);
        }
        assert(ta.to_set() =~= tb.to_set());
        assert forall|i: int, j: int| 0 <= i < j < ta.len() implies seq_lt(#[trigger] ta[i], #[trigger] ta[j]) by {
            assert(ta[i] == a[i + 1] && ta[j] == a[j + 1]);
        }
        assert forall|i: int, j: int| 0 <= i < j < tb.len() implies seq_lt(#[trigger] tb[i], #[trigger] tb[j]) by {
            assert(tb[i] == b[i + 1] && tb[j] == b[j + 1]);
        }
        lemma_listing_unique(ta, tb, ta.to_set());
        assert(a =~= seq![a[0]] + ta);
        assert(b =~= seq![b[0]] + tb);
    } else {
        if b.len() > 0 {
            assert(b.to_set().contains(b[0]));
            assert(a.to_set().contains(b[0]));
        }
    }
}

/// Whether the clock has reached `deadline`, checked on every 64th step.
fn deadline_due(deadline: &Option<Instant>, index: usize) -> (r: bool)
    ensures
        r ==> deadline is Some,
{
    if index % 64 == 0 {
        if let Some(d) = deadline {
            return deadline_passed(d);
        }
    }
    false
}

/// The scanned anchors present in `n`, in increasing order.
fn confirm_sorted(scanned: &Vec<String>, n: &str, deadline: &Option<Instant>) -> (r: Result<Vec<String>, Error>)
    requires
        forall|k: int| 0 <= k < scanned@.len() ==> (#[trigger] scanned@[k])@.len() > 0,
    ensures
        r matches Ok(v) ==> sorted_listing(
            views(v@),
            views(scanned@).to_set().filter(|a: Seq<char>| anchor_present_seq(a, n@)),
        ),
        r matches Err(e) ==> e is HookDeadlineExceeded && deadline is Some,
{
    let ghost sv = views(scanned@);
    let ghost pred = |a: Seq<char>| anchor_present_seq(a, n@);
    let mut out: Vec<String> = Vec::new();
    let mut i: usize = 0;
    while i < scanned.len()
        invariant
            i <= scanned.len(),
            sv == views(scanned@),
            pred == (|a: Seq<char>| anchor_present_seq(a, n@)),
            forall|k: int| 0 <= k < scanned@.len() ==> (#[trigger] scanned@[k])@.len() > 0,
            forall|a: int, b: int| 0 <= a < b < out@.len() ==> seq_lt(#[trigger] views(out@)[a], #[trigger] views(out@)[b]),
            forall|x: Seq<char>| #[trigger] views(out@).contains(x) <==> (sv.take(i as int).contains(x) && pred(x)),
        decreases scanned.len() - i,
    {
        if deadline_due(deadline, i) {
            return Err(Error::HookDeadlineExceeded);
        }
        let ghost t0 = sv.take(i as int);
        let ghost t1 = sv.take(i + 1);
        let w = &scanned[i];
        let ghost wv = w@;
        assert(t1 =~= t0.push(wv));
        if anchor_present(w.as_str(), n) {
            let wc = to_chars(w.as_str());
            assert(pred(wv));
            let ghost before = views(out@);
            let mut j: usize = 0;
            while j < out.len() && chars_lt(&to_chars(out[j].as_str()), &wc)
                invariant
                    j <= out@.len(),
                    wc@ == wv,
                    before == views(out@),
                    forall|k: int| 0 <= k < j ==> seq_lt(#[trigger] before[k], wv),
                decreases out.len() - j,
            {
                j = j + 1;
            }
            if j < out.len() && str_eq(out[j].as_str(), w.as_str()) {
                assert(before[j as int] == wv);
                assert forall|x: Seq<char>| #[trigger] views(out@).contains(x) <==> (t1.contains(x) && pred(x)) by {
                    if x == wv {
                        assert(before[j as int] == x);
                    }
                    if t1.contains(x) && x != wv {
                        let q = choose|q: int| 0 <= q < t1.len() && t1[q] == x;
                        assert(t0[q] == x);
                    }
                    if t0.contains(x) {
                        let q = choose|q: int| 0 <= q < t0.len() && t0[q] == x;
                        assert(t1[q] == x);
                    }
                }
            } else {
                proof {
                    if j < before.len() {
                        lemma_seq_lt_total(before[j as int], wv);
                        assert(!seq_lt(before[j as int], wv));
                        assert(seq_lt(wv, before[j as int]));
                    }
                    assert forall|k: int| j <= k < before.len() implies seq_lt(wv, #[trigger] before[k]) by {
                        if k > j {
                            assert(seq_lt(before[j as int], before[k]));
                            lemma_seq_lt_transitive(wv, before[j as int], before[k]);
                        }
                    }
                }
                out.insert(j, w.clone());
                let ghost after = views(out@);
                assert(after =~= before.take(j as int).push(wv) + before.skip(j as int));
                assert forall|a: int, b: int| 0 <= a < b < after.len() implies seq_lt(#[trigger] after[a], #[trigger] after[b]) by {
                    if b < j {
                        assert(after[a] == before[a] && after[b] == before[b]);
                    } else if b == j {
                        assert(after[a] == before[a]);
                    } else if a < j {
                        assert(after[a] == before[a] && after[b] == before[b - 1]);
                        lemma_seq_lt_transitive(before[a], wv, before[b - 1]);
                    } else if a == j {
                        assert(after[b] == before[b - 1]);
                    } else {
                        assert(after[a] == before[a - 1] && after[b] == before[b - 1]);
                    }
                }
                assert forall|x: Seq<char>| #[trigger] after.contains(x) <==> (t1.contains(x) && pred(x)) by {
                    assert(before.contains(x) <==> (t0.contains(x) && pred(x)));
                    if after.contains(x) {
                        let q = choose|q: int| 0 <= q < after.len() && after[q] == x;
                        if q < j {
                            assert(before[q] == x);
                        } else if q > j {
                            assert(before[q - 1] == x);
                        }
                    }
                    if before.contains(x) {
                        let q = choose|q: int| 0 <= q < before.len() && before[q] == x;
                        if q < j {
                            assert(after[q] == x);
                        } else {
                            assert(after[q + 1] == x);
                        }
                    }
                    if x == wv {
                        assert(after[j as int] == x);
                        assert(t1[i as int] == x);
                    }
                    if t1.contains(x) && x != wv {
                        let q = choose|q: int| 0 <= q < t1.len() && t1[q] == x;
                        assert(t0[q] == x);
                    }
                    if t0.contains(x) {
                        let q = choose|q: int| 0 <= q < t0.len() && t0[q] == x;
                        assert(t1[q] == x);
                    }
                }
            }
        } else {
            assert forall|x: Seq<char>| #[trigger] views(out@).contains(x) <==> (t1.contains(x) && pred(x)) by {
                if t1.contains(x) && x != wv {
                    let q = choose|q: int| 0 <= q < t1.len() && t1[q] == x;
                    assert(t0[q] == x);
                }
                if t0.contains(x) {
                    let q = choose|q: int| 0 <= q < t0.len() && t0[q] == x;
                    assert(t1[q] == x);
                }
            }
        }
        i = i + 1;
    }
    assert(sv.take(scanned.len() as int) =~= sv);
    assert(views(out@).to_set() =~= sv.to_set().filter(pred));
    Ok(out)
}

/// The plain values of (anchor, reference) pairs.
pub open spec fn pairs_view(v: Seq<(String, RadarCardRef)>) -> Seq<(Seq<char>, RefModel)> {
    v.map_values(|p: (String, RadarCardRef)| (p.0@, ref_view(p.1)))
}

/// The plain values of card groups.
pub open spec fn groups_view(v: Seq<(i64, Vec<(String, RadarCardRef)>)>) -> Seq<GroupModel> {
    v.map_values(|g: (i64, Vec<(String, RadarCardRef)>)| (g.0, pairs_view(g.1@)))
}

/// No two groups share a card id.
pub open spec fn group_ids_distinct(g: Seq<GroupModel>) -> bool {
    forall|a: int, b: int| 0 <= a < b < g.len() ==> (#[trigger] g[a]).0 != (#[trigger] g[b]).0
}

/// Every grouped anchor has a bucket.
pub open spec fn pairs_known(am: Seq<(Seq<char>, BucketModel)>, g: Seq<GroupModel>) -> bool {
    forall|k: int, j: int| 0 <= k < g.len() && 0 <= j < g[k].1.len() ==> #[trigger] lookup(am, g[k].1[j].0) is Some
}

/// Adding a pair keeps ids distinct and anchors known.
proof fn lemma_add_ref_keeps(am: Seq<(Seq<char>, BucketModel)>, g: Seq<GroupModel>, anchor: Seq<char>, c: RefModel, limit: Option<usize>)
    requires
        group_ids_distinct(g),
        pairs_known(am, g),
        lookup(am, anchor) is Some,
    ensures
        add_ref(g, anchor, c, limit) matches Ok(g2) ==> group_ids_distinct(g2) && pairs_known(am, g2),
{
    if let Ok(g2) = add_ref(g, anchor, c, limit) {
        if has_group(g, c.0) {
            let k = group_of(g, c.0);
            assert forall|a: int, b: int| 0 <= a < b < g2.len() implies (#[trigger] g2[a]).0 != (#[trigger] g2[b]).0 by {
                assert(g2[a].0 == g[a].0 && g2[b].0 == g[b].0);
            }
            assert forall|x: int, j: int| 0 <= x < g2.len() && 0 <= j < g2[x].1.len() implies #[trigger] lookup(am, g2[x].1[j].0) is Some by {
                if x == k {
                    if j < g[k].1.len() {
                        assert(g2[x].1[j] == g[k].1[j]);
                    }
                } else {
                    assert(g2[x] == g[x]);
                }
            }
        } else {
            assert forall|a: int, b: int| 0 <= a < b < g2.len() implies (#[trigger] g2[a]).0 != (#[trigger] g2[b]).0 by {
                if b == g.len() {
                    assert(g2[a] == g[a]);
                } else {
                    assert(g2[a] == g[a] && g2[b] == g[b]);
                }
            }
            assert forall|x: int, j: int| 0 <= x < g2.len() && 0 <= j < g2[x].1.len() implies #[trigger] lookup(am, g2[x].1[j].0) is Some by {
                if x < g.len() {
                    assert(g2[x] == g[x]);
                }
            }
        }
    }
}

/// A copy of a card reference.
fn copy_ref(c: &RadarCardRef) -> (r: RadarCardRef)
    ensures
        ref_view(r) == ref_view(*c),
{
    RadarCardRef { id: c.id, strong: c.strong, kind: c.kind.clone(), manual: c.manual, scope: c.scope.clone() }
}

/// Adds one (anchor, reference) pair to the groups.
fn add_ref_to(
    groups: &mut Vec<(i64, Vec<(String, RadarCardRef)>)>,
    anchor: &str,
    c: &RadarCardRef,
    limit: Option<usize>,
) -> (r: Result<(), HitsFault>)
    requires
        group_ids_distinct(groups_view(old(groups)@)),
    ensures
        match add_ref(groups_view(old(groups)@), anchor@, ref_view(*c), limit) {
            Ok(g2) => r is Ok && groups_view(final(groups)@) == g2,
            Err(f) => r == Err::<(), HitsFault>(f),
        },
{
    let ghost g = groups_view(groups@);
    if c.id <= 0 {
        return Err(HitsFault::BadCardRef);
    }
    let mut k: usize = 0;
    while k < groups.len() && groups[k].0 != c.id
        invariant
            k <= groups@.len(),
            g == groups_view(groups@),
            forall|j: int| 0 <= j < k ==> g[j].0 != c.id,
        decreases groups.len() - k,
    {
        k = k + 1;
    }
    if k < groups.len() {
        proof {
            assert(g[k as int].0 == c.id);
            assert(has_group(g, c.id));
            let q = group_of(g, c.id);
            if q != k {
                if q < k {
                    assert(g[q].0 != c.id);
                } else {
                    assert(g[k as int].0 != g[q].0);
                }
            }
        }
        let mut grp = groups.remove(k);
        let ghost gp = grp;
        grp.1.push((String::from_str(anchor), copy_ref(c)));
        assert(pairs_view(grp.1@) =~= pairs_view(gp.1@).push((anchor@, ref_view(*c))));
        groups.insert(k, grp);
        assert(groups_view(groups@) =~= g.update(k as int, (g[k as int].0, g[k as int].1.push((anchor@, ref_view(*c))))));
        Ok(())
    } else {
        proof {
            if has_group(g, c.id) {
                let q = group_of(g, c.id);
                assert(g[q].0 != c.id);
            }
        }
        let mut v: Vec<(String, RadarCardRef)> = Vec::new();
        v.push((String::from_str(anchor), copy_ref(c)));
        assert(pairs_view(v@) =~= seq![(anchor@, ref_view(*c))]);
        groups.push((c.id, v));
        assert(groups_view(groups@) =~= g.push((c.id, seq![(anchor@, ref_view(*c))])));
        match limit {
            Some(l) => {
                if groups.len() > l {
                    return Err(HitsFault::Overflow);
                }
            },
            None => {},
        }
        Ok(())
    }
}

/// The error of a fault.
fn fault_into_error(f: HitsFault) -> (e: Error)
    ensures
        fault_error(f, e),
{
    match f {
        HitsFault::MissingAnchor => Error::cache("雷达锚点引用不存在"),
        HitsFault::BadCardRef => Error::cache("雷达卡片引用非法"),
        HitsFault::Overflow => Error::HookCandidateOverflow,
    }
}

/// A failure in the first `m` references stays a failure.
proof fn lemma_add_refs_err(g: Seq<GroupModel>, anchor: Seq<char>, cards: Seq<RefModel>, m: int, limit: Option<usize>)
    requires
        0 <= m <= cards.len(),
        add_refs(g, anchor, cards.take(m), limit) is Err,
    ensures
        add_refs(g, anchor, cards, limit) == add_refs(g, anchor, cards.take(m), limit),
    decreases cards.len() - m,
{
    if m < cards.len() {
        assert(cards.take(m + 1).drop_last() =~= cards.take(m));
        lemma_add_refs_err(g, anchor, cards, m + 1, limit);
    } else {
        assert(cards.take(m) =~= cards);
    }
}

/// A failure in the first `m` anchors stays a failure.
proof fn lemma_group_all_err(am: Seq<(Seq<char>, BucketModel)>, raw: Seq<Seq<char>>, m: int, limit: Option<usize>)
    requires
        0 <= m <= raw.len(),
        group_all(am, raw.take(m), limit) is Err,
    ensures
        group_all(am, raw, limit) == group_all(am, raw.take(m), limit),
    decreases raw.len() - m,
{
    if m < raw.len() {
        assert(raw.take(m + 1).drop_last() =~= raw.take(m));
        lemma_group_all_err(am, raw, m + 1, limit);
    } else {
        assert(raw.take(m) =~= raw);
    }
}

/// The position of anchor `a` in the table.
fn find_anchor(anchors: &Vec<(String, RadarBucket)>, a: &str) -> (r: Option<usize>)
    requires
        table_well_formed(anchors_view(anchors@)),
    ensures
        match lookup(anchors_view(anchors@), a@) {
            None => r is None,
            Some(b) => r matches Some(k) && k < anchors@.len() && anchors_view(anchors@)[k as int] == (a@, b),
        },
{
    let ghost am = anchors_view(anchors@);
    let mut k: usize = 0;
    while k < anchors.len()
        invariant
            k <= anchors@.len(),
            am == anchors_view(anchors@),
            table_well_formed(am),
            forall|j: int| 0 <= j < k ==> am[j].0 != a@,
        decreases anchors.len() - k,
    {
        if str_eq(anchors[k].0.as_str(), a) {
            proof {
                assert(am[k as int].0 == a@);
                let q = choose|q: int| 0 <= q < am.len() && (#[trigger] am[q]).0 == a@;
                if q != k {
                    if q < k {
                        assert(am[q].0 != a@);
                    } else {
                        assert(am[k as int].0 != am[q].0);
                    }
                }
            }
            return Some(k);
        }
        k = k + 1;
    }
    proof {
        if exists|q: int| 0 <= q < am.len() && (#[trigger] am[q]).0 == a@ {
            let q = choose|q: int| 0 <= q < am.len() && (#[trigger] am[q]).0 == a@;
            assert(am[q].0 != a@);
        }
    }
    None
}

/// Groups the references of the confirmed anchors by card.
fn group_by_card(
    anchors: &Vec<(String, RadarBucket)>,
    raw: &Vec<String>,
    limit: Option<usize>,
    deadline: &Option<Instant>,
) -> (r: Result<Vec<(i64, Vec<(String, RadarCardRef)>)>, Error>)
    requires
        table_well_formed(anchors_view(anchors@)),
    ensures
        r matches Ok(g) ==> group_all(anchors_view(anchors@), views(raw@), limit) == Ok::<Seq<GroupModel>, HitsFault>(groups_view(g@))
            && group_ids_distinct(groups_view(g@)) && pairs_known(anchors_view(anchors@), groups_view(g@)),
        r matches Err(e) ==> (e is HookDeadlineExceeded && deadline is Some) || (group_all(
            anchors_view(anchors@),
            views(raw@),
            limit,
        ) matches Err(f) && fault_error(f, e)),
{
    let ghost am = anchors_view(anchors@);
    let ghost rv = views(raw@);
    let mut groups: Vec<(i64, Vec<(String, RadarCardRef)>)> = Vec::new();
    let mut i: usize = 0;
    assert(groups_view(groups@) =~= Seq::<GroupModel>::empty());
    while i < raw.len()
        invariant
            i <= raw@.len(),
            am == anchors_view(anchors@),
            rv == views(raw@),
            table_well_formed(am),
            group_all(am, rv.take(i as int), limit) == Ok::<Seq<GroupModel>, HitsFault>(groups_view(groups@)),
            group_ids_distinct(groups_view(groups@)),
            pairs_known(am, groups_view(groups@)),
        decreases raw.len() - i,
    {
        if deadline_due(deadline, i) {
            return Err(Error::HookDeadlineExceeded);
        }
        let a = raw[i].as_str();
        assert(rv.take(i + 1).drop_last() =~= rv.take(i as int));
        assert(rv.take(i + 1).last() == a@);
        let ghost g0 = groups_view(groups@);
        match find_anchor(anchors, a) {
            None => {
                proof {
                    lemma_group_all_err(am, rv, i + 1, limit);
                    assert(rv.take(raw.len() as int) =~= rv);
                }
                return Err(fault_into_error(HitsFault::MissingAnchor));
            },
            Some(bi) => {
                let cards = &anchors[bi].1.cards;
                let ghost cv = refs_view(cards@);
                assert(am[bi as int].1.1 == cv);
                assert(group_all(am, rv.take(i + 1), limit) == add_refs(g0, a@, cv, limit));
                let mut j: usize = 0;
                assert(cv.take(0) =~= Seq::<RefModel>::empty());
                while j < cards.len()
                    invariant
                        j <= cards@.len(),
                        i < raw@.len(),
                        am == anchors_view(anchors@),
                        rv == views(raw@),
                        cv == refs_view(cards@),
                        lookup(am, a@) is Some,
                        group_all(am, rv.take(i + 1), limit) == add_refs(g0, a@, cv, limit),
                        add_refs(g0, a@, cv.take(j as int), limit) == Ok::<Seq<GroupModel>, HitsFault>(groups_view(groups@)),
                        group_ids_distinct(groups_view(groups@)),
                        pairs_known(am, groups_view(groups@)),
                    decreases cards.len() - j,
                {
                    let ghost gb = groups_view(groups@);
                    assert(cv.take(j + 1).drop_last() =~= cv.take(j as int));
                    assert(cv.take(j + 1).last() == ref_view(cards@[j as int]));
                    proof {
                        lemma_add_ref_keeps(am, gb, a@, ref_view(cards@[j as int]), limit);
                    }
                    match add_ref_to(&mut groups, a, &cards[j], limit) {
                        Ok(()) => {},
                        Err(f) => {
                            proof {
                                lemma_add_refs_err(g0, a@, cv, j + 1, limit);
                                assert(cv.take(cards.len() as int) =~= cv);
                                lemma_group_all_err(am, rv, i + 1, limit);
                                assert(rv.take(raw.len() as int) =~= rv);
                            }
                            return Err(fault_into_error(f));
                        },
                    }
                    j = j + 1;
                }
                assert(cv.take(cards.len() as int) =~= cv);
            },
        }
        i = i + 1;
    }
    assert(rv.take(raw.len() as int) =~= rv);
    Ok(groups)
}

/// Whether some group holds a weak reference.
pub open spec fn any_weak(g: Seq<GroupModel>) -> bool {
    exists|k: int, j: int| 0 <= k < g.len() && 0 <= j < g[k].1.len() && !(#[trigger] g[k].1[j]).1.1
}

/// Whether some group holds a weak reference.
fn has_weak(groups: &Vec<(i64, Vec<(String, RadarCardRef)>)>) -> (r: bool)
    ensures
        r == any_weak(groups_view(groups@)),
{
    let ghost g = groups_view(groups@);
    let mut k: usize = 0;
    while k < groups.len()
        invariant
            k <= groups@.len(),
            g == groups_view(groups@),
            forall|x: int, j: int| 0 <= x < k && 0 <= j < g[x].1.len() ==> (#[trigger] g[x].1[j]).1.1,
        decreases groups.len() - k,
    {
        let pairs = &groups[k].1;
        let mut j: usize = 0;
        while j < pairs.len()
            invariant
                k < groups@.len(),
                j <= pairs@.len(),
                g == groups_view(groups@),
                pairs@ == groups@[k as int].1@,
                forall|x: int, y: int| 0 <= x < k && 0 <= y < g[x].1.len() ==> (#[trigger] g[x].1[y]).1.1,
                forall|y: int| 0 <= y < j ==> (#[trigger] g[k as int].1[y]).1.1,
            decreases pairs.len() - j,
        {
            assert(g[k as int].1[j as int] == (pairs@[j as int].0@, ref_view(pairs@[j as int].1)));
            if !pairs[j].1.strong {
                return true;
            }
            j = j + 1;
        }
        k = k + 1;
    }
    false
}

/// The ids of cards with a strong reference under an anchor present in the
/// normalized project `p`.
fn project_strong_ids(anchors: &Vec<(String, RadarBucket)>, p: &str, deadline: &Option<Instant>) -> (r: Result<
    Vec<i64>,
    Error,
>)
    requires
        table_well_formed(anchors_view(anchors@)),
        p@.len() > 0,
    ensures
        r matches Ok(ids) ==> forall|id: i64| #[trigger] ids@.contains(id) == project_strong(anchors_view(anchors@), p@, id),
        r matches Err(e) ==> e is HookDeadlineExceeded && deadline is Some,
{
    let ghost am = anchors_view(anchors@);
    let mut ids: Vec<i64> = Vec::new();
    let mut k: usize = 0;
    while k < anchors.len()
        invariant
            k <= anchors@.len(),
            am == anchors_view(anchors@),
            table_well_formed(am),
            p@.len() > 0,
            forall|id: i64| #[trigger] ids@.contains(id) == exists|x: int, j: int|
                0 <= x < k && 0 <= j < am[x].1.1.len() && anchor_present_seq(am[x].0, p@) && (#[trigger] am[x].1.1[j]).1
                    && am[x].1.1[j].0 == id,
        decreases anchors.len() - k,
    {
        if deadline_due(deadline, k) {
            return Err(Error::HookDeadlineExceeded);
        }
        assert(am[k as int].0.len() > 0);
        let present = anchor_present(anchors[k].0.as_str(), p);
        let cards = &anchors[k].1.cards;
        let ghost before = ids@;
        let mut j: usize = 0;
        while j < cards.len()
            invariant
                k < anchors@.len(),
                j <= cards@.len(),
                am == anchors_view(anchors@),
                cards@ == anchors@[k as int].1.cards@,
                present == anchor_present_seq(am[k as int].0, p@),
                forall|id: i64| #[trigger] ids@.contains(id) == (before.contains(id) || exists|y: int|
                    0 <= y < j && present && (#[trigger] am[k as int].1.1[y]).1 && am[k as int].1.1[y].0 == id),
            decreases cards.len() - j,
        {
            assert(am[k as int].1.1[j as int] == ref_view(cards@[j as int]));
            if present && cards[j].strong {
                let ghost prev = ids@;
                ids.push(cards[j].id);
                assert forall|id: i64| #[trigger] ids@.contains(id) == (before.contains(id) || exists|y: int|
                    0 <= y < j + 1 && present && (#[trigger] am[k as int].1.1[y]).1 && am[k as int].1.1[y].0 == id) by {
                    if ids@.contains(id) {
                        let q = choose|q: int| 0 <= q < ids@.len() && ids@[q] == id;
                        if q < prev.len() {
                            assert(prev[q] == id);
                        }
                    }
                    if prev.contains(id) {
                        let q = choose|q: int| 0 <= q < prev.len() && prev[q] == id;
                        assert(ids@[q] == id);
                    }
                    if id == cards@[j as int].id {
                        assert(ids@[prev.len() as int] == id);
                    }
                }
            }
            j = j + 1;
        }
        assert forall|id: i64| #[trigger] ids@.contains(id) == exists|x: int, y: int|
            0 <= x < k + 1 && 0 <= y < am[x].1.1.len() && anchor_present_seq(am[x].0, p@) && (#[trigger] am[x].1.1[y]).1
                && am[x].1.1[y].0 == id by {
            if exists|x: int, y: int|
                0 <= x < k + 1 && 0 <= y < am[x].1.1.len() && anchor_present_seq(am[x].0, p@) && (#[trigger] am[x].1.1[y]).1
                    && am[x].1.1[y].0 == id {
                let (x, y) = choose|x: int, y: int|
                    0 <= x < k + 1 && 0 <= y < am[x].1.1.len() && anchor_present_seq(am[x].0, p@) && (#[trigger] am[x].1.1[y]).1
                        && am[x].1.1[y].0 == id;
                if x == k {
                    assert(am[x].1.1.len() == cards@.len());
                }
            }
        }
        k = k + 1;
    }
    Ok(ids)
}

/// The scope text without a leading `project:`.
fn strip_project_chars(s: &[char]) -> (r: Vec<char>)
    ensures
        r@ == strip_project(s@),
{
    let prefix = to_chars("project:");
    proof {
        reveal_strlit("project:");
    }
    if starts_with(s, &prefix) {
        slice_chars(s, 8, s.len())
    } else {
        assert(s@.len() >= 8 ==> s@.take(8) != "project:"@);
        slice_chars(s, 0, s.len())
    }
}

/// Whether the pairs of a group name two distinct anchors.
fn has_two_anchors(pairs: &Vec<(String, RadarCardRef)>) -> (r: bool)
    ensures
        r == two_anchors(pairs_view(pairs@)),
{
    let ghost hs = pairs_view(pairs@);
    if pairs.len() == 0 {
        return false;
    }
    let mut j: usize = 1;
    while j < pairs.len()
        invariant
            1 <= j <= pairs@.len(),
            hs == pairs_view(pairs@),
            forall|y: int| 0 <= y < j ==> (#[trigger] hs[y]).0 == hs[0].0,
        decreases pairs.len() - j,
    {
        if !str_eq(pairs[j].0.as_str(), pairs[0].0.as_str()) {
            assert(hs[j as int].0 != hs[0].0);
            return true;
        }
        j = j + 1;
    }
    proof {
        if two_anchors(hs) {
            let (a, b) = choose|a: int, b: int| 0 <= a < hs.len() && 0 <= b < hs.len() && (#[trigger] hs[a]).0 != (#[trigger] hs[b]).0;
            assert(hs[a].0 == hs[0].0 && hs[b].0 == hs[0].0);
        }
    }
    false
}

/// The plain values of an optional hit.
pub open spec fn opt_hit(h: Option<RadarHit>) -> Option<HitModel> {
    match h {
        Some(x) => Some(hit_view(x)),
        None => None,
    }
}

/// The hit the `j`-th pair of a group gives, if any.
fn accept_pair(
    anchors: &Vec<(String, RadarBucket)>,
    p: &str,
    project: &str,
    grp: &(i64, Vec<(String, RadarCardRef)>),
    j: usize,
    two: bool,
    strong_ids: &Vec<i64>,
) -> (r: Option<RadarHit>)
    requires
        table_well_formed(anchors_view(anchors@)),
        j < grp.1@.len(),
        lookup(anchors_view(anchors@), grp.1@[j as int].0@) is Some,
        two == two_anchors(pairs_view(grp.1@)),
        !grp.1@[j as int].1.strong ==> (strong_ids@.contains(grp.0) == project_strong(anchors_view(anchors@), p@, grp.0)),
    ensures
        opt_hit(r) == accept(anchors_view(anchors@), p@, project@, (grp.0, pairs_view(grp.1@)), pairs_view(grp.1@)[j as int]),
{
    let ghost am = anchors_view(anchors@);
    let pair = &grp.1[j];
    let c = &pair.1;
    assert(pairs_view(grp.1@)[j as int] == (pair.0@, ref_view(*c)));
    if !scope_visible(c.scope.as_str(), project) {
        return None;
    }
    let bi = match find_anchor(anchors, pair.0.as_str()) {
        Some(bi) => bi,
        None => {
            return None;
        },
    };
    let display = anchors[bi].1.display.clone();
    assert(display@ == lookup(am, pair.0@).unwrap().0);
    if c.strong {
        return Some(RadarHit {
            anchor: pair.0.clone(),
            entity: display,
            id: grp.0,
            strong: true,
            kind: c.kind.clone(),
            manual: c.manual,
            scope: c.scope.clone(),
        });
    }
    let stripped = strip_project_chars(&to_chars(c.scope.as_str()));
    let scope = to_chars(normalize_text(from_chars(&stripped).as_str()).as_str());
    let pc = to_chars(p);
    let scope_match = scope.len() > 0 && pc.len() > 0 && (contains_chars(&pc, &scope) || contains_chars(&scope, &pc));
    let mut project_anchor = false;
    let mut k: usize = 0;
    while k < strong_ids.len()
        invariant
            k <= strong_ids@.len(),
            project_anchor == exists|x: int| 0 <= x < k && strong_ids@[x] == grp.0,
        decreases strong_ids.len() - k,
    {
        if strong_ids[k] == grp.0 {
            project_anchor = true;
        }
        k = k + 1;
    }
    assert(project_anchor == strong_ids@.contains(grp.0));
    if scope_match || two || project_anchor {
        Some(RadarHit {
            anchor: pair.0.clone(),
            entity: display,
            id: grp.0,
            strong: false,
            kind: c.kind.clone(),
            manual: c.manual,
            scope: c.scope.clone(),
        })
    } else {
        None
    }
}

/// The accepted hits of the groups, in order.
fn accept_groups(
    anchors: &Vec<(String, RadarBucket)>,
    p: &str,
    project: &str,
    groups: &Vec<(i64, Vec<(String, RadarCardRef)>)>,
    strong_ids: &Vec<i64>,
) -> (r: Vec<RadarHit>)
    requires
        table_well_formed(anchors_view(anchors@)),
        pairs_known(anchors_view(anchors@), groups_view(groups@)),
        any_weak(groups_view(groups@)) ==> forall|id: i64| #[trigger] strong_ids@.contains(id) == project_strong(anchors_view(anchors@), p@, id),
    ensures
        hits_view(r@) == accepted(anchors_view(anchors@), p@, project@, groups_view(groups@)),
{
    let ghost am = anchors_view(anchors@);
    let ghost gv = groups_view(groups@);
    let mut out: Vec<RadarHit> = Vec::new();
    let mut k: usize = 0;
    while k < groups.len()
        invariant
            k <= groups@.len(),
            am == anchors_view(anchors@),
            gv == groups_view(groups@),
            table_well_formed(am),
            pairs_known(am, gv),
            any_weak(gv) ==> forall|id: i64| #[trigger] strong_ids@.contains(id) == project_strong(am, p@, id),
            hits_view(out@) == accepted(am, p@, project@, gv.take(k as int)),
        decreases groups.len() - k,
    {
        let grp = &groups[k];
        let ghost g = gv[k as int];
        assert(g == (grp.0, pairs_view(grp.1@)));
        let two = has_two_anchors(&grp.1);
        let ghost head = hits_view(out@);
        let mut j: usize = 0;
        while j < grp.1.len()
            invariant
                k < groups@.len(),
                j <= grp.1@.len(),
                am == anchors_view(anchors@),
                gv == groups_view(groups@),
                g == gv[k as int],
                grp == groups@[k as int],
                g == (grp.0, pairs_view(grp.1@)),
                table_well_formed(am),
                pairs_known(am, gv),
                two == two_anchors(pairs_view(grp.1@)),
                any_weak(gv) ==> forall|id: i64| #[trigger] strong_ids@.contains(id) == project_strong(am, p@, id),
                hits_view(out@) == head + accept_pairs(am, p@, project@, g, j as int),
            decreases grp.1.len() - j,
        {
            proof {
                assert(g.1[j as int] == (grp.1@[j as int].0@, ref_view(grp.1@[j as int].1)));
                assert(lookup(am, g.1[j as int].0) is Some);
                if !grp.1@[j as int].1.strong {
                    assert(!(g.1[j as int]).1.1);
                    assert(any_weak(gv));
                }
            }
            let h = accept_pair(anchors, p, project, grp, j, two, strong_ids);
            match h {
                Some(hit) => {
                    let ghost prev = out@;
                    out.push(hit);
                    assert(hits_view(out@) =~= hits_view(prev).push(hit_view(hit)));
                },
                None => {},
            }
            j = j + 1;
        }
        assert(gv.take(k + 1).drop_last() =~= gv.take(k as int));
        assert(gv.take(k + 1).last() == g);
        k = k + 1;
    }
    assert(gv.take(groups.len() as int) =~= gv);
    out
}

/// Whether hit `a` ranks before hit `b`.
fn ranks_before(a: &RadarHit, b: &RadarHit) -> (r: bool)
    ensures
        r == hit_before(hit_view(*a), hit_view(*b)),
{
    if a.strong != b.strong {
        return a.strong;
    }
    if a.manual != b.manual {
        return a.manual;
    }
    let la = a.anchor.as_str().unicode_len();
    let lb = b.anchor.as_str().unicode_len();
    if la != lb {
        return la > lb;
    }
    if a.id != b.id {
        return a.id < b.id;
    }
    chars_lt(&to_chars(a.anchor.as_str()), &to_chars(b.anchor.as_str()))
}

/// Inserting at position `j` is inserting by rank when `j` follows every
/// hit not ranked after `x` and precedes every one ranked after it.
proof fn lemma_insert_hit_at(sorted: Seq<HitModel>, x: HitModel, j: int)
    requires
        0 <= j <= sorted.len(),
        forall|k: int| j <= k < sorted.len() ==> hit_before(x, #[trigger] sorted[k]),
        j > 0 ==> !hit_before(x, sorted[j - 1]),
    ensures
        insert_hit(sorted, x) == sorted.take(j).push(x) + sorted.skip(j),
    decreases sorted.len(),
{
    if sorted.len() == 0 {
        assert(sorted.take(j).push(x) + sorted.skip(j) =~= seq![x]);
    } else if j == sorted.len() {
        assert(sorted.take(j).push(x) + sorted.skip(j) =~= sorted.push(x));
    } else {
        lemma_insert_hit_at(sorted.drop_last(), x, j);
        assert(sorted.drop_last().take(j) =~= sorted.take(j));
        assert((sorted.take(j).push(x) + sorted.drop_last().skip(j)).push(sorted.last()) =~= sorted.take(j).push(x)
            + sorted.skip(j));
    }
}

/// The hits in rank order, ties kept in their given order.
fn rank_order(items: Vec<RadarHit>) -> (r: Vec<RadarHit>)
    ensures
        hits_view(r@) == rank_hits(hits_view(items@)),
{
    let ghost iv = hits_view(items@);
    let n = items.len();
    let mut rest = items;
    let mut sorted: Vec<RadarHit> = Vec::new();
    let mut i: usize = 0;
    while rest.len() > 0
        invariant
            i <= n,
            iv.len() == n,
            rest@.len() == n - i,
            hits_view(rest@) == iv.skip(i as int),
            hits_view(sorted@) == rank_hits(iv.take(i as int)),
        decreases rest.len(),
    {
        let ghost rv = rest@;
        let item = rest.remove(0);
        assert(hits_view(rest@) =~= iv.skip(i + 1)) by {
            assert(rest@ =~= rv.skip(1));
            assert forall|k: int| 0 <= k < rest@.len() implies #[trigger] hits_view(rest@)[k] == iv.skip(i + 1)[k] by {
                assert(hits_view(rest@)[k] == hits_view(rv)[k + 1]);
            }
        }
        assert(hit_view(item) == iv[i as int]) by {
            assert(hits_view(rv)[0] == iv.skip(i as int)[0]);
        }
        let ghost before = hits_view(sorted@);
        let mut j = sorted.len();
        while j > 0 && ranks_before(&item, &sorted[j - 1])
            invariant
                j <= sorted@.len(),
                before == hits_view(sorted@),
                forall|k: int| j <= k < before.len() ==> hit_before(hit_view(item), #[trigger] before[k]),
            decreases j,
        {
            j = j - 1;
        }
        proof {
            lemma_insert_hit_at(before, hit_view(item), j as int);
            assert(iv.take(i + 1).drop_last() =~= iv.take(i as int));
            assert(iv.take(i + 1).last() == iv[i as int]);
        }
        sorted.insert(j, item);
        assert(hits_view(sorted@) =~= before.take(j as int).push(hit_view(item)) + before.skip(j as int));
        i = i + 1;
    }
    assert(iv.take(n as int) =~= iv);
    sorted
}

/// The first hit of each card, in order.
fn first_of_each_card(items: Vec<RadarHit>) -> (r: Vec<RadarHit>)
    ensures
        hits_view(r@) == first_per_card(hits_view(items@)),
{
    let ghost iv = hits_view(items@);
    let n = items.len();
    let mut rest = items;
    let mut out: Vec<RadarHit> = Vec::new();
    let mut i: usize = 0;
    while rest.len() > 0
        invariant
            i <= n,
            iv.len() == n,
            rest@.len() == n - i,
            hits_view(rest@) == iv.skip(i as int),
            hits_view(out@) == first_per_card(iv.take(i as int)),
        decreases rest.len(),
    {
        let ghost rv = rest@;
        let item = rest.remove(0);
        assert(hits_view(rest@) =~= iv.skip(i + 1)) by {
            assert(rest@ =~= rv.skip(1));
            assert forall|k: int| 0 <= k < rest@.len() implies #[trigger] hits_view(rest@)[k] == iv.skip(i + 1)[k] by {
                assert(hits_view(rest@)[k] == hits_view(rv)[k + 1]);
            }
        }
        assert(hit_view(item) == iv[i as int]) by {
            assert(hits_view(rv)[0] == iv.skip(i as int)[0]);
        }
        let ghost before = hits_view(out@);
        assert(iv.take(i + 1).drop_last() =~= iv.take(i as int));
        assert(iv.take(i + 1).last() == iv[i as int]);
        let mut k: usize = 0;
        let mut seen = false;
        while k < out.len()
            invariant
                k <= out@.len(),
                before == hits_view(out@),
                seen == exists|x: int| 0 <= x < k && (#[trigger] before[x]).2 == item.id,
            decreases out.len() - k,
        {
            if out[k].id == item.id {
                assert(before[k as int].2 == item.id);
                seen = true;
            }
            k = k + 1;
        }
        if !seen {
            out.push(item);
            assert(hits_view(out@) =~= before.push(hit_view(item)));
        }
        i = i + 1;
    }
    assert(iv.take(n as int) =~= iv);
    out
}

/// A transition found in a row is one of its targets.
proof fn lemma_find_key_target(row: Seq<(char, u32)>, ch: char)
    ensures
        find_key(row, ch) matches Some(v) ==> exists|k: int| 0 <= k < row.len() && (#[trigger] row[k]).1 == v,
    decreases row.len(),
{
    if row.len() > 0 && row[0].0 != ch {
        lemma_find_key_target(row.drop_first(), ch);
        if let Some(v) = find_key(row, ch) {
            let k = choose|k: int| 0 <= k < row.drop_first().len() && (#[trigger] row.drop_first()[k]).1 == v;
            assert(row[k + 1].1 == v);
        }
    } else if row.len() > 0 {
        assert(row[0].1 == find_key(row, ch).unwrap());
    }
}

/// Failure chasing stays among the states.
proof fn lemma_chase_range(ac: AhoCorasick, node: int, ch: char)
    requires
        ac.well_formed(),
        0 <= node < ac.goto@.len(),
    ensures
        0 <= ac.chase(node, ch) < ac.goto@.len(),
    decreases ac.rank()[node],
{
    let r = ac.rank();
    assert(ac.ranked_by(r));
    if !(node == 0 || ac.trans(node, ch) is Some) {
        let f = ac.fail@[node] as int;
        assert(r[f] < r[node]);
        lemma_chase_range(ac, f, ch);
    }
}

/// Every state the automaton reaches is a state.
proof fn lemma_state_after_range(ac: AhoCorasick, text: Seq<char>, i: nat)
    requires
        ac.well_formed(),
    ensures
        0 <= ac.state_after(text, i) < ac.goto@.len(),
    decreases i,
{
    if i > 0 {
        lemma_state_after_range(ac, text, (i - 1) as nat);
        let prev = ac.state_after(text, (i - 1) as nat);
        let ch = text[i - 1];
        lemma_chase_range(ac, prev, ch);
        let c = ac.chase(prev, ch);
        lemma_find_key_target(ac.goto@[c]@, ch);
        if let Some(v) = ac.trans(c, ch) {
            let k = choose|k: int| 0 <= k < ac.goto@[c]@.len() && (#[trigger] ac.goto@[c]@[k]).1 == v;
            assert(ac.goto@[c]@[k].1 < ac.goto@.len());
        }
    }
}

/// Every word the automaton finds is non-empty.
proof fn lemma_found_nonempty(ac: AhoCorasick, text: Seq<char>, w: Seq<char>)
    requires
        ac.well_formed(),
        words_nonempty(ac),
        ac.found_within(text, text.len()).contains(w),
    ensures
        w.len() > 0,
{
    let j = choose|j: int| 1 <= j <= text.len() && views(ac.out@[#[trigger] ac.state_after(text, j as nat)]@).contains(w);
    let s = ac.state_after(text, j as nat);
    lemma_state_after_range(ac, text, j as nat);
    let k = choose|k: int| 0 <= k < views(ac.out@[s]@).len() && views(ac.out@[s]@)[k] == w;
    assert(ac.out@[s]@[k]@ == w);
}

/// The radar hits of `text` seen from `project`: the anchors the automaton
/// finds in the normalized text and confirms by presence, grouped by card
/// in order of anchor; strong references are kept when their scope is
/// visible, weak ones only when also corroborated by scope, by a second
/// anchor or by a strong anchor of the project; ranked strong first, then
/// manual, then by longer anchor, id and anchor; one hit per card.
pub fn radar_hits_from_runtime(
    anchors: &Vec<(String, RadarBucket)>,
    ac: &AhoCorasick,
    text: &str,
    project: &str,
    candidate_limit: Option<usize>,
    deadline: Option<Instant>,
) -> (r: Result<Vec<RadarHit>, Error>)
    requires
        table_well_formed(anchors_view(anchors@)),
        ac.well_formed(),
        words_nonempty(*ac),
    ensures
        r matches Ok(h) ==> radar_hits(anchors_view(anchors@), *ac, text@, project@, candidate_limit) == Ok::<
            Seq<HitModel>,
            HitsFault,
        >(hits_view(h@)),
        r matches Err(e) ==> (e is HookDeadlineExceeded && deadline is Some) || (radar_hits(
            anchors_view(anchors@),
            *ac,
            text@,
            project@,
            candidate_limit,
        ) matches Err(f) && fault_error(f, e)),
{
    let ghost am = anchors_view(anchors@);
    if anchors.len() == 0 {
        let empty: Vec<RadarHit> = Vec::new();
        assert(hits_view(empty@) =~= Seq::<HitModel>::empty());
        return Ok(empty);
    }
    let normalized = normalize_text(text);
    let p = normalize_text(project);
    let scanned = ac.scan(normalized.as_str(), deadline)?;
    proof {
        assert forall|k: int| 0 <= k < scanned@.len() implies (#[trigger] scanned@[k])@.len() > 0 by {
            assert(views(scanned@)[k] == scanned@[k]@);
            assert(views(scanned@).to_set().contains(scanned@[k]@));
            lemma_found_nonempty(*ac, normalized@, scanned@[k]@);
        }
    }
    let raw = confirm_sorted(&scanned, normalized.as_str(), &deadline)?;
    proof {
        assert(views(scanned@).to_set().filter(|a: Seq<char>| anchor_present_seq(a, normalized@)) == raw_set(*ac, normalized@));
        lemma_listing_unique(views(raw@), raw_hits(*ac, normalized@), raw_set(*ac, normalized@));
    }
    let groups = group_by_card(anchors, &raw, candidate_limit, &deadline)?;
    let strong_ids = if p.as_str().unicode_len() > 0 && has_weak(&groups) {
        project_strong_ids(anchors, p.as_str(), &deadline)?
    } else {
        Vec::new()
    };
    proof {
        if any_weak(groups_view(groups@)) && p@.len() == 0 {
            assert forall|id: i64| #[trigger] strong_ids@.contains(id) == project_strong(am, p@, id) by {
                assert(strong_ids@ =~= Seq::<i64>::empty());
            }
        }
    }
    let hits = accept_groups(anchors, p.as_str(), project, &groups, &strong_ids);
    let ranked = rank_order(hits);
    Ok(first_of_each_card(ranked))
}

proof fn lemma_first_per_card_distinct(items: Seq<HitModel>)
    ensures
        forall|i: int, j: int| 0 <= i < j < first_per_card(items).len() ==> (#[trigger] first_per_card(items)[i]).2
            != (#[trigger] first_per_card(items)[j]).2,
    decreases items.len(),
{
    if items.len() > 0 {
        lemma_first_per_card_distinct(items.drop_last());
        let prev = first_per_card(items.drop_last());
        let r = first_per_card(items);
        if !(exists|k: int| 0 <= k < prev.len() && (#[trigger] prev[k]).2 == items.last().2) {
            assert forall|i: int, j: int| 0 <= i < j < r.len() implies (#[trigger] r[i]).2 != (#[trigger] r[j]).2 by {
                if j == prev.len() {
                    assert(r[i] == prev[i]);
                } else {
                    assert(r[i] == prev[i] && r[j] == prev[j]);
                }
            }
        }
    }
}

/// One hit per card: the hits of a text never name a card twice.
pub proof fn law_one_hit_per_card(
    am: Seq<(Seq<char>, BucketModel)>,
    ac: AhoCorasick,
    text: Seq<char>,
    project: Seq<char>,
    limit: Option<usize>,
)
    ensures
        radar_hits(am, ac, text, project, limit) matches Ok(h) ==> forall|i: int, j: int|
            0 <= i < j < h.len() ==> (#[trigger] h[i]).2 != (#[trigger] h[j]).2,
{
    if am.len() > 0 {
        let n = normalize_seq(text);
        let p = normalize_seq(project);
        if let Ok(gs) = group_all(am, raw_hits(ac, n), limit) {
            lemma_first_per_card_distinct(rank_hits(accepted(am, p, project, gs)));
        }
    }
}

/// Only visible cards are hit: every hit's scope is visible from the
/// project.
pub proof fn law_hits_are_visible(
    am: Seq<(Seq<char>, BucketModel)>,
    ac: AhoCorasick,
    text: Seq<char>,
    project: Seq<char>,
    limit: Option<usize>,
)
    ensures
        radar_hits(am, ac, text, project, limit) matches Ok(h) ==> forall|i: int|
            0 <= i < h.len() ==> scope_visible_seq(#[trigger] h[i].6, project),
{
    if am.len() > 0 {
        let n = normalize_seq(text);
        let p = normalize_seq(project);
        if let Ok(gs) = group_all(am, raw_hits(ac, n), limit) {
            let acc = accepted(am, p, project, gs);
            lemma_accepted_visible(am, p, project, gs);
            lemma_rank_keeps(acc);
            lemma_first_keeps(rank_hits(acc));
        }
    }
}

proof fn lemma_accept_pairs_visible(am: Seq<(Seq<char>, BucketModel)>, p: Seq<char>, project: Seq<char>, g: GroupModel, n: int)
    ensures
        forall|i: int| 0 <= i < accept_pairs(am, p, project, g, n).len() ==> scope_visible_seq(
            #[trigger] accept_pairs(am, p, project, g, n)[i].6,
            project,
        ),
    decreases n,
{
    if n > 0 {
        lemma_accept_pairs_visible(am, p, project, g, n - 1);
        let prev = accept_pairs(am, p, project, g, n - 1);
        let r = accept_pairs(am, p, project, g, n);
        match accept(am, p, project, g, g.1[n - 1]) {
            Some(h) => {
                assert(scope_visible_seq(h.6, project));
                assert forall|i: int| 0 <= i < r.len() implies scope_visible_seq(#[trigger] r[i].6, project) by {
                    if i < prev.len() {
                        assert(r[i] == prev[i]);
                    } else {
                        assert(r[i] == h);
                    }
                }
            },
            None => {},
        }
    }
}

proof fn lemma_accepted_visible(am: Seq<(Seq<char>, BucketModel)>, p: Seq<char>, project: Seq<char>, gs: Seq<GroupModel>)
    ensures
        forall|i: int| 0 <= i < accepted(am, p, project, gs).len() ==> scope_visible_seq(
            #[trigger] accepted(am, p, project, gs)[i].6,
            project,
        ),
    decreases gs.len(),
{
    if gs.len() > 0 {
        lemma_accepted_visible(am, p, project, gs.drop_last());
        let a = accepted(am, p, project, gs.drop_last());
        let b = accept_pairs(am, p, project, gs.last(), gs.last().1.len() as int);
        lemma_accept_pairs_visible(am, p, project, gs.last(), gs.last().1.len() as int);
        assert forall|i: int| 0 <= i < (a + b).len() implies scope_visible_seq(#[trigger] (a + b)[i].6, project) by {
            if i < a.len() {
                assert((a + b)[i] == a[i]);
            } else {
                assert((a + b)[i] == b[i - a.len()]);
            }
        }
    }
}

/// Ranking keeps every hit and adds none.
proof fn lemma_rank_keeps(items: Seq<HitModel>)
    ensures
        forall|i: int| 0 <= i < rank_hits(items).len() ==> exists|j: int| 0 <= j < items.len() && #[trigger] rank_hits(items)[i] == items[j],
    decreases items.len(),
{
    if items.len() > 0 {
        lemma_rank_keeps(items.drop_last());
        let prev = rank_hits(items.drop_last());
        let x = items.last();
        let k = lemma_insert_hit_shape(prev, x);
        let r = rank_hits(items);
        assert forall|i: int| 0 <= i < r.len() implies exists|j: int| 0 <= j < items.len() && #[trigger] r[i] == items[j] by {
            if i < k {
                assert(r[i] == prev[i]);
                let j = choose|j: int| 0 <= j < items.drop_last().len() && prev[i] == items.drop_last()[j];
                assert(items[j] == items.drop_last()[j]);
            } else if i == k {
                assert(r[i] == items[items.len() - 1]);
            } else {
                assert(r[i] == prev[i - 1]);
                let j = choose|j: int| 0 <= j < items.drop_last().len() && prev[i - 1] == items.drop_last()[j];
                assert(items[j] == items.drop_last()[j]);
            }
        }
    }
}

proof fn lemma_insert_hit_shape(sorted: Seq<HitModel>, x: HitModel) -> (j: int)
    ensures
        0 <= j <= sorted.len(),
        insert_hit(sorted, x) == sorted.take(j).push(x) + sorted.skip(j),
    decreases sorted.len(),
{
    if sorted.len() == 0 {
        assert(sorted.take(0).push(x) + sorted.skip(0) =~= seq![x]);
        0
    } else if hit_before(x, sorted.last()) {
        let j = lemma_insert_hit_shape(sorted.drop_last(), x);
        assert(sorted.drop_last().take(j) =~= sorted.take(j));
        assert((sorted.take(j).push(x) + sorted.drop_last().skip(j)).push(sorted.last()) =~= sorted.take(j).push(x)
            + sorted.skip(j));
        j
    } else {
        assert(sorted.take(sorted.len() as int).push(x) + sorted.skip(sorted.len() as int) =~= sorted.push(x));
        sorted.len() as int
    }
}

/// Keeping the first hit of each card keeps only given hits.
proof fn lemma_first_keeps(items: Seq<HitModel>)
    ensures
        forall|i: int| 0 <= i < first_per_card(items).len() ==> exists|j: int| 0 <= j < items.len() && #[trigger] first_per_card(items)[i] == items[j],
    decreases items.len(),
{
    if items.len() > 0 {
        lemma_first_keeps(items.drop_last());
        let prev = first_per_card(items.drop_last());
        let r = first_per_card(items);
        assert forall|i: int| 0 <= i < r.len() implies exists|j: int| 0 <= j < items.len() && #[trigger] r[i] == items[j] by {
            if i < prev.len() {
                assert(r[i] == prev[i]);
                let j = choose|j: int| 0 <= j < items.drop_last().len() && prev[i] == items.drop_last()[j];
                assert(items[j] == items.drop_last()[j]);
            } else {
                assert(r[i] == items[items.len() - 1]);
            }
        }
    }
}
/// No hit of `s` ranks before an earlier one.
pub open spec fn hits_ranked(s: Seq<HitModel>) -> bool {
    forall|p: int, q: int| 0 <= p < q < s.len() ==> !hit_before(#[trigger] s[q], #[trigger] s[p])
}

proof fn lemma_hit_before_asymmetric(a: HitModel, b: HitModel)
    requires
        hit_before(a, b),
    ensures
        !hit_before(b, a),
{
    if a.3 == b.3 && a.5 == b.5 && a.0.len() == b.0.len() && a.2 == b.2 {
        lemma_seq_lt_asymmetric(a.0, b.0);
    }
}

proof fn lemma_hit_before_split(a: HitModel, b: HitModel, c: HitModel)
    requires
        hit_before(a, c),
    ensures
        hit_before(a, b) || hit_before(b, c),
{
    if a.3 == b.3 && b.3 == c.3 && a.5 == b.5 && b.5 == c.5 && a.0.len() == b.0.len() && b.0.len() == c.0.len() && a.2
        == b.2 && b.2 == c.2 {
        lemma_seq_lt_total(a.0, b.0);
        if seq_lt(b.0, a.0) {
            lemma_seq_lt_transitive(b.0, a.0, c.0);
        }
    }
}

proof fn lemma_insert_hit_ranked(sorted: Seq<HitModel>, x: HitModel)
    requires
        hits_ranked(sorted),
    ensures
        hits_ranked(insert_hit(sorted, x)),
    decreases sorted.len(),
{
    if sorted.len() > 0 {
        let n = sorted.len() - 1;
        let last = sorted.last();
        let rest = sorted.drop_last();
        if hit_before(x, last) {
            assert(hits_ranked(rest)) by {
                assert forall|p: int, q: int| 0 <= p < q < rest.len() implies !hit_before(#[trigger] rest[q], #[trigger] rest[p]) by {
                    assert(rest[q] == sorted[q] && rest[p] == sorted[p]);
                }
            }
            lemma_insert_hit_ranked(rest, x);
            let mid = insert_hit(rest, x);
            let j = lemma_insert_hit_shape(rest, x);
            let r = insert_hit(sorted, x);
            assert(r == mid.push(last));
            assert forall|p: int, q: int| 0 <= p < q < r.len() implies !hit_before(#[trigger] r[q], #[trigger] r[p]) by {
                if q < mid.len() {
                    assert(r[q] == mid[q] && r[p] == mid[p]);
                } else {
                    assert(r[q] == last);
                    assert(r[p] == mid[p]);
                    if p < j {
                        assert(mid[p] == rest[p]);
                        assert(rest[p] == sorted[p]);
                    } else if p == j {
                        assert(mid[p] == x);
                        lemma_hit_before_asymmetric(x, last);
                    } else {
                        assert(mid[p] == rest[p - 1]);
                        assert(rest[p - 1] == sorted[p - 1]);
                    }
                }
            }
        } else {
            let r = insert_hit(sorted, x);
            assert(r == sorted.push(x));
            assert forall|p: int, q: int| 0 <= p < q < r.len() implies !hit_before(#[trigger] r[q], #[trigger] r[p]) by {
                if q < sorted.len() {
                    assert(r[q] == sorted[q] && r[p] == sorted[p]);
                } else {
                    assert(r[q] == x && r[p] == sorted[p]);
                    if p < n && hit_before(x, sorted[p]) {
                        lemma_hit_before_split(x, last, sorted[p]);
                        assert(!hit_before(sorted[n], sorted[p]));
                    }
                }
            }
        }
    }
}

proof fn lemma_rank_hits_ranked(items: Seq<HitModel>)
    ensures
        hits_ranked(rank_hits(items)),
    decreases items.len(),
{
    if items.len() > 0 {
        lemma_rank_hits_ranked(items.drop_last());
        lemma_insert_hit_ranked(rank_hits(items.drop_last()), items.last());
    }
}

proof fn lemma_first_per_card_ranked(items: Seq<HitModel>)
    requires
        hits_ranked(items),
    ensures
        hits_ranked(first_per_card(items)),
    decreases items.len(),
{
    if items.len() > 0 {
        let rest = items.drop_last();
        assert(hits_ranked(rest)) by {
            assert forall|p: int, q: int| 0 <= p < q < rest.len() implies !hit_before(#[trigger] rest[q], #[trigger] rest[p]) by {
                assert(rest[q] == items[q] && rest[p] == items[p]);
            }
        }
        lemma_first_per_card_ranked(rest);
        lemma_first_keeps(rest);
        let prev = first_per_card(rest);
        let r = first_per_card(items);
        if r != prev {
            assert(r == prev.push(items.last()));
            assert forall|p: int, q: int| 0 <= p < q < r.len() implies !hit_before(#[trigger] r[q], #[trigger] r[p]) by {
                if q < prev.len() {
                    assert(r[q] == prev[q] && r[p] == prev[p]);
                } else {
                    assert(r[p] == prev[p]);
                    let j = choose|j: int| 0 <= j < rest.len() && prev[p] == rest[j];
                    assert(rest[j] == items[j]);
                    assert(r[q] == items[items.len() - 1]);
                }
            }
        }
    }
}

/// Ranking orders hits strong first, then manual, then by longer anchor:
/// of two ranked hits, the later is never stronger, never manual when the
/// earlier is not (at equal strength), and never has a longer anchor at
/// equal strength and manual flag.
pub proof fn law_rank_prefers_longer_anchors(items: Seq<HitModel>)
    ensures
        forall|p: int, q: int|
            0 <= p < q < rank_hits(items).len() ==> {
                let a = #[trigger] rank_hits(items)[p];
                let b = #[trigger] rank_hits(items)[q];
                &&& b.3 ==> a.3
                &&& a.3 == b.3 && b.5 ==> a.5
                &&& a.3 == b.3 && a.5 == b.5 ==> a.0.len() >= b.0.len()
            },
{
    lemma_rank_hits_ranked(items);
}

/// The radar's hits come strong first, then manual, then by longer anchor:
/// of two returned hits, the later is never stronger, never manual when the
/// earlier is not (at equal strength), and never has a longer anchor at
/// equal strength and manual flag.
pub proof fn law_radar_hits_prefer_longer_anchors(
    am: Seq<(Seq<char>, BucketModel)>,
    ac: AhoCorasick,
    text: Seq<char>,
    project: Seq<char>,
    limit: Option<usize>,
)
    ensures
        radar_hits(am, ac, text, project, limit) matches Ok(h) ==> forall|p: int, q: int|
            0 <= p < q < h.len() ==> {
                let a = #[trigger] h[p];
                let b = #[trigger] h[q];
                &&& b.3 ==> a.3
                &&& a.3 == b.3 && b.5 ==> a.5
                &&& a.3 == b.3 && a.5 == b.5 ==> a.0.len() >= b.0.len()
            },
{
    if am.len() > 0 {
        let n = normalize_seq(text);
        let p = normalize_seq(project);
        if let Ok(gs) = group_all(am, raw_hits(ac, n), limit) {
            let acc = accepted(am, p, project, gs);
            lemma_rank_hits_ranked(acc);
            lemma_first_per_card_ranked(rank_hits(acc));
        }
    }
}

proof fn lemma_rank_contains(items: Seq<HitModel>)
    ensures
        forall|j: int| 0 <= j < items.len() ==> exists|i: int| 0 <= i < rank_hits(items).len() && rank_hits(items)[i] == #[trigger] items[j],
    decreases items.len(),
{
    if items.len() > 0 {
        let rest = items.drop_last();
        lemma_rank_contains(rest);
        let prev = rank_hits(rest);
        let x = items.last();
        let k = lemma_insert_hit_shape(prev, x);
        let r = rank_hits(items);
        assert(r == prev.take(k).push(x) + prev.skip(k));
        assert forall|j: int| 0 <= j < items.len() implies exists|i: int| 0 <= i < r.len() && r[i] == #[trigger] items[j] by {
            if j == items.len() - 1 {
                assert(r[k] == x);
            } else {
                assert(rest[j] == items[j]);
                let i = choose|i: int| 0 <= i < prev.len() && prev[i] == #[trigger] rest[j];
                if i < k {
                    assert(r[i] == prev[i]);
                } else {
                    assert(r[i + 1] == prev[i]);
                }
            }
        }
    }
}

/// Whether some hit of `s` is of card `id`.
pub open spec fn has_card(s: Seq<HitModel>, id: i64) -> bool {
    exists|i: int| 0 <= i < s.len() && (#[trigger] s[i]).2 == id
}

/// No hit before position `j` is of the card of hit `j`.
#[verifier::opaque]
pub open spec fn card_first_at(s: Seq<HitModel>, j: int) -> bool {
    forall|q: int| 0 <= q < j ==> (#[trigger] s[q]).2 != s[j].2
}

/// `x` is the first hit of its card in `s`.
pub open spec fn first_of_its_card(s: Seq<HitModel>, x: HitModel) -> bool {
    exists|j: int| 0 <= j < s.len() && s[j] == x && #[trigger] card_first_at(s, j)
}

/// Every card of `items` keeps a hit in `first_per_card(items)`.
proof fn lemma_first_per_card_covers(items: Seq<HitModel>)
    ensures
        forall|q: int| 0 <= q < items.len() ==> has_card(first_per_card(items), (#[trigger] items[q]).2),
    decreases items.len(),
{
    if items.len() > 0 {
        let rest = items.drop_last();
        lemma_first_per_card_covers(rest);
        let prev = first_per_card(rest);
        let r = first_per_card(items);
        let last = items.last();
        let n = items.len() - 1;
        assert forall|q: int| 0 <= q < items.len() implies has_card(r, (#[trigger] items[q]).2) by {
            if q < n {
                assert(rest[q] == items[q]);
                assert(has_card(prev, rest[q].2));
                let i = choose|i: int| 0 <= i < prev.len() && (#[trigger] prev[i]).2 == rest[q].2;
                assert(r[i] == prev[i]);
            } else if has_card(prev, last.2) {
                let k = choose|k: int| 0 <= k < prev.len() && (#[trigger] prev[k]).2 == last.2;
                assert(r[k] == prev[k]);
            } else {
                assert(r[prev.len() as int] == last);
            }
        }
    }
}

/// Each hit kept by `first_per_card` is the first of its card.
proof fn lemma_first_per_card_first(items: Seq<HitModel>)
    ensures
        forall|i: int| 0 <= i < first_per_card(items).len() ==> first_of_its_card(items, #[trigger] first_per_card(items)[i]),
    decreases items.len(),
{
    if items.len() > 0 {
        let rest = items.drop_last();
        lemma_first_per_card_first(rest);
        lemma_first_per_card_covers(rest);
        let prev = first_per_card(rest);
        let r = first_per_card(items);
        let last = items.last();
        let n = items.len() - 1;
        assert forall|i: int| 0 <= i < r.len() implies first_of_its_card(items, #[trigger] r[i]) by {
            if i < prev.len() {
                assert(r[i] == prev[i]);
                assert(first_of_its_card(rest, prev[i]));
                let j = choose|j: int| 0 <= j < rest.len() && rest[j] == prev[i] && #[trigger] card_first_at(rest, j);
                assert(items[j] == rest[j]);
                assert(card_first_at(items, j)) by {
                    reveal(card_first_at);
                    assert forall|q: int| 0 <= q < j implies (#[trigger] items[q]).2 != items[j].2 by {
                        assert(rest[q] == items[q]);
                    }
                }
            } else {
                assert(!has_card(prev, last.2));
                assert(r[i] == last);
                assert(card_first_at(items, n)) by {
                    reveal(card_first_at);
                    assert forall|q: int| 0 <= q < n implies (#[trigger] items[q]).2 != items[n].2 by {
                        assert(rest[q] == items[q]);
                        assert(has_card(prev, rest[q].2));
                    }
                }
            }
        }
    }
}

/// Each card's kept hit is its best accepted hit: no accepted hit of the
/// card is stronger, none is manual at equal strength when the kept one is
/// not, and none at equal strength and manual flag has a longer anchor.
pub proof fn law_radar_keeps_longest_anchor(
    am: Seq<(Seq<char>, BucketModel)>,
    ac: AhoCorasick,
    text: Seq<char>,
    project: Seq<char>,
    limit: Option<usize>,
)
    ensures
        ({
            let n = normalize_seq(text);
            let p = normalize_seq(project);
            radar_hits(am, ac, text, project, limit) matches Ok(h) ==> (am.len() > 0 ==> (group_all(am, raw_hits(ac, n), limit) matches Ok(
                gs,
            ) ==> forall|i: int, k: int|
                0 <= i < h.len() && 0 <= k < accepted(am, p, project, gs).len() && (#[trigger] accepted(am, p, project, gs)[k]).2
                    == (#[trigger] h[i]).2 ==> {
                    let x = accepted(am, p, project, gs)[k];
                    &&& x.3 ==> h[i].3
                    &&& x.3 == h[i].3 && x.5 ==> h[i].5
                    &&& x.3 == h[i].3 && x.5 == h[i].5 ==> h[i].0.len() >= x.0.len()
                }))
        }),
{
    if am.len() > 0 {
        let n = normalize_seq(text);
        let p = normalize_seq(project);
        if let Ok(gs) = group_all(am, raw_hits(ac, n), limit) {
            let acc = accepted(am, p, project, gs);
            let s = rank_hits(acc);
            let h = first_per_card(s);
            lemma_rank_hits_ranked(acc);
            lemma_rank_contains(acc);
            lemma_first_per_card_first(s);
            assert forall|i: int, k: int| 0 <= i < h.len() && 0 <= k < acc.len() && (#[trigger] acc[k]).2 == (#[trigger] h[i]).2 implies {
                let x = acc[k];
                &&& x.3 ==> h[i].3
                &&& x.3 == h[i].3 && x.5 ==> h[i].5
                &&& x.3 == h[i].3 && x.5 == h[i].5 ==> h[i].0.len() >= x.0.len()
            } by {
                assert(first_of_its_card(s, h[i]));
                let j = choose|j: int| 0 <= j < s.len() && s[j] == h[i] && #[trigger] card_first_at(s, j);
                let q = choose|q: int| 0 <= q < s.len() && s[q] == #[trigger] acc[k];
                if q < j {
                    reveal(card_first_at);
                    assert(s[q].2 != s[j].2);
                } else if q > j {
                    assert(!hit_before(s[q], s[j]));
                }
            }
        }
    }
}

} // verus!
