//! The cache gate and the ranking of radar hints on the hook path: a cache
//! is read only when its versions match, its build completed and it was
//! built for today; the hits then become one line per published, current
//! card, strongest first.

use vstd::prelude::*;

use crate::chars::str_eq;
use crate::display::{human_radar_line, human_radar_line_seq, MetaRow};
use crate::hooks::{hook_line_ok, hook_line_valid};
use crate::mem::{date_is_current, date_is_current_seq, freshness_hundredths, freshness_hundredths_seq};
use crate::radar::RadarHit;
use crate::Error;

verus! {

broadcast use vstd::string::group_string_axioms;

/// Number of cache metadata keys that carry a version or fingerprint.
pub const CACHE_VERSION_KEYS: usize = 8;

/// The metadata keys that carry a version or fingerprint.
pub open spec fn version_key_seq(i: int) -> Seq<char> {
    if i == 0 {
        "mem_format_version"@
    } else if i == 1 {
        "cache_schema_version"@
    } else if i == 2 {
        "query_planner_version"@
    } else if i == 3 {
        "normalization_version"@
    } else if i == 4 {
        "tokenizer_version"@
    } else if i == 5 {
        "radar_compiler_version"@
    } else if i == 6 {
        "source_collection_hash_version"@
    } else {
        "sqlite_capability_fingerprint"@
    }
}

fn version_key(i: usize) -> (r: &'static str)
    requires
        i < CACHE_VERSION_KEYS,
    ensures
        r@ == version_key_seq(i as int),
{
    if i == 0 {
        "mem_format_version"
    } else if i == 1 {
        "cache_schema_version"
    } else if i == 2 {
        "query_planner_version"
    } else if i == 3 {
        "normalization_version"
    } else if i == 4 {
        "tokenizer_version"
    } else if i == 5 {
        "radar_compiler_version"
    } else if i == 6 {
        "source_collection_hash_version"
    } else {
        "sqlite_capability_fingerprint"
    }
}

/// The value of `key` in a key/value list: that of its first entry.
pub open spec fn meta_value(m: Seq<(String, String)>, key: Seq<char>) -> Option<Seq<char>>
    decreases m.len(),
{
    if m.len() == 0 {
        None
    } else if m[0].0@ == key {
        Some(m[0].1@)
    } else {
        meta_value(m.drop_first(), key)
    }
}

/// Why a cache cannot serve the hook, if it cannot: its versions differ from
/// the expected ones, its build did not complete, or it was built for another
/// day.
pub open spec fn cache_problem(meta: Seq<(String, String)>, expected: Seq<(String, String)>, today: Seq<char>) -> Option<
    Seq<char>,
> {
    if exists|i: int|
        0 <= i < CACHE_VERSION_KEYS && #[trigger] meta_value(meta, version_key_seq(i)) != meta_value(
            expected,
            version_key_seq(i),
        ) {
        Some("cache_incompatible"@)
    } else if meta_value(meta, "build_complete"@) != Some("1"@) {
        Some("cache_corrupt"@)
    } else if meta_value(meta, "effective_date"@) != Some(today) {
        Some("cache_stale"@)
    } else {
        None
    }
}

/// The value of `key` in a key/value list.
fn lookup<'a>(m: &'a Vec<(String, String)>, key: &str) -> (r: Option<&'a String>)
    ensures
        match r {
            Some(v) => meta_value(m@, key@) == Some(v@),
            None => meta_value(m@, key@) is None,
        },
{
    let mut i: usize = 0;
    assert(m@.skip(0) =~= m@);
    while i < m.len()
        invariant
            i <= m.len(),
            meta_value(m@, key@) == meta_value(m@.skip(i as int), key@),
        decreases m.len() - i,
    {
        assert(m@.skip(i as int).drop_first() =~= m@.skip(i + 1));
        if str_eq(m[i].0.as_str(), key) {
            return Some(&m[i].1);
        }
        i = i + 1;
    }
    None
}

/// The text of an optional value.
pub open spec fn opt_text(a: Option<&String>) -> Option<Seq<char>> {
    match a {
        Some(v) => Some(v@),
        None => None,
    }
}

/// Whether two optional values are the same text.
fn same_value(a: Option<&String>, b: Option<&String>) -> (r: bool)
    ensures
        r == (opt_text(a) == opt_text(b)),
{
    match (a, b) {
        (None, None) => true,
        (Some(x), Some(y)) => str_eq(x.as_str(), y.as_str()),
        _ => false,
    }
}

/// Whether the value of `key` is exactly `want`.
fn value_is(m: &Vec<(String, String)>, key: &str, want: &str) -> (r: bool)
    ensures
        r == (meta_value(m@, key@) == Some(want@)),
{
    match lookup(m, key) {
        Some(v) => str_eq(v.as_str(), want),
        None => false,
    }
}

/// Whether the hook may read a cache with metadata `meta`, given the
/// metadata this build expects and today's date: `HookUnavailable` with
/// `cache_incompatible`, `cache_corrupt` or `cache_stale` when it may not.
pub fn cache_usable(meta: &Vec<(String, String)>, expected: &Vec<(String, String)>, today: &str) -> (r: Result<(), Error>)
    ensures
        match cache_problem(meta@, expected@, today@) {
            None => r is Ok,
            Some(reason) => r matches Err(Error::HookUnavailable(x)) && x@ == reason,
        },
{
    let mut i: usize = 0;
    while i < CACHE_VERSION_KEYS
        invariant
            i <= CACHE_VERSION_KEYS,
            forall|j: int|
                0 <= j < i ==> #[trigger] meta_value(meta@, version_key_seq(j)) == meta_value(expected@, version_key_seq(j)),
        decreases CACHE_VERSION_KEYS - i,
    {
        let key = version_key(i);
        let a = lookup(meta, key);
        let b = lookup(expected, key);
        if !same_value(a, b) {
            assert(meta_value(meta@, version_key_seq(i as int)) != meta_value(expected@, version_key_seq(i as int)));
            return Err(Error::HookUnavailable(String::from_str("cache_incompatible")));
        }
        i = i + 1;
    }
    if !value_is(meta, "build_complete", "1") {
        return Err(Error::HookUnavailable(String::from_str("cache_corrupt")));
    }
    if !value_is(meta, "effective_date", today) {
        return Err(Error::HookUnavailable(String::from_str("cache_stale")));
    }
    Ok(())
}

/// `a` is a better hit than `b`: strong before weak, then manual before
/// derived.
pub open spec fn better_hit(a: RadarHit, b: RadarHit) -> bool {
    (a.strong && !b.strong) || (a.strong == b.strong && a.manual && !b.manual)
}

/// The index of the best hit of card `id` among the first `n` hits: the
/// first one of the highest quality.
pub open spec fn best_hit_upto(hits: Seq<RadarHit>, id: i64, n: int) -> Option<usize>
    decreases n,
{
    if n <= 0 {
        None
    } else {
        let prev = best_hit_upto(hits, id, n - 1);
        if hits[n - 1].id != id {
            prev
        } else {
            match prev {
                None => Some((n - 1) as usize),
                Some(k) => if better_hit(hits[n - 1], hits[k as int]) {
                    Some((n - 1) as usize)
                } else {
                    prev
                },
            }
        }
    }
}

/// The index of the row of card `id` among the first `n` rows: the last one.
pub open spec fn row_upto(rows: Seq<MetaRow>, id: i64, n: int) -> Option<usize>
    decreases n,
{
    if n <= 0 {
        None
    } else if rows[n - 1].id == id {
        Some((n - 1) as usize)
    } else {
        row_upto(rows, id, n - 1)
    }
}

/// Whether hit `k` is the first hit of its card.
pub open spec fn first_hit_of_card(hits: Seq<RadarHit>, k: int) -> bool {
    forall|j: int| 0 <= j < k ==> #[trigger] hits[j].id != hits[k].id
}

/// Whether a row may be hinted on `today`: published and within its
/// validity window.
pub open spec fn row_hintable(row: MetaRow, today: Seq<char>) -> bool {
    row.status@ == "published"@ && date_is_current_seq(today, row.valid_from@, row.valid_to@)
}

/// Hint order: a strong hit, a manual anchor, a lock, then higher
/// importance, trust and freshness, then the higher id come first.
pub open spec fn ranks_before(ra: MetaRow, ha: RadarHit, rb: MetaRow, hb: RadarHit, today: Seq<char>) -> bool {
    let fa = freshness_hundredths_seq(ra.last_used@, ra.updated@, today);
    let fb = freshness_hundredths_seq(rb.last_used@, rb.updated@, today);
    if ha.strong != hb.strong {
        ha.strong
    } else if ha.manual != hb.manual {
        ha.manual
    } else if ra.lock != rb.lock {
        ra.lock
    } else if ra.i != rb.i {
        ra.i > rb.i
    } else if ra.t != rb.t {
        ra.t > rb.t
    } else if fa != fb {
        fa > fb
    } else {
        ra.id > rb.id
    }
}

/// A (row, hit) index pair is placed before the first pair it ranks before.
pub open spec fn insert_ranked(
    x: (usize, usize),
    s: Seq<(usize, usize)>,
    rows: Seq<MetaRow>,
    hits: Seq<RadarHit>,
    today: Seq<char>,
) -> Seq<(usize, usize)>
    decreases s.len(),
{
    if s.len() == 0 {
        seq![x]
    } else if ranks_before(rows[x.0 as int], hits[x.1 as int], rows[s[0].0 as int], hits[s[0].1 as int], today) {
        seq![x] + s
    } else {
        seq![s[0]] + insert_ranked(x, s.drop_first(), rows, hits, today)
    }
}

/// The ranked (row, best hit) pairs of the hintable cards hit among the
/// first `n` hits.
pub open spec fn ranked_upto(rows: Seq<MetaRow>, hits: Seq<RadarHit>, today: Seq<char>, n: int) -> Seq<(usize, usize)>
    decreases n,
{
    if n <= 0 {
        Seq::empty()
    } else {
        let prev = ranked_upto(rows, hits, today, n - 1);
        let id = hits[n - 1].id;
        match (row_upto(rows, id, rows.len() as int), best_hit_upto(hits, id, hits.len() as int)) {
            (Some(r), Some(h)) => if first_hit_of_card(hits, n - 1) && row_hintable(rows[r as int], today) {
                insert_ranked((r, h), prev, rows, hits, today)
            } else {
                prev
            },
            _ => prev,
        }
    }
}

/// The hint lines of ranked pairs, with the lines that may not stand in a
/// hook block left out.
pub open spec fn candidate_lines(
    rows: Seq<MetaRow>,
    hits: Seq<RadarHit>,
    ranked: Seq<(usize, usize)>,
    gist_max: i64,
) -> Seq<(i64, Seq<char>)>
    decreases ranked.len(),
{
    if ranked.len() == 0 {
        Seq::empty()
    } else {
        let row = rows[ranked[0].0 as int];
        let line = human_radar_line_seq(row, hits[ranked[0].1 as int].entity@, gist_max);
        let rest = candidate_lines(rows, hits, ranked.drop_first(), gist_max);
        if hook_line_ok(line) {
            seq![(row.id, line)] + rest
        } else {
            rest
        }
    }
}

/// The hook's candidate lines for radar `hits` over the index `rows`.
pub open spec fn hook_candidates_seq(rows: Seq<MetaRow>, hits: Seq<RadarHit>, today: Seq<char>, gist_max: i64) -> Seq<
    (i64, Seq<char>),
> {
    candidate_lines(rows, hits, ranked_upto(rows, hits, today, hits.len() as int), gist_max)
}

/// The index of the best hit of card `id`.
fn best_hit(hits: &Vec<RadarHit>, id: i64) -> (r: Option<usize>)
    ensures
        r == best_hit_upto(hits@, id, hits.len() as int),
        r matches Some(k) ==> k < hits.len() && hits@[k as int].id == id,
{
    let mut best: Option<usize> = None;
    let mut n: usize = 0;
    while n < hits.len()
        invariant
            n <= hits.len(),
            best == best_hit_upto(hits@, id, n as int),
            best matches Some(k) ==> k < n && hits@[k as int].id == id,
        decreases hits.len() - n,
    {
        if hits[n].id == id {
            match best {
                None => {
                    best = Some(n);
                },
                Some(k) => {
                    let a = &hits[n];
                    let b = &hits[k];
                    if (a.strong && !b.strong) || (a.strong == b.strong && a.manual && !b.manual) {
                        best = Some(n);
                    }
                },
            }
        }
        n = n + 1;
    }
    best
}

/// The index of the row of card `id`.
fn row_of(rows: &Vec<MetaRow>, id: i64) -> (r: Option<usize>)
    ensures
        r == row_upto(rows@, id, rows.len() as int),
        r matches Some(k) ==> k < rows.len(),
{
    let mut n: usize = rows.len();
    while n > 0
        invariant
            n <= rows.len(),
            row_upto(rows@, id, rows.len() as int) == row_upto(rows@, id, n as int),
        decreases n,
    {
        if rows[n - 1].id == id {
            return Some(n - 1);
        }
        n = n - 1;
    }
    None
}

/// Whether hit `k` is the first hit of its card.
fn is_first_hit(hits: &Vec<RadarHit>, k: usize) -> (r: bool)
    requires
        k < hits.len(),
    ensures
        r == first_hit_of_card(hits@, k as int),
{
    let mut j: usize = 0;
    while j < k
        invariant
            j <= k < hits.len(),
            forall|i: int| 0 <= i < j ==> #[trigger] hits@[i].id != hits@[k as int].id,
        decreases k - j,
    {
        if hits[j].id == hits[k].id {
            return false;
        }
        j = j + 1;
    }
    true
}

/// Whether the pair `(ra, ha)` ranks before `(rb, hb)`.
fn ranks_before_exec(ra: &MetaRow, ha: &RadarHit, rb: &MetaRow, hb: &RadarHit, today: &str) -> (r: bool)
    ensures
        r == ranks_before(*ra, *ha, *rb, *hb, today@),
{
    if ha.strong != hb.strong {
        return ha.strong;
    }
    if ha.manual != hb.manual {
        return ha.manual;
    }
    if ra.lock != rb.lock {
        return ra.lock;
    }
    if ra.i != rb.i {
        return ra.i > rb.i;
    }
    if ra.t != rb.t {
        return ra.t > rb.t;
    }
    let fa = freshness_hundredths(ra.last_used.as_str(), ra.updated.as_str(), today);
    let fb = freshness_hundredths(rb.last_used.as_str(), rb.updated.as_str(), today);
    if fa != fb {
        return fa > fb;
    }
    ra.id > rb.id
}

/// Inserting at the first pair that `x` ranks before is `insert_ranked`.
proof fn lemma_insert_ranked_at(
    x: (usize, usize),
    s: Seq<(usize, usize)>,
    rows: Seq<MetaRow>,
    hits: Seq<RadarHit>,
    today: Seq<char>,
    p: int,
)
    requires
        0 <= p <= s.len(),
        forall|j: int|
            0 <= j < p ==> !ranks_before(
                rows[x.0 as int],
                hits[x.1 as int],
                rows[#[trigger] s[j].0 as int],
                hits[s[j].1 as int],
                today,
            ),
        p < s.len() ==> ranks_before(rows[x.0 as int], hits[x.1 as int], rows[s[p].0 as int], hits[s[p].1 as int], today),
    ensures
        insert_ranked(x, s, rows, hits, today) == s.insert(p, x),
    decreases s.len(),
{
    if s.len() == 0 {
        assert(s.insert(p, x) =~= seq![x]);
    } else if p == 0 {
        assert(s.insert(p, x) =~= seq![x] + s);
    } else {
        let t = s.drop_first();
        assert forall|j: int|
            0 <= j < p - 1 implies !ranks_before(
            rows[x.0 as int],
            hits[x.1 as int],
            rows[#[trigger] t[j].0 as int],
            hits[t[j].1 as int],
            today,
        ) by {
            assert(t[j] == s[j + 1]);
        }
        if p < s.len() {
            assert(t[p - 1] == s[p]);
        }
        assert(!ranks_before(rows[x.0 as int], hits[x.1 as int], rows[s[0].0 as int], hits[s[0].1 as int], today));
        lemma_insert_ranked_at(x, t, rows, hits, today, p - 1);
        assert(s.insert(p, x) =~= seq![s[0]] + t.insert(p - 1, x));
    }
}

/// Places `x` among the ranked pairs.
fn insert_pair(
    ranked: &mut Vec<(usize, usize)>,
    x: (usize, usize),
    rows: &Vec<MetaRow>,
    hits: &Vec<RadarHit>,
    today: &str,
)
    requires
        x.0 < rows.len(),
        x.1 < hits.len(),
        forall|j: int| 0 <= j < old(ranked).len() ==> (#[trigger] old(ranked)@[j]).0 < rows.len() && old(ranked)@[j].1 < hits.len(),
    ensures
        final(ranked)@ == insert_ranked(x, old(ranked)@, rows@, hits@, today@),
        forall|j: int| 0 <= j < final(ranked).len() ==> (#[trigger] final(ranked)@[j]).0 < rows.len() && final(ranked)@[j].1 < hits.len(),
{
    let mut p: usize = 0;
    while p < ranked.len()
        invariant
            p <= ranked.len(),
            x.0 < rows.len(),
            x.1 < hits.len(),
            forall|j: int| 0 <= j < ranked.len() ==> (#[trigger] ranked@[j]).0 < rows.len() && ranked@[j].1 < hits.len(),
            forall|j: int|
                0 <= j < p ==> !ranks_before(
                    rows@[x.0 as int],
                    hits@[x.1 as int],
                    rows@[#[trigger] ranked@[j].0 as int],
                    hits@[ranked@[j].1 as int],
                    today@,
                ),
        ensures
            p <= ranked.len(),
            forall|j: int|
                0 <= j < p ==> !ranks_before(
                    rows@[x.0 as int],
                    hits@[x.1 as int],
                    rows@[#[trigger] ranked@[j].0 as int],
                    hits@[ranked@[j].1 as int],
                    today@,
                ),
            p < ranked.len() ==> ranks_before(
                rows@[x.0 as int],
                hits@[x.1 as int],
                rows@[ranked@[p as int].0 as int],
                hits@[ranked@[p as int].1 as int],
                today@,
            ),
        decreases ranked.len() - p,
    {
        let (r, h) = ranked[p];
        if ranks_before_exec(&rows[x.0], &hits[x.1], &rows[r], &hits[h], today) {
            break;
        }
        p = p + 1;
    }
    proof {
        lemma_insert_ranked_at(x, ranked@, rows@, hits@, today@, p as int);
    }
    ranked.insert(p, x);
}

/// The hook's candidate lines: for each card hit by `hits` (its best hit)
/// whose row in `rows` is published and current on `today`, the radar hint
/// line, ranked strongest first; lines that may not stand in a hook block
/// are left out.
pub fn order_hook_candidates(rows: &Vec<MetaRow>, hits: &Vec<RadarHit>, today: &str, gist_max: i64) -> (r: Vec<(i64, String)>)
    ensures
        r@.map_values(|p: (i64, String)| (p.0, p.1@)) == hook_candidates_seq(rows@, hits@, today@, gist_max),
{
    let mut ranked: Vec<(usize, usize)> = Vec::new();
    let mut n: usize = 0;
    while n < hits.len()
        invariant
            n <= hits.len(),
            ranked@ == ranked_upto(rows@, hits@, today@, n as int),
            forall|j: int| 0 <= j < ranked.len() ==> (#[trigger] ranked@[j]).0 < rows.len() && ranked@[j].1 < hits.len(),
        decreases hits.len() - n,
    {
        let id = hits[n].id;
        let row = row_of(rows, id);
        let best = best_hit(hits, id);
        if let (Some(ri), Some(hi)) = (row, best) {
            if is_first_hit(hits, n) {
                let row_ref = &rows[ri];
                if str_eq(row_ref.status.as_str(), "published") && date_is_current(
                    today,
                    row_ref.valid_from.as_str(),
                    row_ref.valid_to.as_str(),
                ) {
                    insert_pair(&mut ranked, (ri, hi), rows, hits, today);
                }
            }
        }
        n = n + 1;
    }
    let mut out: Vec<(i64, String)> = Vec::new();
    let mut k: usize = 0;
    while k < ranked.len()
        invariant
            k <= ranked.len(),
            forall|j: int| 0 <= j < ranked.len() ==> (#[trigger] ranked@[j]).0 < rows.len() && ranked@[j].1 < hits.len(),
            out@.map_values(|p: (i64, String)| (p.0, p.1@)) == candidate_lines(rows@, hits@, ranked@.take(k as int), gist_max),
        decreases ranked.len() - k,
    {
        let (ri, hi) = ranked[k];
        let line = human_radar_line(&rows[ri], hits[hi].entity.as_str(), gist_max);
        let ghost before = out@.map_values(|p: (i64, String)| (p.0, p.1@));
        proof {
            assert(ranked@.take(k + 1) =~= ranked@.take(k as int).push(ranked@[k as int]));
            lemma_candidate_lines_push(rows@, hits@, ranked@.take(k as int), ranked@[k as int], gist_max);
            assert(seq![ranked@[k as int]].drop_first() =~= Seq::<(usize, usize)>::empty());
        }
        let ghost single = candidate_lines(rows@, hits@, seq![(ri, hi)], gist_max);
        proof {
            lemma_candidate_lines_single(rows@, hits@, (ri, hi), gist_max);
        }
        assert(ranked@[k as int] == (ri, hi));
        assert(line@ == human_radar_line_seq(rows@[ri as int], hits@[hi as int].entity@, gist_max));
        if hook_line_valid(line.as_str()) {
            assert(single == seq![(rows@[ri as int].id, line@)]);
            out.push((rows[ri].id, line));
            assert(out@.map_values(|p: (i64, String)| (p.0, p.1@)) =~= before + seq![(rows@[ri as int].id, line@)]);
        } else {
            assert(single == Seq::<(i64, Seq<char>)>::empty());
            assert(before + Seq::<(i64, Seq<char>)>::empty() =~= before);
        }
        k = k + 1;
    }
    assert(ranked@.take(ranked.len() as int) =~= ranked@);
    out
}

/// The lines of a single pair.
proof fn lemma_candidate_lines_single(rows: Seq<MetaRow>, hits: Seq<RadarHit>, x: (usize, usize), gist_max: i64)
    ensures
        ({
            let line = human_radar_line_seq(rows[x.0 as int], hits[x.1 as int].entity@, gist_max);
            candidate_lines(rows, hits, seq![x], gist_max) == if hook_line_ok(line) {
                seq![(rows[x.0 as int].id, line)]
            } else {
                Seq::<(i64, Seq<char>)>::empty()
            }
        }),
{
    let s = seq![x];
    assert(s.drop_first() =~= Seq::<(usize, usize)>::empty());
    assert(candidate_lines(rows, hits, s.drop_first(), gist_max) == Seq::<(i64, Seq<char>)>::empty());
    assert(seq![(rows[x.0 as int].id, human_radar_line_seq(rows[x.0 as int], hits[x.1 as int].entity@, gist_max))]
        + Seq::<(i64, Seq<char>)>::empty() =~= seq![(rows[x.0 as int].id, human_radar_line_seq(rows[x.0 as int], hits[x.1 as int].entity@, gist_max))]);
}

/// The lines of pairs followed by one more pair.
proof fn lemma_candidate_lines_push(
    rows: Seq<MetaRow>,
    hits: Seq<RadarHit>,
    s: Seq<(usize, usize)>,
    x: (usize, usize),
    gist_max: i64,
)
    ensures
        candidate_lines(rows, hits, s.push(x), gist_max) == candidate_lines(rows, hits, s, gist_max) + candidate_lines(
            rows,
            hits,
            seq![x],
            gist_max,
        ),
    decreases s.len(),
{
    if s.len() == 0 {
        assert(s.push(x) =~= seq![x]);
        assert(Seq::<(i64, Seq<char>)>::empty() + candidate_lines(rows, hits, seq![x], gist_max) =~= candidate_lines(rows, hits, seq![x], gist_max));
    } else {
        assert(s.push(x).drop_first() =~= s.drop_first().push(x));
        lemma_candidate_lines_push(rows, hits, s.drop_first(), x, gist_max);
        let head = candidate_lines(rows, hits, s, gist_max);
        assert(candidate_lines(rows, hits, s.push(x), gist_max) =~= head + candidate_lines(rows, hits, seq![x], gist_max));
    }
}

/// Whether pair `x` ranks before pair `y`.
pub open spec fn pair_before(x: (usize, usize), y: (usize, usize), rows: Seq<MetaRow>, hits: Seq<RadarHit>, today: Seq<char>) -> bool {
    ranks_before(rows[x.0 as int], hits[x.1 as int], rows[y.0 as int], hits[y.1 as int], today)
}

/// No pair of `s` ranks before an earlier one.
pub open spec fn pairs_ranked(s: Seq<(usize, usize)>, rows: Seq<MetaRow>, hits: Seq<RadarHit>, today: Seq<char>) -> bool {
    forall|p: int, q: int| 0 <= p < q < s.len() ==> !pair_before(#[trigger] s[q], #[trigger] s[p], rows, hits, today)
}

proof fn lemma_pair_before_order(
    x: (usize, usize),
    y: (usize, usize),
    z: (usize, usize),
    rows: Seq<MetaRow>,
    hits: Seq<RadarHit>,
    today: Seq<char>,
)
    ensures
        pair_before(x, y, rows, hits, today) ==> !pair_before(y, x, rows, hits, today),
        pair_before(x, y, rows, hits, today) && pair_before(y, z, rows, hits, today) ==> pair_before(x, z, rows, hits, today),
{
}

proof fn lemma_insert_ranked_members(x: (usize, usize), s: Seq<(usize, usize)>, rows: Seq<MetaRow>, hits: Seq<RadarHit>, today: Seq<char>)
    ensures
        insert_ranked(x, s, rows, hits, today).len() == s.len() + 1,
        forall|k: int|
            0 <= k < insert_ranked(x, s, rows, hits, today).len() ==> #[trigger] insert_ranked(x, s, rows, hits, today)[k] == x
                || exists|j: int| 0 <= j < s.len() && s[j] == insert_ranked(x, s, rows, hits, today)[k],
    decreases s.len(),
{
    if s.len() > 0 && !ranks_before(rows[x.0 as int], hits[x.1 as int], rows[s[0].0 as int], hits[s[0].1 as int], today) {
        let t = s.drop_first();
        lemma_insert_ranked_members(x, t, rows, hits, today);
        let r = insert_ranked(x, s, rows, hits, today);
        let m = insert_ranked(x, t, rows, hits, today);
        assert(r == seq![s[0]] + m);
        assert forall|k: int| 0 <= k < r.len() implies #[trigger] r[k] == x || exists|j: int| 0 <= j < s.len() && s[j] == r[k] by {
            if k == 0 {
                assert(s[0] == r[0]);
            } else {
                assert(r[k] == m[k - 1]);
                if m[k - 1] != x {
                    let j = choose|j: int| 0 <= j < t.len() && t[j] == m[k - 1];
                    assert(s[j + 1] == r[k]);
                }
            }
        }
    } else if s.len() > 0 {
        let r = insert_ranked(x, s, rows, hits, today);
        assert(r == seq![x] + s);
        assert forall|k: int| 0 <= k < r.len() implies #[trigger] r[k] == x || exists|j: int| 0 <= j < s.len() && s[j] == r[k] by {
            if k > 0 {
                assert(s[k - 1] == r[k]);
            }
        }
    }
}

proof fn lemma_insert_ranked_sorted(x: (usize, usize), s: Seq<(usize, usize)>, rows: Seq<MetaRow>, hits: Seq<RadarHit>, today: Seq<char>)
    requires
        pairs_ranked(s, rows, hits, today),
    ensures
        pairs_ranked(insert_ranked(x, s, rows, hits, today), rows, hits, today),
    decreases s.len(),
{
    let r = insert_ranked(x, s, rows, hits, today);
    if s.len() == 0 {
    } else if pair_before(x, s[0], rows, hits, today) {
        assert(r == seq![x] + s);
        assert forall|p: int, q: int| 0 <= p < q < r.len() implies !pair_before(#[trigger] r[q], #[trigger] r[p], rows, hits, today) by {
            if p == 0 {
                assert(r[q] == s[q - 1]);
                lemma_pair_before_order(s[q - 1], x, s[0], rows, hits, today);
                lemma_pair_before_order(x, s[0], s[0], rows, hits, today);
                if q - 1 > 0 {
                    assert(!pair_before(s[q - 1], s[0], rows, hits, today));
                }
            } else {
                assert(r[q] == s[q - 1] && r[p] == s[p - 1]);
            }
        }
    } else {
        let t = s.drop_first();
        assert(pairs_ranked(t, rows, hits, today)) by {
            assert forall|p: int, q: int| 0 <= p < q < t.len() implies !pair_before(#[trigger] t[q], #[trigger] t[p], rows, hits, today) by {
                assert(t[q] == s[q + 1] && t[p] == s[p + 1]);
            }
        }
        lemma_insert_ranked_sorted(x, t, rows, hits, today);
        lemma_insert_ranked_members(x, t, rows, hits, today);
        let m = insert_ranked(x, t, rows, hits, today);
        assert(r == seq![s[0]] + m);
        assert forall|p: int, q: int| 0 <= p < q < r.len() implies !pair_before(#[trigger] r[q], #[trigger] r[p], rows, hits, today) by {
            assert(r[q] == m[q - 1]);
            if p == 0 {
                assert(r[p] == s[0]);
                if m[q - 1] != x {
                    let j = choose|j: int| 0 <= j < t.len() && t[j] == m[q - 1];
                    assert(t[j] == s[j + 1]);
                }
            } else {
                assert(r[p] == m[p - 1]);
            }
        }
    }
}

proof fn lemma_ranked_upto_sorted(rows: Seq<MetaRow>, hits: Seq<RadarHit>, today: Seq<char>, n: int)
    ensures
        pairs_ranked(ranked_upto(rows, hits, today, n), rows, hits, today),
    decreases n,
{
    if n > 0 {
        lemma_ranked_upto_sorted(rows, hits, today, n - 1);
        let prev = ranked_upto(rows, hits, today, n - 1);
        let id = hits[n - 1].id;
        match (row_upto(rows, id, rows.len() as int), best_hit_upto(hits, id, hits.len() as int)) {
            (Some(r), Some(h)) => {
                lemma_insert_ranked_sorted((r, h), prev, rows, hits, today);
            },
            _ => {},
        }
    }
}

/// The later of two hinted cards `(rb, hb)` is never better placed than
/// the earlier `(ra, ha)`: not the strong hit when the earlier has not; at
/// equal strength not the manual anchor when the earlier has not; then not
/// the lock when the earlier has not; then not a higher importance; then
/// not a higher trust; then not a higher freshness on `today`.
pub open spec fn hint_order_kept(ra: MetaRow, ha: RadarHit, rb: MetaRow, hb: RadarHit, today: Seq<char>) -> bool {
    &&& hb.strong ==> ha.strong
    &&& ha.strong == hb.strong && hb.manual ==> ha.manual
    &&& ha.strong == hb.strong && ha.manual == hb.manual && rb.lock ==> ra.lock
    &&& ha.strong == hb.strong && ha.manual == hb.manual && ra.lock == rb.lock ==> ra.i >= rb.i
    &&& ha.strong == hb.strong && ha.manual == hb.manual && ra.lock == rb.lock && ra.i == rb.i ==> ra.t >= rb.t
    &&& ha.strong == hb.strong && ha.manual == hb.manual && ra.lock == rb.lock && ra.i == rb.i && ra.t == rb.t
        ==> freshness_hundredths_seq(ra.last_used@, ra.updated@, today) >= freshness_hundredths_seq(
        rb.last_used@,
        rb.updated@,
        today,
    )
}

/// The hinted cards are ranked: of two ranked cards the later is never
/// better placed than the earlier (see `hint_order_kept`).
pub proof fn law_hint_order(rows: Seq<MetaRow>, hits: Seq<RadarHit>, today: Seq<char>)
    ensures
        forall|p: int, q: int|
            0 <= p < q < ranked_upto(rows, hits, today, hits.len() as int).len() ==> {
                let x = #[trigger] ranked_upto(rows, hits, today, hits.len() as int)[p];
                let y = #[trigger] ranked_upto(rows, hits, today, hits.len() as int)[q];
                hint_order_kept(rows[x.0 as int], hits[x.1 as int], rows[y.0 as int], hits[y.1 as int], today)
            },
{
    lemma_ranked_upto_sorted(rows, hits, today, hits.len() as int);
}

/// Whether lines `p < q` come from ranked pairs `p2 < q2`.
pub open spec fn lines_from(out: Seq<(i64, Seq<char>)>, rows: Seq<MetaRow>, ranked: Seq<(usize, usize)>, p: int, q: int, p2: int, q2: int) -> bool {
    &&& 0 <= p2 < q2 < ranked.len()
    &&& out[p].0 == rows[ranked[p2].0 as int].id
    &&& out[q].0 == rows[ranked[q2].0 as int].id
}

/// Line `k` comes from a ranked pair at `k` or later.
pub open spec fn line_at_or_after(out: Seq<(i64, Seq<char>)>, rows: Seq<MetaRow>, ranked: Seq<(usize, usize)>, k: int) -> bool {
    exists|k2: int| k <= k2 < ranked.len() && out[k].0 == rows[ranked[k2].0 as int].id
}

/// Lines `p < q` come from ranked pairs in the same order.
pub open spec fn lines_in_ranked_order(out: Seq<(i64, Seq<char>)>, rows: Seq<MetaRow>, ranked: Seq<(usize, usize)>, p: int, q: int) -> bool {
    exists|p2: int, q2: int| #[trigger] lines_from(out, rows, ranked, p, q, p2, q2)
}

proof fn lemma_lines_in_order(rows: Seq<MetaRow>, hits: Seq<RadarHit>, ranked: Seq<(usize, usize)>, gist_max: i64)
    ensures
        forall|k: int|
            0 <= k < candidate_lines(rows, hits, ranked, gist_max).len() ==> #[trigger] line_at_or_after(
                candidate_lines(rows, hits, ranked, gist_max),
                rows,
                ranked,
                k,
            ),
        forall|p: int, q: int|
            0 <= p < q < candidate_lines(rows, hits, ranked, gist_max).len() ==> #[trigger] lines_in_ranked_order(
                candidate_lines(rows, hits, ranked, gist_max),
                rows,
                ranked,
                p,
                q,
            ),
    decreases ranked.len(),
{
    let cl = candidate_lines(rows, hits, ranked, gist_max);
    if ranked.len() > 0 {
        let t = ranked.drop_first();
        lemma_lines_in_order(rows, hits, t, gist_max);
        let rest = candidate_lines(rows, hits, t, gist_max);
        let row = rows[ranked[0].0 as int];
        let line = human_radar_line_seq(row, hits[ranked[0].1 as int].entity@, gist_max);
        if hook_line_ok(line) {
            assert(cl == seq![(row.id, line)] + rest);
            assert forall|k: int| 0 <= k < cl.len() implies #[trigger] line_at_or_after(cl, rows, ranked, k) by {
                if k == 0 {
                    assert(cl[0].0 == rows[ranked[0].0 as int].id);
                } else {
                    assert(cl[k] == rest[k - 1]);
                    assert(line_at_or_after(rest, rows, t, k - 1));
                    let k2 = choose|k2: int| k - 1 <= k2 < t.len() && rest[k - 1].0 == rows[t[k2].0 as int].id;
                    assert(t[k2] == ranked[k2 + 1]);
                }
            }
            assert forall|p: int, q: int| 0 <= p < q < cl.len() implies #[trigger] lines_in_ranked_order(cl, rows, ranked, p, q) by {
                assert(cl[q] == rest[q - 1]);
                if p == 0 {
                    assert(line_at_or_after(rest, rows, t, q - 1));
                    let k2 = choose|k2: int| q - 1 <= k2 < t.len() && rest[q - 1].0 == rows[t[k2].0 as int].id;
                    assert(t[k2] == ranked[k2 + 1]);
                    assert(lines_from(cl, rows, ranked, p, q, 0, k2 + 1));
                } else {
                    assert(cl[p] == rest[p - 1]);
                    assert(lines_in_ranked_order(rest, rows, t, p - 1, q - 1));
                    let (p2, q2) = choose|p2: int, q2: int| #[trigger] lines_from(rest, rows, t, p - 1, q - 1, p2, q2);
                    assert(t[p2] == ranked[p2 + 1]);
                    assert(t[q2] == ranked[q2 + 1]);
                    assert(lines_from(cl, rows, ranked, p, q, p2 + 1, q2 + 1));
                }
            }
        } else {
            assert(cl == rest);
            assert forall|k: int| 0 <= k < cl.len() implies #[trigger] line_at_or_after(cl, rows, ranked, k) by {
                assert(line_at_or_after(rest, rows, t, k));
                let k2 = choose|k2: int| k <= k2 < t.len() && rest[k].0 == rows[t[k2].0 as int].id;
                assert(t[k2] == ranked[k2 + 1]);
            }
            assert forall|p: int, q: int| 0 <= p < q < cl.len() implies #[trigger] lines_in_ranked_order(cl, rows, ranked, p, q) by {
                assert(lines_in_ranked_order(rest, rows, t, p, q));
                let (p2, q2) = choose|p2: int, q2: int| #[trigger] lines_from(rest, rows, t, p, q, p2, q2);
                assert(t[p2] == ranked[p2 + 1]);
                assert(t[q2] == ranked[q2 + 1]);
                assert(lines_from(cl, rows, ranked, p, q, p2 + 1, q2 + 1));
            }
        }
    }
}

/// Lines `p < q` come from ranked pairs in the same order, and the later
/// card is never better placed than the earlier (see `hint_order_kept`).
pub open spec fn hint_lines_in_order(rows: Seq<MetaRow>, hits: Seq<RadarHit>, today: Seq<char>, gist_max: i64, p: int, q: int) -> bool {
    let out = hook_candidates_seq(rows, hits, today, gist_max);
    let ranked = ranked_upto(rows, hits, today, hits.len() as int);
    exists|p2: int, q2: int|
        #[trigger] lines_from(out, rows, ranked, p, q, p2, q2) && hint_order_kept(
            rows[ranked[p2].0 as int],
            hits[ranked[p2].1 as int],
            rows[ranked[q2].0 as int],
            hits[ranked[q2].1 as int],
            today,
        )
}

/// The hook's candidate lines come in hint order: two lines come from
/// ranked cards in that order, and the later card is never better placed
/// than the earlier (see `hint_order_kept`).
pub proof fn law_hook_candidates_order(rows: Seq<MetaRow>, hits: Seq<RadarHit>, today: Seq<char>, gist_max: i64)
    ensures
        forall|p: int, q: int|
            0 <= p < q < hook_candidates_seq(rows, hits, today, gist_max).len() ==> #[trigger] hint_lines_in_order(
                rows,
                hits,
                today,
                gist_max,
                p,
                q,
            ),
{
    let out = hook_candidates_seq(rows, hits, today, gist_max);
    let ranked = ranked_upto(rows, hits, today, hits.len() as int);
    lemma_lines_in_order(rows, hits, ranked, gist_max);
    law_hint_order(rows, hits, today);
    assert forall|p: int, q: int| 0 <= p < q < out.len() implies #[trigger] hint_lines_in_order(rows, hits, today, gist_max, p, q) by {
        assert(lines_in_ranked_order(out, rows, ranked, p, q));
        let (p2, q2) = choose|p2: int, q2: int| #[trigger] lines_from(out, rows, ranked, p, q, p2, q2);
        assert(ranked[p2] == ranked[p2] && ranked[q2] == ranked[q2]);
        assert(lines_from(out, rows, ranked, p, q, p2, q2));
    }
}

} // verus!
