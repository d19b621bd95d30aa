//! What the canonical entity list keeps of its input: one entity per
//! normalization key, the first one written, ordered by key.

use vstd::prelude::*;

use crate::mem::{canonical_entities_of, candidate_value, entity_candidates, lemma_candidates_keyed, seq_has, seq_lt, lemma_seq_lt_irreflexive, lemma_seq_lt_transitive};
use crate::normalize::{normalize_seq, py_strip_seq};

verus! {

/// The normalization keys of the stripped, non-empty values.
pub open spec fn entity_key_set(values: Seq<Seq<char>>) -> Set<Seq<char>> {
    Set::new(
        |k: Seq<char>|
            exists|j: int|
                0 <= j < values.len() && py_strip_seq(#[trigger] values[j]).len() > 0 && normalize_seq(py_strip_seq(values[j])) == k,
    )
}

/// The normalization keys of a list of entities.
pub open spec fn key_set_of(r: Seq<Seq<char>>) -> Set<Seq<char>> {
    Set::new(|k: Seq<char>| exists|i: int| 0 <= i < r.len() && normalize_seq(#[trigger] r[i]) == k)
}

/// Value `j` is the first written value with its key: stripped it is
/// non-empty, and no earlier non-empty value has the same key.
pub open spec fn first_with_key(values: Seq<Seq<char>>, j: int) -> bool {
    &&& 0 <= j < values.len()
    &&& py_strip_seq(values[j]).len() > 0
    &&& forall|i: int|
        0 <= i < j ==> py_strip_seq(#[trigger] values[i]).len() == 0 || normalize_seq(py_strip_seq(values[i]))
            != normalize_seq(py_strip_seq(values[j]))
}

/// `x` is the stripped form of the first value written with its key.
pub open spec fn first_origin(values: Seq<Seq<char>>, x: Seq<char>) -> bool {
    exists|j: int| #[trigger] first_with_key(values, j) && x == py_strip_seq(values[j])
}

proof fn lemma_first_extends(values: Seq<Seq<char>>, j: int)
    requires
        values.len() > 0,
        first_with_key(values.drop_last(), j),
    ensures
        first_with_key(values, j),
{
    let p = values.drop_last();
    assert(p[j] == values[j]);
    assert forall|i: int| 0 <= i < j implies py_strip_seq(#[trigger] values[i]).len() == 0 || normalize_seq(
        py_strip_seq(values[i]),
    ) != normalize_seq(py_strip_seq(values[j])) by {
        assert(p[i] == values[i]);
    }
}

proof fn lemma_candidates_origin(values: Seq<Seq<char>>)
    ensures
        forall|k: int|
            0 <= k < entity_candidates(values).len() ==> first_origin(values, (#[trigger] entity_candidates(values)[k]).1),
        forall|j: int|
            0 <= j < values.len() && py_strip_seq(#[trigger] values[j]).len() > 0 ==> exists|k: int|
                0 <= k < entity_candidates(values).len() && (#[trigger] entity_candidates(values)[k]).0 == normalize_seq(
                    py_strip_seq(values[j]),
                ),
    decreases values.len(),
{
    if values.len() > 0 {
        let p = values.drop_last();
        lemma_candidates_origin(p);
        lemma_candidates_keyed(p);
        let prev = entity_candidates(p);
        let cur = entity_candidates(values);
        let n = values.len() - 1;
        let t = py_strip_seq(values.last());
        let key = normalize_seq(t);
        let pushed = !(t.len() == 0 || exists|k: int| 0 <= k < prev.len() && (#[trigger] prev[k]).0 == key);
        assert(forall|i: int| 0 <= i < n ==> #[trigger] p[i] == values[i]);
        assert forall|k: int| 0 <= k < cur.len() implies first_origin(values, (#[trigger] cur[k]).1) by {
            if k < prev.len() {
                assert(cur[k] == prev[k]);
                assert(first_origin(p, prev[k].1));
                let j = choose|j: int| #[trigger] first_with_key(p, j) && prev[k].1 == py_strip_seq(p[j]);
                lemma_first_extends(values, j);
                assert(p[j] == values[j]);
                assert(first_with_key(values, j) && cur[k].1 == py_strip_seq(values[j]));
            } else {
                assert(pushed);
                assert(cur[k] == (key, t));
                assert forall|i: int| 0 <= i < n implies py_strip_seq(#[trigger] values[i]).len() == 0 || normalize_seq(
                    py_strip_seq(values[i]),
                ) != key by {
                    if py_strip_seq(values[i]).len() > 0 {
                        assert(p[i] == values[i]);
                        let kk = choose|kk: int|
                            0 <= kk < prev.len() && (#[trigger] prev[kk]).0 == normalize_seq(py_strip_seq(p[i]));
                        assert(prev[kk].0 != key);
                    }
                }
                assert(first_with_key(values, n));
                assert(first_with_key(values, n) && cur[k].1 == py_strip_seq(values[n]));
            }
        }
        assert forall|j: int| 0 <= j < values.len() && py_strip_seq(#[trigger] values[j]).len() > 0 implies exists|k: int|
            0 <= k < cur.len() && (#[trigger] cur[k]).0 == normalize_seq(py_strip_seq(values[j])) by {
            if j < n {
                assert(p[j] == values[j]);
                let k = choose|k: int| 0 <= k < prev.len() && (#[trigger] prev[k]).0 == normalize_seq(py_strip_seq(p[j]));
                assert(cur[k] == prev[k]);
            } else if pushed {
                assert(cur[prev.len() as int] == (key, t));
            } else {
                let k = choose|k: int| 0 <= k < prev.len() && (#[trigger] prev[k]).0 == key;
                assert(cur[k] == prev[k]);
            }
        }
    }
}

/// The canonical entity list keeps exactly one entity per key of the input:
/// its keys strictly increase, they are the keys of the stripped non-empty
/// inputs, and each entity is the stripped form of the first input written
/// with its key.
pub proof fn law_canonical_entities_keys(values: Seq<Seq<char>>, r: Seq<Seq<char>>)
    requires
        canonical_entities_of(values, r),
    ensures
        forall|i: int, j: int| 0 <= i < j < r.len() ==> seq_lt(normalize_seq(#[trigger] r[i]), normalize_seq(#[trigger] r[j])),
        key_set_of(r) == entity_key_set(values),
        forall|i: int|
            0 <= i < r.len() ==> #[trigger] first_origin(values, r[i]),
{
    lemma_entities_first(values, r);
    lemma_entity_keys_within(values, r);
    lemma_entity_keys_cover(values, r);
    assert(key_set_of(r) =~= entity_key_set(values));
}

proof fn lemma_entities_first(values: Seq<Seq<char>>, r: Seq<Seq<char>>)
    requires
        canonical_entities_of(values, r),
    ensures
        forall|i: int|
            0 <= i < r.len() ==> #[trigger] first_origin(values, r[i]),
{
    let cand = entity_candidates(values);
    lemma_candidates_origin(values);
    assert forall|i: int| 0 <= i < r.len() implies #[trigger] first_origin(values, r[i]) by {
        assert(candidate_value(cand, r[i]));
        let k = choose|k: int| 0 <= k < cand.len() && cand[k].1 == r[i];
        assert(cand[k].1 == r[i]);
        assert(first_origin(values, cand[k].1));
    }
}

proof fn lemma_entity_keys_within(values: Seq<Seq<char>>, r: Seq<Seq<char>>)
    requires
        canonical_entities_of(values, r),
    ensures
        forall|x: Seq<char>| key_set_of(r).contains(x) ==> entity_key_set(values).contains(x),
{
    lemma_entities_first(values, r);
    assert forall|x: Seq<char>| key_set_of(r).contains(x) implies entity_key_set(values).contains(x) by {
        let i = choose|i: int| 0 <= i < r.len() && normalize_seq(#[trigger] r[i]) == x;
        assert(first_origin(values, r[i]));
        let j = choose|j: int| #[trigger] first_with_key(values, j) && r[i] == py_strip_seq(values[j]);
        assert(py_strip_seq(values[j]).len() > 0 && normalize_seq(py_strip_seq(values[j])) == x);
    }
}

proof fn lemma_entity_keys_cover(values: Seq<Seq<char>>, r: Seq<Seq<char>>)
    requires
        canonical_entities_of(values, r),
    ensures
        forall|x: Seq<char>| entity_key_set(values).contains(x) ==> key_set_of(r).contains(x),
{
    let cand = entity_candidates(values);
    lemma_candidates_origin(values);
    lemma_candidates_keyed(values);
    assert forall|x: Seq<char>| entity_key_set(values).contains(x) implies key_set_of(r).contains(x) by {
        let j = choose|j: int|
            0 <= j < values.len() && py_strip_seq(#[trigger] values[j]).len() > 0 && normalize_seq(py_strip_seq(values[j])) == x;
        let k = choose|k: int| 0 <= k < cand.len() && (#[trigger] cand[k]).0 == normalize_seq(py_strip_seq(values[j]));
        assert(seq_has(r, cand[k].1));
        let i = choose|i: int| 0 <= i < r.len() && r[i] == cand[k].1;
        assert(normalize_seq(r[i]) == cand[k].0);
    }
}

/// Strictly key-sorted lists are told apart by their keys alone.
spec fn key_sorted(r: Seq<Seq<char>>) -> bool {
    forall|i: int, j: int| 0 <= i < j < r.len() ==> seq_lt(normalize_seq(#[trigger] r[i]), normalize_seq(#[trigger] r[j]))
}

proof fn lemma_key_sorted_distinct(r: Seq<Seq<char>>, i: int, j: int)
    requires
        key_sorted(r),
        0 <= i < r.len(),
        0 <= j < r.len(),
        i != j,
    ensures
        normalize_seq(r[i]) != normalize_seq(r[j]),
{
    if i < j {
        assert(seq_lt(normalize_seq(r[i]), normalize_seq(r[j])));
    } else {
        assert(seq_lt(normalize_seq(r[j]), normalize_seq(r[i])));
    }
    lemma_seq_lt_irreflexive(normalize_seq(r[i]));
}

proof fn lemma_key_sorted_prefix(a: Seq<Seq<char>>, b: Seq<Seq<char>>, i: int)
    requires
        key_sorted(a),
        key_sorted(b),
        key_set_of(a) == key_set_of(b),
        0 <= i < a.len(),
        i < b.len(),
    ensures
        normalize_seq(a[i]) == normalize_seq(b[i]),
    decreases i,
{
    assert forall|k: int| 0 <= k < i implies normalize_seq(a[k]) == normalize_seq(b[k]) by {
        lemma_key_sorted_prefix(a, b, k);
    }
    let ka = normalize_seq(a[i]);
    let kb = normalize_seq(b[i]);
    assert(key_set_of(a).contains(ka));
    assert(key_set_of(b).contains(kb));
    let j = choose|j: int| 0 <= j < b.len() && normalize_seq(#[trigger] b[j]) == ka;
    let j2 = choose|j2: int| 0 <= j2 < a.len() && normalize_seq(#[trigger] a[j2]) == kb;
    if j < i {
        assert(normalize_seq(a[j]) == normalize_seq(b[j]));
        lemma_key_sorted_distinct(a, i, j);
    }
    if j2 < i {
        assert(normalize_seq(a[j2]) == normalize_seq(b[j2]));
        lemma_key_sorted_distinct(b, i, j2);
    }
    if j > i && j2 > i {
        assert(seq_lt(kb, normalize_seq(b[j])));
        assert(seq_lt(ka, normalize_seq(a[j2])));
        lemma_seq_lt_transitive(kb, ka, kb);
        lemma_seq_lt_irreflexive(kb);
    }
}

/// Two strictly key-sorted lists with the same keys have them in the same
/// places.
pub proof fn lemma_same_keys_same_places(a: Seq<Seq<char>>, b: Seq<Seq<char>>)
    requires
        forall|i: int, j: int| 0 <= i < j < a.len() ==> seq_lt(normalize_seq(#[trigger] a[i]), normalize_seq(#[trigger] a[j])),
        forall|i: int, j: int| 0 <= i < j < b.len() ==> seq_lt(normalize_seq(#[trigger] b[i]), normalize_seq(#[trigger] b[j])),
        key_set_of(a) == key_set_of(b),
    ensures
        a.len() == b.len(),
        forall|i: int| 0 <= i < a.len() ==> normalize_seq(#[trigger] a[i]) == normalize_seq(b[i]),
{
    assert(key_sorted(a) && key_sorted(b));
    let n = if a.len() < b.len() { a.len() as int } else { b.len() as int };
    assert forall|i: int| 0 <= i < n implies normalize_seq(#[trigger] a[i]) == normalize_seq(b[i]) by {
        lemma_key_sorted_prefix(a, b, i);
    }
    if a.len() < b.len() {
        let x = normalize_seq(b[n]);
        assert(key_set_of(b).contains(x));
        let j = choose|j: int| 0 <= j < a.len() && normalize_seq(#[trigger] a[j]) == x;
        assert(normalize_seq(a[j]) == normalize_seq(b[j]));
        lemma_key_sorted_distinct(b, j, n);
    }
    if b.len() < a.len() {
        let x = normalize_seq(a[n]);
        assert(key_set_of(a).contains(x));
        let j = choose|j: int| 0 <= j < b.len() && normalize_seq(#[trigger] b[j]) == x;
        assert(normalize_seq(a[j]) == normalize_seq(b[j]));
        lemma_key_sorted_distinct(a, j, n);
    }
}

} // verus!
