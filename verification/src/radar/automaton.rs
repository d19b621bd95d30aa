//! The radar's matching automaton, built from the anchor keys: a trie of
//! goto edges over the keys' scalars, failure links by the longest proper
//! suffix that is also a trie path, and for each state the keys it
//! recognizes (its own, then those of its failure state).

use vstd::prelude::*;

use crate::chars::{int_text, int_to_string, push_char, slice_chars, to_chars};
use crate::radar::aho::{fail_ok, in_trie, is_suffix, keys_in, labeled, lemma_finds_keys, lemma_goto_edge, lemma_label_unique, lemma_suffix_of_suffix, lemma_suffix_trans, lemma_walk_label, m_found, outputs_exact};
use crate::json::{escape_string, json_string_literal};
use crate::{NORMALIZATION_VERSION, RADAR_COMPILER_VERSION};

verus! {

broadcast use vstd::string::group_string_axioms;

/// A built automaton: goto edges (state, scalar, next state) in creation
/// order, recognized keys (state, key index) in order, and a failure state
/// per state.
pub struct Machine {
    pub edges: Vec<(u32, char, u32)>,
    pub outputs: Vec<(u32, usize)>,
    pub fail: Vec<u32>,
}

/// The goto target of `node` on `c`: the first such edge.
pub open spec fn goto_of(edges: Seq<(u32, char, u32)>, node: int, c: char) -> Option<int>
    decreases edges.len(),
{
    if edges.len() == 0 {
        None
    } else {
        match goto_of(edges.drop_last(), node, c) {
            Some(t) => Some(t),
            None => if edges.last().0 == node && edges.last().1 == c {
                Some(edges.last().2 as int)
            } else {
                None
            },
        }
    }
}

/// The state reached from `node` along `w`, if the trie has that path.
pub open spec fn walk(edges: Seq<(u32, char, u32)>, node: int, w: Seq<char>) -> Option<int>
    decreases w.len(),
{
    if w.len() == 0 {
        Some(node)
    } else {
        match goto_of(edges, node, w[0]) {
            Some(t) => walk(edges, t, w.drop_first()),
            None => None,
        }
    }
}

/// Whether key `i` is recognized at state `v`.
pub open spec fn outputs_at(outputs: Seq<(u32, usize)>, v: int, i: int) -> bool {
    exists|k: int| 0 <= k < outputs.len() && #[trigger] outputs[k] == (v as u32, i as usize)
}

/// Whether key `j`, spelled `w`, is recognized at the end of its path.
pub open spec fn recognized(edges: Seq<(u32, char, u32)>, outputs: Seq<(u32, usize)>, w: Seq<char>, j: int) -> bool {
    walk(edges, 0, w) matches Some(v) && outputs_at(outputs, v, j)
}

/// A well-formed automaton over `keys`: every edge and failure link stays
/// within the states, no edge enters the root, every key is recognized at
/// the end of its own path, the states can be labeled by their paths with
/// each failure link going to the longest proper suffix in the trie, and
/// (the keys being non-empty) reading any text reports exactly the keys
/// that occur in it.
pub open spec fn machine_ok(m: Machine, keys: Seq<Seq<char>>) -> bool {
    let n = m.fail@.len();
    &&& 1 <= n <= u32::MAX
    &&& m.edges@.len() < n
    &&& forall|k: int| 0 <= k < m.edges@.len() ==> (#[trigger] m.edges@[k]).0 < n && 0 < m.edges@[k].2 < n
    &&& forall|s: int| 0 <= s < n ==> #[trigger] m.fail@[s] < n
    &&& forall|k: int| 0 <= k < m.outputs@.len() ==> (#[trigger] m.outputs@[k]).0 < n && m.outputs@[k].1 < keys.len()
    &&& forall|i: int|
        0 <= i < keys.len() ==> #[trigger] recognized(m.edges@, m.outputs@, keys[i], i)
    &&& exists|l: Seq<Seq<char>>| #[trigger] labeled(m.edges@, l) && fail_ok(m.edges@, l, m.fail@)
    &&& (forall|j: int| 0 <= j < keys.len() ==> (#[trigger] keys[j]).len() > 0) ==> forall|text: Seq<char>|
        #[trigger] m_found(m, keys, text) == keys_in(keys, text)
}

/// Looks up the goto target of `node` on `c`.
fn goto_get(edges: &Vec<(u32, char, u32)>, node: u32, c: char) -> (r: Option<u32>)
    ensures
        match r {
            Some(t) => goto_of(edges@, node as int, c) == Some(t as int),
            None => goto_of(edges@, node as int, c) is None,
        },
{
    let mut k: usize = 0;
    let ghost mut found: Option<int> = None;
    assert(edges@.take(0) =~= Seq::<(u32, char, u32)>::empty());
    while k < edges.len()
        invariant
            k <= edges.len(),
            goto_of(edges@.take(k as int), node as int, c) is None,
        decreases edges.len() - k,
    {
        assert(edges@.take(k + 1).drop_last() =~= edges@.take(k as int));
        if edges[k].0 == node && edges[k].1 == c {
            proof {
                lemma_goto_prefix(edges@, (k + 1) as int, node as int, c);
            }
            return Some(edges[k].2);
        }
        k = k + 1;
    }
    assert(edges@.take(edges.len() as int) =~= edges@);
    None
}

/// A target found in a prefix of the edges stays the target.
proof fn lemma_goto_prefix(edges: Seq<(u32, char, u32)>, j: int, node: int, c: char)
    requires
        0 <= j <= edges.len(),
        goto_of(edges.take(j), node, c) is Some,
    ensures
        goto_of(edges, node, c) == goto_of(edges.take(j), node, c),
    decreases edges.len() - j,
{
    if j < edges.len() {
        assert(edges.take(j + 1).drop_last() =~= edges.take(j));
        lemma_goto_prefix(edges, j + 1, node, c);
    } else {
        assert(edges.take(j) =~= edges);
    }
}

/// Pushing an edge for a pair without one leaves every existing path.
proof fn lemma_walk_push(edges: Seq<(u32, char, u32)>, e: (u32, char, u32), node: int, w: Seq<char>)
    requires
        walk(edges, node, w) is Some,
    ensures
        walk(edges.push(e), node, w) == walk(edges, node, w),
    decreases w.len(),
{
    if w.len() > 0 {
        assert(edges.push(e).drop_last() =~= edges);
        let t = goto_of(edges, node, w[0])->0;
        assert(goto_of(edges.push(e), node, w[0]) == Some(t));
        lemma_walk_push(edges, e, t, w.drop_first());
    }
}

/// Extending a path by one step.
proof fn lemma_walk_step(edges: Seq<(u32, char, u32)>, node: int, w: Seq<char>, c: char)
    requires
        walk(edges, node, w) is Some,
    ensures
        walk(edges, node, w.push(c)) == match goto_of(edges, walk(edges, node, w)->0, c) {
            Some(t) => Some(t),
            None => None::<int>,
        },
    decreases w.len(),
{
    if w.len() > 0 {
        let t = goto_of(edges, node, w[0])->0;
        assert(w.push(c)[0] == w[0]);
        assert(w.push(c).drop_first() =~= w.drop_first().push(c));
        lemma_walk_step(edges, t, w.drop_first(), c);
    } else {
        assert(w.push(c)[0] == c);
        assert(w.push(c).drop_first() =~= Seq::<char>::empty());
        if let Some(t) = goto_of(edges, node, c) {
            assert(walk(edges, t, Seq::<char>::empty()) == Some(t));
        }
    }
}

/// The scalars of a prefix of the keys are at most those of all keys.
proof fn lemma_key_chars_prefix(ks: Seq<Seq<char>>, j: int)
    requires
        0 <= j <= ks.len(),
    ensures
        key_chars(ks.take(j)) <= key_chars(ks),
    decreases ks.len() - j,
{
    if j < ks.len() {
        lemma_key_chars_prefix(ks, j + 1);
        assert(ks.take(j + 1).drop_last() =~= ks.take(j));
    } else {
        assert(ks.take(j) =~= ks);
    }
}

/// The number of scalars of the keys.
pub open spec fn key_chars(ks: Seq<Seq<char>>) -> int
    decreases ks.len(),
{
    if ks.len() == 0 {
        0
    } else {
        key_chars(ks.drop_last()) + ks.last().len()
    }
}

/// The labels of the states, as texts.
pub open spec fn label_views(l: Seq<Vec<char>>) -> Seq<Seq<char>> {
    l.map_values(|v: Vec<char>| v@)
}

/// The trie phase's reports: each at the state whose label is its key.
pub open spec fn own_ok(own: Seq<(u32, usize)>, labels: Seq<Seq<char>>, keys: Seq<Seq<char>>, i: int) -> bool {
    forall|k: int|
        0 <= k < own.len() ==> (#[trigger] own[k]).0 < labels.len() && own[k].1 < i && labels[own[k].0 as int]
            == keys[own[k].1 as int]
}

/// Builds the trie over `keys`: its edges, the reports at the end of each
/// key's path, and the label of each state.
fn build_trie(keys: &Vec<String>) -> (r: Option<(Vec<(u32, char, u32)>, Vec<(u32, usize)>, Vec<Vec<char>>)>)
    ensures
        match r {
            Some((edges, own, labels)) => {
                let ks = crate::mem::views(keys@);
                &&& labeled(edges@, label_views(labels@))
                &&& labels@.len() <= u32::MAX
                &&& own_ok(own@, label_views(labels@), ks, ks.len() as int)
                &&& forall|j: int| 0 <= j < ks.len() ==> #[trigger] recognized(edges@, own@, ks[j], j)
            },
            None => key_chars(crate::mem::views(keys@)) + 1 >= u32::MAX,
        },
{
    let ghost ks = crate::mem::views(keys@);
    let mut edges: Vec<(u32, char, u32)> = Vec::new();
    let mut outputs: Vec<(u32, usize)> = Vec::new();
    let mut labels: Vec<Vec<char>> = Vec::new();
    labels.push(Vec::new());
    proof {
        assert(label_views(labels@)[0] =~= Seq::<char>::empty());
        assert(walk(edges@, 0, Seq::<char>::empty()) == Some(0int));
        assert(labeled(edges@, label_views(labels@)));
    }
    assert(ks.take(0) =~= Seq::<Seq<char>>::empty());
    let mut i: usize = 0;
    while i < keys.len()
        invariant
            i <= keys.len(),
            ks == crate::mem::views(keys@),
            labeled(edges@, label_views(labels@)),
            labels@.len() <= u32::MAX,
            own_ok(outputs@, label_views(labels@), ks, i as int),
            forall|j: int| 0 <= j < i ==> #[trigger] recognized(edges@, outputs@, ks[j], j),
            labels@.len() <= 1 + key_chars(ks.take(i as int)),
        decreases keys.len() - i,
    {
        let w = to_chars(keys[i].as_str());
        assert(w@ == ks[i as int]);
        let mut node: u32 = 0;
        let mut p: usize = 0;
        assert(w@.take(0) =~= Seq::<char>::empty());
        while p < w.len()
            invariant
                p <= w.len(),
                i < keys.len(),
                ks == crate::mem::views(keys@),
                w@ == ks[i as int],
                labeled(edges@, label_views(labels@)),
                labels@.len() <= u32::MAX,
                labels@.len() <= 1 + key_chars(ks.take(i as int)) + p,
                node < labels@.len(),
                label_views(labels@)[node as int] == w@.take(p as int),
                own_ok(outputs@, label_views(labels@), ks, i as int),
                forall|j: int| 0 <= j < i ==> #[trigger] recognized(edges@, outputs@, ks[j], j),
            decreases w.len() - p,
        {
            let c = w[p];
            let ghost lv = label_views(labels@);
            proof {
                assert(w@.take(p + 1) =~= w@.take(p as int).push(c));
                assert(walk(edges@, 0, lv[node as int]) == Some(node as int));
                lemma_walk_step(edges@, 0, w@.take(p as int), c);
            }
            match goto_get(&edges, node, c) {
                Some(next) => {
                    proof {
                        lemma_walk_label(edges@, lv, 0, w@.take(p + 1));
                        assert(lv[0] + w@.take(p + 1) =~= w@.take(p + 1));
                    }
                    node = next;
                },
                None => {
                    if labels.len() >= u32::MAX as usize {
                        proof {
                            lemma_key_chars_prefix(ks, i as int + 1);
                            assert(ks.take(i + 1).drop_last() =~= ks.take(i as int));
                        }
                        return None;
                    }
                    let next = labels.len() as u32;
                    let ghost old_edges = edges@;
                    let e = (node, c, next);
                    edges.push(e);
                    let lab = slice_chars(&w, 0, p + 1);
                    labels.push(lab);
                    proof {
                        let nv = label_views(labels@);
                        assert(nv =~= lv.push(w@.take(p + 1)));
                        assert(edges@.drop_last() =~= old_edges);
                        assert(goto_of(edges@, node as int, c) == Some(next as int));
                        lemma_walk_push(old_edges, e, 0, w@.take(p as int));
                        lemma_walk_step(edges@, 0, w@.take(p as int), c);
                        assert forall|x: int| 0 <= x < nv.len() implies (#[trigger] nv[x]).len() < nv.len() && walk(
                            edges@,
                            0,
                            nv[x],
                        ) == Some(x) by {
                            if x < lv.len() {
                                assert(nv[x] == lv[x]);
                                assert(walk(old_edges, 0, lv[x]) == Some(x));
                                lemma_walk_push(old_edges, e, 0, lv[x]);
                            }
                        }
                        assert forall|k: int| 0 <= k < edges@.len() implies (#[trigger] edges@[k]).0 < nv.len() && 0
                            < edges@[k].2 < nv.len() && nv[edges@[k].2 as int] == nv[edges@[k].0 as int].push(
                            edges@[k].1,
                        ) by {
                            if k < old_edges.len() {
                                assert(edges@[k] == old_edges[k]);
                            }
                        }
                        assert(labeled(edges@, nv));
                        assert forall|j: int| 0 <= j < i implies #[trigger] recognized(edges@, outputs@, ks[j], j) by {
                            assert(recognized(old_edges, outputs@, ks[j], j));
                            lemma_walk_push(old_edges, e, 0, ks[j]);
                        }
                        assert forall|k: int| 0 <= k < outputs@.len() implies (#[trigger] outputs@[k]).0 < nv.len()
                            && outputs@[k].1 < i && nv[outputs@[k].0 as int] == ks[outputs@[k].1 as int] by {
                            assert(nv[outputs@[k].0 as int] == lv[outputs@[k].0 as int]);
                        }
                    }
                    node = next;
                },
            }
            p = p + 1;
        }
        assert(w@.take(w.len() as int) =~= w@);
        assert(ks.take(i + 1).drop_last() =~= ks.take(i as int));
        let ghost old_out = outputs@;
        outputs.push((node, i));
        proof {
            let lv = label_views(labels@);
            assert(outputs@[outputs@.len() - 1] == (node, i));
            assert(walk(edges@, 0, lv[node as int]) == Some(node as int));
            assert forall|j: int| 0 <= j < i + 1 implies #[trigger] recognized(edges@, outputs@, ks[j], j) by {
                if j < i {
                    assert(recognized(edges@, old_out, ks[j], j));
                    let v = walk(edges@, 0, ks[j])->0;
                    let k = choose|k: int| 0 <= k < old_out.len() && #[trigger] old_out[k] == (v as u32, j as usize);
                    assert(outputs@[k] == old_out[k]);
                } else {
                    assert(walk(edges@, 0, ks[j]) == Some(node as int));
                }
            }
            assert forall|k: int| 0 <= k < outputs@.len() implies (#[trigger] outputs@[k]).0 < lv.len()
                && outputs@[k].1 < i + 1 && lv[outputs@[k].0 as int] == ks[outputs@[k].1 as int] by {
                if k < old_out.len() {
                    assert(outputs@[k] == old_out[k]);
                }
            }
        }
        i = i + 1;
    }
    Some((edges, outputs, labels))
}

/// A failed walk stays failed when the text goes on.
proof fn lemma_walk_none_extend(edges: Seq<(u32, char, u32)>, a: int, x: Seq<char>, y: Seq<char>)
    requires
        walk(edges, a, x) is None,
    ensures
        walk(edges, a, x + y) is None,
    decreases x.len(),
{
    if x.len() > 0 {
        assert((x + y)[0] == x[0]);
        assert((x + y).drop_first() =~= x.drop_first() + y);
        if let Some(b) = goto_of(edges, a, x[0]) {
            lemma_walk_none_extend(edges, b, x.drop_first(), y);
        }
    }
}

/// Walks from the root along `lab` from position `k`.
fn walk_suffix(edges: &Vec<(u32, char, u32)>, lab: &Vec<char>, k: usize, Ghost(labels): Ghost<Seq<Seq<char>>>) -> (r: Option<u32>)
    requires
        labeled(edges@, labels),
        k <= lab.len(),
    ensures
        match r {
            Some(t) => walk(edges@, 0, lab@.skip(k as int)) == Some(t as int) && t < labels.len(),
            None => walk(edges@, 0, lab@.skip(k as int)) is None,
        },
{
    let mut node: u32 = 0;
    let mut p: usize = k;
    assert(lab@.subrange(k as int, k as int) =~= Seq::<char>::empty());
    while p < lab.len()
        invariant
            labeled(edges@, labels),
            k <= p <= lab.len(),
            node < labels.len(),
            walk(edges@, 0, lab@.subrange(k as int, p as int)) == Some(node as int),
        decreases lab.len() - p,
    {
        let c = lab[p];
        proof {
            assert(lab@.subrange(k as int, p + 1) =~= lab@.subrange(k as int, p as int).push(c));
            lemma_walk_step(edges@, 0, lab@.subrange(k as int, p as int), c);
        }
        match goto_get(edges, node, c) {
            Some(t) => {
                proof {
                    lemma_goto_edge(edges@, node as int, c);
                }
                node = t;
            },
            None => {
                proof {
                    lemma_walk_none_extend(edges@, 0, lab@.subrange(k as int, p + 1), lab@.subrange(p + 1, lab.len() as int));
                    assert(lab@.subrange(k as int, p + 1) + lab@.subrange(p + 1, lab.len() as int) =~= lab@.skip(k as int));
                }
                return None;
            },
        }
        p = p + 1;
    }
    assert(lab@.subrange(k as int, lab.len() as int) =~= lab@.skip(k as int));
    Some(node)
}

/// The failure link of state `s` is right: it goes to the longest proper
/// suffix of the state's label that is a path of the trie.
pub open spec fn good_fail(edges: Seq<(u32, char, u32)>, labels: Seq<Seq<char>>, s: int, f: int) -> bool {
    &&& 0 <= f < labels.len()
    &&& is_suffix(labels[f], labels[s])
    &&& labels[f].len() < labels[s].len()
    &&& forall|u: Seq<char>|
        #![trigger is_suffix(u, labels[s])]
        is_suffix(u, labels[s]) && u.len() < labels[s].len() && in_trie(edges, u) ==> u.len() <= labels[f].len()
}

/// The failure links of all states.
fn compute_fail(edges: &Vec<(u32, char, u32)>, labels: &Vec<Vec<char>>) -> (r: Vec<u32>)
    requires
        labeled(edges@, label_views(labels@)),
        labels@.len() <= u32::MAX,
    ensures
        fail_ok(edges@, label_views(labels@), r@),
{
    let ghost lv = label_views(labels@);
    let n = labels.len();
    let mut fail: Vec<u32> = Vec::new();
    fail.push(0);
    let mut s: usize = 1;
    while s < n
        invariant
            lv == label_views(labels@),
            labeled(edges@, lv),
            n == labels@.len(),
            1 <= s <= n,
            fail@.len() == s,
            fail@[0] == 0,
            forall|x: int| 1 <= x < s ==> good_fail(edges@, lv, x, #[trigger] fail@[x] as int),
        decreases n - s,
    {
        let lab = &labels[s];
        let m = lab.len();
        proof {
            assert(lv[s as int] == lab@);
            if m == 0 {
                assert(lv[s as int] =~= lv[0]);
                lemma_label_unique(edges@, lv, s as int, 0);
            }
        }
        let mut k: usize = 1;
        let mut found: u32 = 0;
        loop
            invariant
                lv == label_views(labels@),
                labeled(edges@, lv),
                lab@ == lv[s as int],
                m == lab@.len(),
                n == lv.len(),
                1 <= k <= m,
                1 <= s < n,
                forall|k2: int| 1 <= k2 < k ==> walk(edges@, 0, #[trigger] lab@.skip(k2)) is None,
            ensures
                1 <= k <= m,
                walk(edges@, 0, lab@.skip(k as int)) == Some(found as int),
                found < n,
                forall|k2: int| 1 <= k2 < k ==> walk(edges@, 0, #[trigger] lab@.skip(k2)) is None,
            decreases m - k,
        {
            match walk_suffix(edges, lab, k, Ghost(lv)) {
                Some(t) => {
                    found = t;
                    break;
                },
                None => {
                    if k == m {
                        assert(lab@.skip(m as int) =~= Seq::<char>::empty());
                        assert(walk(edges@, 0, Seq::<char>::empty()) == Some(0int));
                        assert(false);
                    }
                    k = k + 1;
                },
            }
        }
        proof {
            let sk = lab@.skip(k as int);
            lemma_walk_label(edges@, lv, 0, sk);
            assert(lv[0] + sk =~= sk);
            assert(lv[found as int] == sk);
            assert(lab@.subrange(m - sk.len(), m as int) =~= sk);
            assert forall|u: Seq<char>|
                #![trigger is_suffix(u, lv[s as int])]
                is_suffix(u, lv[s as int]) && u.len() < lv[s as int].len() && in_trie(edges@, u) implies u.len() <= lv[found as int].len() by {
                if u.len() > sk.len() {
                    let k2 = m - u.len();
                    assert(lab@.skip(k2) =~= u);
                    assert(walk(edges@, 0, lab@.skip(k2)) is None);
                }
            }
            assert(good_fail(edges@, lv, s as int, found as int));
        }
        fail.push(found);
        proof {
            assert forall|x: int| 1 <= x < s + 1 implies good_fail(edges@, lv, x, #[trigger] fail@[x] as int) by {
                if x < s {
                    assert(fail@[x] == fail@.drop_last()[x]);
                }
            }
        }
        s = s + 1;
    }
    proof {
        assert forall|x: int| 1 <= x < n implies {
            let f = #[trigger] fail@[x] as int;
            &&& f < n
            &&& is_suffix(lv[f], lv[x])
            &&& lv[f].len() < lv[x].len()
            &&& forall|u: Seq<char>|
                #![trigger is_suffix(u, lv[x])]
                is_suffix(u, lv[x]) && u.len() < lv[x].len() && in_trie(edges@, u) ==> u.len() <= lv[f].len()
        } by {
            assert(good_fail(edges@, lv, x, fail@[x] as int));
        }
    }
    fail
}

/// Reports in `a` stay reports once more are appended.
proof fn lemma_outputs_grow(a: Seq<(u32, usize)>, b: Seq<(u32, usize)>)
    requires
        a.len() <= b.len(),
        b.take(a.len() as int) == a,
    ensures
        forall|v: int, i: int| #[trigger] outputs_at(a, v, i) ==> outputs_at(b, v, i),
{
    assert forall|v: int, i: int| #[trigger] outputs_at(a, v, i) implies outputs_at(b, v, i) by {
        let k = choose|k: int| 0 <= k < a.len() && #[trigger] a[k] == (v as u32, i as usize);
        assert(b.take(a.len() as int)[k] == b[k]);
    }
}

/// Every report names a key ending its state's label.
pub open spec fn outputs_sound(out: Seq<(u32, usize)>, labels: Seq<Seq<char>>, keys: Seq<Seq<char>>) -> bool {
    forall|k: int|
        0 <= k < out.len() ==> (#[trigger] out[k]).0 < labels.len() && out[k].1 < keys.len() && is_suffix(
            keys[out[k].1 as int],
            labels[out[k].0 as int],
        )
}

/// State `s` reports every non-empty key ending its label.
pub open spec fn complete_at(out: Seq<(u32, usize)>, labels: Seq<Seq<char>>, keys: Seq<Seq<char>>, s: int) -> bool {
    forall|j: int|
        0 <= j < keys.len() && keys[j].len() > 0 && is_suffix(keys[j], labels[s]) ==> #[trigger] outputs_at(out, s, j)
}

/// A report of the trie phase at `t` for every key spelled like `t`'s label.
pub open spec fn own_complete(own: Seq<(u32, usize)>, labels: Seq<Seq<char>>, keys: Seq<Seq<char>>) -> bool {
    forall|t: int, j: int|
        0 <= t < labels.len() && 0 <= j < keys.len() && labels[t] == keys[j] ==> #[trigger] outputs_at(own, t, j)
}

/// Appends to `out`, for state `s`, the reports of the trie phase at `v`.
fn push_reports_of(out: &mut Vec<(u32, usize)>, own: &Vec<(u32, usize)>, s: u32, v: u32)
    ensures
        final(out)@.len() >= old(out)@.len(),
        final(out)@.take(old(out)@.len() as int) == old(out)@,
        forall|k: int| 0 <= k < own@.len() && own@[k].0 == v ==> outputs_at(final(out)@, s as int, #[trigger] own@[k].1 as int),
        forall|k: int|
            old(out)@.len() <= k < final(out)@.len() ==> (#[trigger] final(out)@[k]).0 == s && outputs_at(
                own@,
                v as int,
                final(out)@[k].1 as int,
            ),
{
    let ghost start = out@;
    let mut k: usize = 0;
    while k < own.len()
        invariant
            k <= own.len(),
            out@.len() >= start.len(),
            out@.take(start.len() as int) == start,
            forall|x: int| 0 <= x < k && own@[x].0 == v ==> outputs_at(out@, s as int, #[trigger] own@[x].1 as int),
            forall|y: int|
                start.len() <= y < out@.len() ==> (#[trigger] out@[y]).0 == s && outputs_at(own@, v as int, out@[y].1 as int),
        decreases own.len() - k,
    {
        if own[k].0 == v {
            let ghost before = out@;
            out.push((s, own[k].1));
            proof {
                assert(out@.take(before.len() as int) =~= before);
                lemma_outputs_grow(before, out@);
                assert(out@.take(start.len() as int) =~= start);
                assert(out@[out@.len() - 1] == (s, own@[k as int].1));
                assert(own@[k as int] == (v, own@[k as int].1));
                assert(outputs_at(own@, v as int, own@[k as int].1 as int));
                assert forall|y: int| start.len() <= y < out@.len() implies (#[trigger] out@[y]).0 == s && outputs_at(
                    own@,
                    v as int,
                    out@[y].1 as int,
                ) by {
                    if y < before.len() {
                        assert(out@[y] == before[y]);
                    }
                }
            }
        }
        k = k + 1;
    }
}

/// Adds to each state the reports of its failure chain, as the states'
/// labels end in them: every state then reports exactly the keys ending its
/// label.
fn extend_outputs(
    edges: &Vec<(u32, char, u32)>,
    own: &Vec<(u32, usize)>,
    fail: &Vec<u32>,
    labels: &Vec<Vec<char>>,
    Ghost(keys): Ghost<Seq<Seq<char>>>,
) -> (r: Vec<(u32, usize)>)
    requires
        labeled(edges@, label_views(labels@)),
        labels@.len() <= u32::MAX,
        keys.len() <= usize::MAX,
        fail_ok(edges@, label_views(labels@), fail@),
        own_ok(own@, label_views(labels@), keys, keys.len() as int),
        own_complete(own@, label_views(labels@), keys),
        forall|j: int| 0 <= j < keys.len() ==> in_trie(edges@, #[trigger] keys[j]),
    ensures
        r@.len() >= own@.len(),
        r@.take(own@.len() as int) == own@,
        outputs_exact(r@, label_views(labels@), keys),
        outputs_sound(r@, label_views(labels@), keys),
{
    let ghost lv = label_views(labels@);
    let n = labels.len();
    let mut out: Vec<(u32, usize)> = Vec::new();
    let mut k: usize = 0;
    while k < own.len()
        invariant
            k <= own.len(),
            out@ == own@.take(k as int),
        decreases own.len() - k,
    {
        out.push(own[k]);
        assert(out@ =~= own@.take(k + 1));
        k = k + 1;
    }
    assert(own@.take(own.len() as int) =~= own@);
    proof {
        lemma_outputs_grow(own@, out@);
        assert(own@.take(own@.len() as int) =~= own@);
        assert forall|q: int| 0 <= q < out@.len() implies (#[trigger] out@[q]).0 < lv.len() && out@[q].1 < keys.len()
            && is_suffix(keys[out@[q].1 as int], lv[out@[q].0 as int]) by {
            let x = lv[out@[q].0 as int];
            assert(x.subrange(0, x.len() as int) =~= x);
        }
        assert forall|s: int| 0 <= s < n && lv[s].len() <= 1 implies complete_at(out@, lv, keys, s) by {
            assert forall|j: int| 0 <= j < keys.len() && keys[j].len() > 0 && is_suffix(keys[j], lv[s]) implies #[trigger] outputs_at(out@, s, j) by {
                assert(lv[s].subrange(lv[s].len() - keys[j].len(), lv[s].len() as int) =~= lv[s]);
                assert(outputs_at(own@, s, j));
            }
        }
    }
    let mut s: usize = 1;
    while s < n
        invariant
            lv == label_views(labels@),
            n == lv.len(),
            labeled(edges@, lv),
            fail_ok(edges@, lv, fail@),
            own_ok(own@, lv, keys, keys.len() as int),
            own_complete(own@, lv, keys),
            forall|j: int| 0 <= j < keys.len() ==> in_trie(edges@, #[trigger] keys[j]),
            1 <= s <= n,
            n <= u32::MAX,
            keys.len() <= usize::MAX,
            out@.len() >= own@.len(),
            out@.take(own@.len() as int) == own@,
            outputs_sound(out@, lv, keys),
            forall|x: int| 0 <= x < n && (x < s || lv[x].len() <= 1) ==> complete_at(out@, lv, keys, x),
        decreases n - s,
    {
        if labels[s].len() >= 2 {
            let ghost entry = out@;
            let mut v: u32 = fail[s];
            proof {
                assert(fail@[s as int] == v);
            }
            loop
                invariant
                    lv == label_views(labels@),
                    n == lv.len(),
                    labeled(edges@, lv),
                    fail_ok(edges@, lv, fail@),
                    own_ok(own@, lv, keys, keys.len() as int),
                    own_complete(own@, lv, keys),
                    1 <= s < n,
                    n <= u32::MAX,
                    lv[s as int].len() >= 2,
                    v < n,
                    is_suffix(lv[v as int], lv[s as int]),
                    lv[v as int].len() < lv[s as int].len(),
                    out@.len() >= entry.len(),
                    out@.take(entry.len() as int) == entry,
                    outputs_sound(out@, lv, keys),
                    forall|t: int, j: int|
                        #![trigger lv[t], keys[j]]
                        0 <= t < n && 0 <= j < keys.len() && is_suffix(lv[t], lv[s as int]) && lv[v as int].len() < lv[t].len()
                            < lv[s as int].len() && lv[t] == keys[j] ==> outputs_at(out@, s as int, j),
                ensures
                    out@.len() >= entry.len(),
                    out@.take(entry.len() as int) == entry,
                    outputs_sound(out@, lv, keys),
                    forall|t: int, j: int|
                        #![trigger lv[t], keys[j]]
                        0 <= t < n && 0 <= j < keys.len() && keys[j].len() > 0 && is_suffix(lv[t], lv[s as int])
                            && lv[t].len() < lv[s as int].len() && lv[t] == keys[j] ==> outputs_at(out@, s as int, j),
                decreases lv[v as int].len(),
            {
                let ghost before = out@;
                push_reports_of(&mut out, own, s as u32, v);
                proof {
                    assert(out@.take(entry.len() as int) =~= entry) by {
                        assert(out@.take(before.len() as int) == before);
                        assert(before.take(entry.len() as int) == entry);
                    }
                    lemma_outputs_grow(before, out@);
                    assert forall|q: int| 0 <= q < out@.len() implies (#[trigger] out@[q]).0 < lv.len() && out@[q].1
                        < keys.len() && is_suffix(keys[out@[q].1 as int], lv[out@[q].0 as int]) by {
                        if q < before.len() {
                            assert(out@.take(before.len() as int)[q] == out@[q]);
                        } else {
                            assert(out@[q].0 == s as u32 && outputs_at(own@, v as int, out@[q].1 as int));
                            let x = choose|x: int| 0 <= x < own@.len() && #[trigger] own@[x] == (v as u32, out@[q].1);
                            assert(lv[v as int] == keys[own@[x].1 as int]);
                        }
                    }
                    assert forall|j: int| 0 <= j < keys.len() && lv[v as int] == keys[j] implies outputs_at(out@, s as int, j) by {
                        assert(outputs_at(own@, v as int, j));
                        let x = choose|x: int| 0 <= x < own@.len() && #[trigger] own@[x] == (v as u32, j as usize);
                        assert(own@[x].0 == v);
                    }
                }
                if v == 0 || labels[v as usize].len() <= 1 {
                    proof {
                        assert forall|t: int, j: int|
                        #![trigger lv[t], keys[j]]
                            0 <= t < n && 0 <= j < keys.len() && keys[j].len() > 0 && is_suffix(lv[t], lv[s as int])
                                && lv[t].len() < lv[s as int].len() && lv[t] == keys[j] implies outputs_at(out@, s as int, j) by {
                            if lv[t].len() <= lv[v as int].len() {
                                lemma_suffix_of_suffix(lv[t], lv[v as int], lv[s as int]);
                                if lv[t].len() == lv[v as int].len() {
                                    assert(lv[v as int].subrange(0, lv[v as int].len() as int) =~= lv[v as int]);
                                    assert(lv[t] =~= lv[v as int]);
                                    lemma_label_unique(edges@, lv, t, v as int);
                                } else {
                                    if v == 0 {
                                        assert(lv[0].len() == 0);
                                    }
                                    assert(lv[v as int].len() == 1);
                                    assert(lv[t].len() == 0);
                                }
                            }
                        }
                    }
                    break;
                }
                let ghost old_v = v;
                v = fail[v as usize];
                proof {
                    assert(fail@[old_v as int] == v);
                    lemma_suffix_trans(lv[v as int], lv[old_v as int], lv[s as int]);
                    assert forall|t: int, j: int|
                        #![trigger lv[t], keys[j]]
                        0 <= t < n && 0 <= j < keys.len() && is_suffix(lv[t], lv[s as int]) && lv[v as int].len()
                            < lv[t].len() < lv[s as int].len() && lv[t] == keys[j] implies outputs_at(out@, s as int, j) by {
                        if lv[t].len() <= lv[old_v as int].len() {
                            lemma_suffix_of_suffix(lv[t], lv[old_v as int], lv[s as int]);
                            if lv[t].len() == lv[old_v as int].len() {
                                assert(lv[old_v as int].subrange(0, lv[old_v as int].len() as int) =~= lv[old_v as int]);
                                assert(lv[t] =~= lv[old_v as int]);
                                lemma_label_unique(edges@, lv, t, old_v as int);
                            } else {
                                assert(walk(edges@, 0, lv[t]) == Some(t));
                                assert(is_suffix(lv[t], lv[old_v as int]));
                                assert(lv[t].len() <= lv[v as int].len());
                            }
                        }
                    }
                }
            }
            proof {
                lemma_outputs_grow(entry, out@);
                assert(out@.take(own@.len() as int) =~= own@) by {
                    assert(entry.take(own@.len() as int) == own@);
                }
                assert forall|j: int| 0 <= j < keys.len() && keys[j].len() > 0 && is_suffix(keys[j], lv[s as int]) implies outputs_at(out@, s as int, j) by {
                    let t = walk(edges@, 0, keys[j])->0;
                    lemma_walk_label(edges@, lv, 0, keys[j]);
                    assert(lv[0] + keys[j] =~= keys[j]);
                    assert(lv[t] == keys[j]);
                    if lv[t].len() == lv[s as int].len() {
                        assert(lv[s as int].subrange(0, lv[s as int].len() as int) =~= lv[s as int]);
                        assert(lv[t] =~= lv[s as int]);
                        lemma_label_unique(edges@, lv, t, s as int);
                        assert(outputs_at(own@, s as int, j));
                        lemma_outputs_grow(own@, out@);
                    }
                }
                assert forall|x: int| 0 <= x < n && (x < s + 1 || lv[x].len() <= 1) implies complete_at(out@, lv, keys, x) by {
                    if x != s {
                        assert(complete_at(entry, lv, keys, x));
                        assert forall|j: int| 0 <= j < keys.len() && keys[j].len() > 0 && is_suffix(keys[j], lv[x]) implies #[trigger] outputs_at(out@, x, j) by {
                            assert(outputs_at(entry, x, j));
                        }
                    }
                }
            }
        }
        s = s + 1;
    }
    proof {
        assert forall|x: int, j: int|
            0 <= x < lv.len() && 0 <= j < keys.len() && keys[j].len() > 0 implies (#[trigger] outputs_at(out@, x, j)
            <==> is_suffix(keys[j], lv[x])) by {
            assert(complete_at(out@, lv, keys, x));
            if outputs_at(out@, x, j) {
                let q = choose|q: int| 0 <= q < out@.len() && #[trigger] out@[q] == (x as u32, j as usize);
                assert(out@[q].0 < lv.len());
                assert(out@[q].0 as int == x);
                assert(out@[q].1 as int == j);
            }
        }
    }
    out
}

/// Builds the automaton over `keys`; nothing only when its states (at most
/// one per key scalar, plus the root) would not fit a 32-bit index.
pub fn build_machine(keys: &Vec<String>) -> (r: Option<Machine>)
    ensures
        r matches Some(m) ==> machine_ok(m, crate::mem::views(keys@)),
        r is None ==> key_chars(crate::mem::views(keys@)) + 1 >= u32::MAX,
{
    let ghost ks = crate::mem::views(keys@);
    let (edges, own, labels) = match build_trie(keys) {
        Some(t) => t,
        None => {
            return None;
        },
    };
    let ghost lv = label_views(labels@);
    proof {
        assert forall|t: int, j: int| 0 <= t < lv.len() && 0 <= j < ks.len() && lv[t] == ks[j] implies #[trigger] outputs_at(own@, t, j) by {
            assert(recognized(edges@, own@, ks[j], j));
            assert(walk(edges@, 0, lv[t]) == Some(t));
        }
        assert forall|j: int| 0 <= j < ks.len() implies in_trie(edges@, #[trigger] ks[j]) by {
            assert(recognized(edges@, own@, ks[j], j));
        }
    }
    let nk = keys.len();
    assert(ks.len() == nk);
    let fail = compute_fail(&edges, &labels);
    let outputs = extend_outputs(&edges, &own, &fail, &labels, Ghost(ks));
    let m = Machine { edges, outputs, fail };
    proof {
        assert forall|j: int| 0 <= j < ks.len() implies #[trigger] recognized(m.edges@, m.outputs@, ks[j], j) by {
            assert(recognized(m.edges@, own@, ks[j], j));
            assert(m.outputs@.take(own@.len() as int) == own@);
            lemma_outputs_grow(own@, m.outputs@);
        }
        assert forall|k: int| 0 <= k < m.outputs@.len() implies (#[trigger] m.outputs@[k]).0 < lv.len() && m.outputs@[k].1
            < ks.len() by {
            assert(outputs_sound(m.outputs@, lv, ks));
        }
        assert(labeled(m.edges@, lv) && fail_ok(m.edges@, lv, m.fail@));
        if forall|j: int| 0 <= j < ks.len() ==> (#[trigger] ks[j]).len() > 0 {
            assert forall|text: Seq<char>| #[trigger] m_found(m, ks, text) == keys_in(ks, text) by {
                lemma_finds_keys(m, lv, ks, text);
            }
        }
    }
    Some(m)
}

/// `x` placed before the first transition with a greater scalar.
pub open spec fn insert_trans(x: (char, u32), s: Seq<(char, u32)>) -> Seq<(char, u32)>
    decreases s.len(),
{
    if s.len() == 0 {
        seq![x]
    } else if (x.0 as u32) < (s[0].0 as u32) {
        seq![x] + s
    } else {
        seq![s[0]] + insert_trans(x, s.drop_first())
    }
}

/// The transitions of state `v` among the first `k` edges, by scalar.
pub open spec fn trans_upto(edges: Seq<(u32, char, u32)>, v: int, k: int) -> Seq<(char, u32)>
    decreases k,
{
    if k <= 0 {
        Seq::empty()
    } else if edges[k - 1].0 == v {
        insert_trans((edges[k - 1].1, edges[k - 1].2), trans_upto(edges, v, k - 1))
    } else {
        trans_upto(edges, v, k - 1)
    }
}

/// Transitions as JSON members, separated by commas.
pub open spec fn trans_json(t: Seq<(char, u32)>) -> Seq<char>
    decreases t.len(),
{
    if t.len() == 0 {
        Seq::empty()
    } else {
        let item = json_string_literal(seq![t.last().0]) + seq![':'] + int_text(t.last().1 as int);
        if t.len() == 1 {
            item
        } else {
            trans_json(t.drop_last()) + seq![','] + item
        }
    }
}

/// The keys recognized at state `v` among the first `k` outputs, as JSON
/// strings separated by commas.
pub open spec fn outs_json(outputs: Seq<(u32, usize)>, keys: Seq<Seq<char>>, v: int, k: int) -> Seq<char>
    decreases k,
{
    if k <= 0 {
        Seq::empty()
    } else {
        let prev = outs_json(outputs, keys, v, k - 1);
        if outputs[k - 1].0 == v {
            let item = json_string_literal(keys[outputs[k - 1].1 as int]);
            if prev.len() == 0 {
                item
            } else {
                prev + seq![','] + item
            }
        } else {
            prev
        }
    }
}

/// The goto objects of the first `n` states, separated by commas.
pub open spec fn gotos_json(edges: Seq<(u32, char, u32)>, n: int) -> Seq<char>
    decreases n,
{
    if n <= 0 {
        Seq::empty()
    } else {
        let item = seq!['{'] + trans_json(trans_upto(edges, n - 1, edges.len() as int)) + seq!['}'];
        if n == 1 {
            item
        } else {
            gotos_json(edges, n - 1) + seq![','] + item
        }
    }
}

/// The output arrays of the first `n` states, separated by commas.
pub open spec fn out_arrays_json(outputs: Seq<(u32, usize)>, keys: Seq<Seq<char>>, n: int) -> Seq<char>
    decreases n,
{
    if n <= 0 {
        Seq::empty()
    } else {
        let item = seq!['['] + outs_json(outputs, keys, n - 1, outputs.len() as int) + seq![']'];
        if n == 1 {
            item
        } else {
            out_arrays_json(outputs, keys, n - 1) + seq![','] + item
        }
    }
}

/// The first `n` failure states separated by commas.
pub open spec fn fails_json(fail: Seq<u32>, n: int) -> Seq<char>
    decreases n,
{
    if n <= 0 {
        Seq::empty()
    } else if n == 1 {
        int_text(fail[0] as int)
    } else {
        fails_json(fail, n - 1) + seq![','] + int_text(fail[n - 1] as int)
    }
}

/// The automaton as canonical JSON: failure states, goto objects with
/// their members in scalar order, and the recognized keys per state.
pub open spec fn machine_json(m: Machine, keys: Seq<Seq<char>>) -> Seq<char> {
    let n = m.fail@.len() as int;
    "{\"fail\":["@ + fails_json(m.fail@, n) + "],\"goto\":["@ + gotos_json(m.edges@, n) + "],\"out\":["@
        + out_arrays_json(m.outputs@, keys, n) + "]}"@
}

/// The automaton's metadata as canonical JSON: compiler version, edge
/// count, largest state index, normalization version and state count.
pub open spec fn machine_meta_json(m: Machine) -> Seq<char> {
    let n = m.fail@.len() as int;
    "{\"compiler_version\":"@ + int_text(RADAR_COMPILER_VERSION as int) + ",\"edges\":"@ + int_text(
        m.edges@.len() as int,
    ) + ",\"max_index\":"@ + int_text(n - 1) + ",\"normalization_version\":"@ + int_text(NORMALIZATION_VERSION as int)
        + ",\"states\":"@ + int_text(n) + "}"@
}

/// Places a transition among sorted ones.
fn insert_sorted_trans(v: &mut Vec<(char, u32)>, x: (char, u32))
    ensures
        final(v)@ == insert_trans(x, old(v)@),
{
    let mut p: usize = 0;
    while p < v.len()
        invariant
            p <= v.len(),
            forall|j: int| 0 <= j < p ==> !((x.0 as u32) < (#[trigger] v@[j].0 as u32)),
        ensures
            p <= v.len(),
            forall|j: int| 0 <= j < p ==> !((x.0 as u32) < (#[trigger] v@[j].0 as u32)),
            p < v.len() ==> (x.0 as u32) < (v@[p as int].0 as u32),
        decreases v.len() - p,
    {
        if (x.0 as u32) < (v[p].0 as u32) {
            break;
        }
        p = p + 1;
    }
    proof {
        lemma_insert_trans_at(x, v@, p as int);
    }
    v.insert(p, x);
}

proof fn lemma_insert_trans_at(x: (char, u32), s: Seq<(char, u32)>, p: int)
    requires
        0 <= p <= s.len(),
        forall|j: int| 0 <= j < p ==> !((x.0 as u32) < (#[trigger] s[j].0 as u32)),
        p < s.len() ==> (x.0 as u32) < (s[p].0 as u32),
    ensures
        insert_trans(x, s) == s.insert(p, x),
    decreases s.len(),
{
    if s.len() == 0 {
        assert(s.insert(p, x) =~= seq![x]);
    } else if p == 0 {
        assert(s.insert(p, x) =~= seq![x] + s);
    } else {
        let t = s.drop_first();
        assert forall|j: int| 0 <= j < p - 1 implies !((x.0 as u32) < (#[trigger] t[j].0 as u32)) by {
            assert(t[j] == s[j + 1]);
        }
        if p < s.len() {
            assert(t[p - 1] == s[p]);
        }
        assert(!((x.0 as u32) < (s[0].0 as u32)));
        lemma_insert_trans_at(x, t, p - 1);
        assert(s.insert(p, x) =~= seq![s[0]] + t.insert(p - 1, x));
    }
}

/// The sorted transitions of state `v`.
fn transitions_of(edges: &Vec<(u32, char, u32)>, v: u32) -> (r: Vec<(char, u32)>)
    ensures
        r@ == trans_upto(edges@, v as int, edges.len() as int),
{
    let mut out: Vec<(char, u32)> = Vec::new();
    let mut k: usize = 0;
    while k < edges.len()
        invariant
            k <= edges.len(),
            out@ == trans_upto(edges@, v as int, k as int),
        decreases edges.len() - k,
    {
        if edges[k].0 == v {
            insert_sorted_trans(&mut out, (edges[k].1, edges[k].2));
        }
        k = k + 1;
    }
    out
}

/// Appends `s` to `out` as a JSON string.
fn push_char_literal(out: &mut String, c: char)
    ensures
        final(out)@ == old(out)@ + json_string_literal(seq![c]),
{
    let mut one = String::new();
    push_char(&mut one, c);
    assert(one@ =~= seq![c]);
    escape_string(one.as_str(), out);
}

fn push_number(out: &mut String, n: i64)
    ensures
        final(out)@ == old(out)@ + int_text(n as int),
{
    let t = int_to_string(n);
    out.append(t.as_str());
}

/// The automaton as canonical JSON text.
pub fn machine_json_text(m: &Machine, keys: &Vec<String>) -> (r: String)
    requires
        machine_ok(*m, crate::mem::views(keys@)),
    ensures
        r@ == machine_json(*m, crate::mem::views(keys@)),
{
    let ghost ks = crate::mem::views(keys@);
    let n = m.fail.len();
    let mut out = String::from_str("{\"fail\":[");
    let ghost s0 = out@;
    let mut v: usize = 0;
    while v < n
        invariant
            v <= n,
            n == m.fail@.len(),
            out@ == s0 + fails_json(m.fail@, v as int),
        decreases n - v,
    {
        let ghost before = out@;
        if v > 0 {
            push_char(&mut out, ',');
        }
        push_number(&mut out, m.fail[v] as i64);
        if v > 0 {
            assert(out@ =~= before + seq![','] + int_text(m.fail@[v as int] as int));
        } else {
            assert(out@ =~= before + int_text(m.fail@[v as int] as int));
        }
        assert(out@ =~= s0 + fails_json(m.fail@, v + 1));
        v = v + 1;
    }
    out.append("],\"goto\":[");
    let ghost s1 = out@;
    let mut v: usize = 0;
    while v < n
        invariant
            v <= n,
            n == m.fail@.len(),
            n <= u32::MAX,
            out@ == s1 + gotos_json(m.edges@, v as int),
        decreases n - v,
    {
        let ghost start = out@;
        if v > 0 {
            push_char(&mut out, ',');
        }
        let ghost before = out@;
        push_char(&mut out, '{');
        let trans = transitions_of(&m.edges, v as u32);
        let mut k: usize = 0;
        assert(trans@.take(0) =~= Seq::<(char, u32)>::empty());
        while k < trans.len()
            invariant
                k <= trans.len(),
                out@ == before + seq!['{'] + trans_json(trans@.take(k as int)),
            decreases trans.len() - k,
        {
            let ghost o = out@;
            assert(trans@.take(k + 1).drop_last() =~= trans@.take(k as int));
            assert(trans@.take(k + 1).last() == trans@[k as int]);
            if k > 0 {
                push_char(&mut out, ',');
            }
            push_char_literal(&mut out, trans[k].0);
            push_char(&mut out, ':');
            push_number(&mut out, trans[k].1 as i64);
            let ghost item = json_string_literal(seq![trans@[k as int].0]) + seq![':'] + int_text(trans@[k as int].1 as int);
            if k > 0 {
                assert(out@ =~= o + seq![','] + item);
            } else {
                assert(out@ =~= o + item);
            }
            assert(out@ =~= before + seq!['{'] + trans_json(trans@.take(k + 1)));
            k = k + 1;
        }
        assert(trans@.take(trans.len() as int) =~= trans@);
        push_char(&mut out, '}');
        let ghost item = seq!['{'] + trans_json(trans_upto(m.edges@, v as int, m.edges@.len() as int)) + seq!['}'];
        if v > 0 {
            assert(out@ =~= start + seq![','] + item);
        } else {
            assert(out@ =~= start + item);
        }
        assert(out@ =~= s1 + gotos_json(m.edges@, v + 1));
        v = v + 1;
    }
    out.append("],\"out\":[");
    let ghost s2 = out@;
    let mut v: usize = 0;
    while v < n
        invariant
            v <= n,
            n == m.fail@.len(),
            n <= u32::MAX,
            machine_ok(*m, ks),
            ks == crate::mem::views(keys@),
            out@ == s2 + out_arrays_json(m.outputs@, ks, v as int),
        decreases n - v,
    {
        let ghost start = out@;
        if v > 0 {
            push_char(&mut out, ',');
        }
        push_char(&mut out, '[');
        let ghost mid = out@;
        let mut any = false;
        let mut k: usize = 0;
        while k < m.outputs.len()
            invariant
                k <= m.outputs.len(),
                machine_ok(*m, ks),
                ks == crate::mem::views(keys@),
                out@ == mid + outs_json(m.outputs@, ks, v as int, k as int),
                any == (outs_json(m.outputs@, ks, v as int, k as int).len() > 0),
            decreases m.outputs.len() - k,
        {
            let ghost o = out@;
            if m.outputs[k].0 as usize == v {
                if any {
                    push_char(&mut out, ',');
                }
                any = true;
                assert(keys@[m.outputs@[k as int].1 as int]@ == ks[m.outputs@[k as int].1 as int]);
                escape_string(keys[m.outputs[k].1].as_str(), &mut out);
                let ghost item = json_string_literal(ks[m.outputs@[k as int].1 as int]);
                proof {
                    if o.len() > mid.len() {
                        assert(out@ =~= o + seq![','] + item);
                    } else {
                        assert(out@ =~= o + item);
                    }
                }
                assert(out@ =~= mid + outs_json(m.outputs@, ks, v as int, k + 1));
            }
            k = k + 1;
        }
        push_char(&mut out, ']');
        let ghost item = seq!['['] + outs_json(m.outputs@, ks, v as int, m.outputs@.len() as int) + seq![']'];
        if v > 0 {
            assert(out@ =~= start + seq![','] + item);
        } else {
            assert(out@ =~= start + item);
        }
        assert(out@ =~= s2 + out_arrays_json(m.outputs@, ks, v + 1));
        v = v + 1;
    }
    out.append("]}");
    out
}

/// The automaton's metadata as canonical JSON text.
pub fn machine_meta_text(m: &Machine) -> (r: String)
    requires
        1 <= m.fail@.len() <= u32::MAX + 1,
        m.edges@.len() <= i64::MAX,
    ensures
        r@ == machine_meta_json(*m),
{
    let mut out = String::from_str("{\"compiler_version\":");
    push_number(&mut out, RADAR_COMPILER_VERSION);
    out.append(",\"edges\":");
    push_number(&mut out, m.edges.len() as i64);
    out.append(",\"max_index\":");
    push_number(&mut out, (m.fail.len() - 1) as i64);
    out.append(",\"normalization_version\":");
    push_number(&mut out, NORMALIZATION_VERSION);
    out.append(",\"states\":");
    push_number(&mut out, m.fail.len() as i64);
    out.append("}");
    out
}

} // verus!
