//! What the radar's keyword automaton finds: reading a text state by state
//! (following failure links until a goto edge fits), the keys reported at
//! the states visited are exactly the keys that occur in the text. The
//! proof rests on each state standing for its path from the root, each
//! failure link going to the longest proper suffix of that path in the
//! trie, and each state reporting the keys that end its path.

use vstd::prelude::*;

use crate::chars::{contains_seq, occurs_at};
use crate::mem::views;
use crate::radar::automaton::{build_machine, goto_of, key_chars, machine_ok, outputs_at, walk, Machine};
use crate::radar::{find_key, AhoCorasick};

verus! {

/// `u` ends `x`.
pub open spec fn is_suffix(u: Seq<char>, x: Seq<char>) -> bool {
    u.len() <= x.len() && x.subrange(x.len() - u.len(), x.len() as int) == u
}

/// `u` is a path of the trie.
pub open spec fn in_trie(edges: Seq<(u32, char, u32)>, u: Seq<char>) -> bool {
    walk(edges, 0, u) is Some
}

/// Every state is labeled by its path from the root: the root by the empty
/// text, the target of an edge by its source's label and the edge's scalar.
pub open spec fn labeled(edges: Seq<(u32, char, u32)>, labels: Seq<Seq<char>>) -> bool {
    let n = labels.len();
    &&& n >= 1
    &&& labels[0] == Seq::<char>::empty()
    &&& edges.len() + 1 == n
    &&& forall|s: int| 0 <= s < n ==> (#[trigger] labels[s]).len() < n && walk(edges, 0, labels[s]) == Some(s)
    &&& forall|k: int|
        0 <= k < edges.len() ==> (#[trigger] edges[k]).0 < n && 0 < edges[k].2 < n && labels[edges[k].2 as int]
            == labels[edges[k].0 as int].push(edges[k].1)
}

/// Each failure link goes to the longest proper suffix of the state's
/// label that is a path of the trie.
pub open spec fn fail_ok(edges: Seq<(u32, char, u32)>, labels: Seq<Seq<char>>, fail: Seq<u32>) -> bool {
    let n = labels.len();
    &&& fail.len() == n
    &&& fail[0] == 0
    &&& forall|s: int|
        1 <= s < n ==> {
            let f = #[trigger] fail[s] as int;
            &&& f < n
            &&& is_suffix(labels[f], labels[s])
            &&& labels[f].len() < labels[s].len()
            &&& forall|u: Seq<char>|
                #![trigger is_suffix(u, labels[s])]
                is_suffix(u, labels[s]) && u.len() < labels[s].len() && in_trie(edges, u) ==> u.len() <= labels[f].len()
        }
}

/// Every goto target is the target of an edge on that scalar.
pub proof fn lemma_goto_edge(edges: Seq<(u32, char, u32)>, node: int, c: char)
    ensures
        goto_of(edges, node, c) matches Some(t) ==> exists|k: int|
            0 <= k < edges.len() && #[trigger] edges[k].0 == node && edges[k].1 == c && edges[k].2 == t,
    decreases edges.len(),
{
    if edges.len() > 0 {
        lemma_goto_edge(edges.drop_last(), node, c);
        if let Some(t) = goto_of(edges.drop_last(), node, c) {
            let k = choose|k: int|
                0 <= k < edges.len() - 1 && #[trigger] edges.drop_last()[k].0 == node && edges.drop_last()[k].1 == c
                    && edges.drop_last()[k].2 == t;
            assert(edges[k] == edges.drop_last()[k]);
        }
    }
}

/// A walk from `a` along `w` ends at the state labeled `labels[a] + w`.
pub proof fn lemma_walk_label(edges: Seq<(u32, char, u32)>, labels: Seq<Seq<char>>, a: int, w: Seq<char>)
    requires
        labeled(edges, labels),
        0 <= a < labels.len(),
        walk(edges, a, w) is Some,
    ensures
        0 <= walk(edges, a, w)->0 < labels.len(),
        labels[walk(edges, a, w)->0] == labels[a] + w,
    decreases w.len(),
{
    if w.len() == 0 {
        assert(labels[a] + w =~= labels[a]);
    } else {
        let b = goto_of(edges, a, w[0])->0;
        lemma_goto_edge(edges, a, w[0]);
        let k = choose|k: int| 0 <= k < edges.len() && #[trigger] edges[k].0 == a && edges[k].1 == w[0] && edges[k].2 == b;
        assert(labels[b] == labels[a].push(w[0]));
        lemma_walk_label(edges, labels, b, w.drop_first());
        assert(labels[a].push(w[0]) + w.drop_first() =~= labels[a] + w);
    }
}

/// A path's prefixes are paths.
pub proof fn lemma_walk_prefix(edges: Seq<(u32, char, u32)>, a: int, w: Seq<char>, c: char)
    requires
        walk(edges, a, w.push(c)) is Some,
    ensures
        walk(edges, a, w) is Some,
        goto_of(edges, walk(edges, a, w)->0, c) == walk(edges, a, w.push(c)),
    decreases w.len(),
{
    if w.len() > 0 {
        assert(w.push(c)[0] == w[0]);
        assert(w.push(c).drop_first() =~= w.drop_first().push(c));
        let b = goto_of(edges, a, w[0])->0;
        lemma_walk_prefix(edges, b, w.drop_first(), c);
    } else {
        assert(w.push(c)[0] == c);
        assert(w.push(c).drop_first() =~= Seq::<char>::empty());
        if let Some(t) = goto_of(edges, a, c) {
            assert(walk(edges, t, Seq::<char>::empty()) == Some(t));
        }
    }
}

/// Two labels that are the same text name the same state.
pub proof fn lemma_label_unique(edges: Seq<(u32, char, u32)>, labels: Seq<Seq<char>>, s: int, t: int)
    requires
        labeled(edges, labels),
        0 <= s < labels.len(),
        0 <= t < labels.len(),
        labels[s] == labels[t],
    ensures
        s == t,
{
    assert(walk(edges, 0, labels[s]) == Some(s));
    assert(walk(edges, 0, labels[t]) == Some(t));
}

/// Of two suffixes of one text, the shorter ends the longer.
pub proof fn lemma_suffix_of_suffix(u: Seq<char>, v: Seq<char>, x: Seq<char>)
    requires
        is_suffix(u, x),
        is_suffix(v, x),
        u.len() <= v.len(),
    ensures
        is_suffix(u, v),
{
    assert forall|i: int| 0 <= i < u.len() implies v.subrange(v.len() - u.len(), v.len() as int)[i] == u[i] by {
        assert(x.subrange(x.len() - u.len(), x.len() as int)[i] == u[i]);
        assert(x.subrange(x.len() - v.len(), x.len() as int)[v.len() - u.len() + i] == v[v.len() - u.len() + i]);
    }
    assert(v.subrange(v.len() - u.len(), v.len() as int) =~= u);
}

/// Ending is transitive.
pub proof fn lemma_suffix_trans(u: Seq<char>, v: Seq<char>, x: Seq<char>)
    requires
        is_suffix(u, v),
        is_suffix(v, x),
    ensures
        is_suffix(u, x),
{
    assert forall|i: int| 0 <= i < u.len() implies x.subrange(x.len() - u.len(), x.len() as int)[i] == u[i] by {
        assert(v.subrange(v.len() - u.len(), v.len() as int)[i] == u[i]);
        assert(x.subrange(x.len() - v.len(), x.len() as int)[v.len() - u.len() + i] == v[v.len() - u.len() + i]);
    }
    assert(x.subrange(x.len() - u.len(), x.len() as int) =~= u);
}

/// A suffix of `x` followed by `c` ends `x` followed by `c`, and a
/// non-empty suffix of `x.push(c)` is a suffix of `x` followed by `c`.
pub proof fn lemma_suffix_push(u: Seq<char>, x: Seq<char>, c: char)
    ensures
        is_suffix(u, x) ==> is_suffix(u.push(c), x.push(c)),
        is_suffix(u, x.push(c)) && u.len() > 0 ==> u.last() == c && is_suffix(u.drop_last(), x),
{
    if is_suffix(u, x) {
        assert(x.push(c).subrange(x.len() - u.len(), x.len() as int + 1) =~= u.push(c)) by {
            assert forall|i: int| 0 <= i < u.len() implies x.push(c).subrange(x.len() - u.len(), x.len() as int + 1)[i]
                == u[i] by {
                assert(x.subrange(x.len() - u.len(), x.len() as int)[i] == u[i]);
            }
        }
    }
    if is_suffix(u, x.push(c)) && u.len() > 0 {
        let y = x.push(c);
        assert(y.subrange(y.len() - u.len(), y.len() as int)[u.len() - 1] == u[u.len() - 1]);
        assert(x.subrange(x.len() - (u.len() - 1), x.len() as int) =~= u.drop_last()) by {
            assert forall|i: int| 0 <= i < u.len() - 1 implies x.subrange(x.len() - (u.len() - 1), x.len() as int)[i]
                == u.drop_last()[i] by {
                assert(y.subrange(y.len() - u.len(), y.len() as int)[i] == u[i]);
            }
        }
    }
}

/// Following failure links from `node` until a goto edge on `c` fits or
/// the root is reached, within `fuel` steps.
pub open spec fn m_chase(edges: Seq<(u32, char, u32)>, fail: Seq<u32>, node: int, c: char, fuel: nat) -> int
    decreases fuel,
{
    if fuel == 0 || node == 0 || goto_of(edges, node, c) is Some || !(0 <= node < fail.len()) {
        node
    } else {
        m_chase(edges, fail, fail[node] as int, c, (fuel - 1) as nat)
    }
}

/// One step of the automaton on `c` from `node`.
pub open spec fn m_step(edges: Seq<(u32, char, u32)>, fail: Seq<u32>, node: int, c: char) -> int {
    match goto_of(edges, m_chase(edges, fail, node, c, fail.len()), c) {
        Some(t) => t,
        None => 0,
    }
}

/// The state after the first `i` scalars of `text`.
pub open spec fn m_state_after(edges: Seq<(u32, char, u32)>, fail: Seq<u32>, text: Seq<char>, i: nat) -> int
    decreases i,
{
    if i == 0 {
        0
    } else {
        m_step(edges, fail, m_state_after(edges, fail, text, (i - 1) as nat), text[i - 1])
    }
}

/// The keys reported at the states visited while reading `text`.
pub open spec fn m_found(m: Machine, keys: Seq<Seq<char>>, text: Seq<char>) -> Set<Seq<char>> {
    Set::new(
        |w: Seq<char>|
            exists|i: int, j: int|
                1 <= i <= text.len() && 0 <= j < keys.len() && keys[j] == w && #[trigger] outputs_at(
                    m.outputs@,
                    m_state_after(m.edges@, m.fail@, text, i as nat),
                    j,
                ),
    )
}

/// The keys that occur in `text`.
pub open spec fn keys_in(keys: Seq<Seq<char>>, text: Seq<char>) -> Set<Seq<char>> {
    Set::new(|w: Seq<char>| exists|j: int| 0 <= j < keys.len() && #[trigger] keys[j] == w && contains_seq(text, w))
}

/// `t` names the longest suffix of `x` that is a path of the trie.
pub open spec fn longest_in_trie(edges: Seq<(u32, char, u32)>, labels: Seq<Seq<char>>, x: Seq<char>, t: int) -> bool {
    &&& 0 <= t < labels.len()
    &&& is_suffix(labels[t], x)
    &&& forall|u: Seq<char>| #![trigger is_suffix(u, x), in_trie(edges, u)] is_suffix(u, x) && in_trie(edges, u) ==> u.len() <= labels[t].len()
}

/// Chasing failure links from `q` on `c` stops at a suffix of `q`'s label
/// such that no longer trie suffix of that label can be extended by `c`;
/// it stops elsewhere than the root only where an edge on `c` fits.
pub proof fn lemma_chase(edges: Seq<(u32, char, u32)>, labels: Seq<Seq<char>>, fail: Seq<u32>, q: int, c: char, fuel: nat)
    requires
        labeled(edges, labels),
        fail_ok(edges, labels, fail),
        0 <= q < labels.len(),
        fuel > labels[q].len(),
    ensures
        ({
            let r = m_chase(edges, fail, q, c, fuel);
            &&& 0 <= r < labels.len()
            &&& is_suffix(labels[r], labels[q])
            &&& (goto_of(edges, r, c) is None ==> r == 0)
            &&& forall|u: Seq<char>|
                #![trigger is_suffix(u, labels[q])]
                is_suffix(u, labels[q]) && in_trie(edges, u) && u.len() > labels[r].len() ==> !in_trie(edges, u.push(c))
        }),
    decreases fuel,
{
    let r = m_chase(edges, fail, q, c, fuel);
    let lq = labels[q];
    assert(lq.subrange(0, lq.len() as int) =~= lq);
    if q == 0 || goto_of(edges, q, c) is Some {
        assert(r == q);
    } else {
        let f = fail[q] as int;
        assert(1 <= q);
        assert(fail[q] as int == f);
        lemma_chase(edges, labels, fail, f, c, (fuel - 1) as nat);
        assert(r == m_chase(edges, fail, f, c, (fuel - 1) as nat));
        lemma_suffix_trans(labels[r], labels[f], lq);
        assert forall|u: Seq<char>|
            #![trigger is_suffix(u, labels[q])]
            is_suffix(u, labels[q]) && in_trie(edges, u) && u.len() > labels[r].len() implies !in_trie(edges, u.push(c)) by {
            if u.len() == lq.len() {
                assert(u =~= lq);
                assert(walk(edges, 0, lq) == Some(q));
                if in_trie(edges, u.push(c)) {
                    lemma_walk_prefix(edges, 0, u, c);
                }
            } else {
                assert(u.len() <= labels[f].len());
                lemma_suffix_of_suffix(u, labels[f], lq);
                assert(is_suffix(u, labels[f]));
            }
        }
    }
}

/// One step keeps the state at the longest trie suffix of what was read.
pub proof fn lemma_step(edges: Seq<(u32, char, u32)>, labels: Seq<Seq<char>>, fail: Seq<u32>, x: Seq<char>, q: int, c: char)
    requires
        labeled(edges, labels),
        fail_ok(edges, labels, fail),
        longest_in_trie(edges, labels, x, q),
    ensures
        longest_in_trie(edges, labels, x.push(c), m_step(edges, fail, q, c)),
{
    let n = labels.len();
    lemma_chase(edges, labels, fail, q, c, fail.len());
    let r = m_chase(edges, fail, q, c, fail.len());
    let t = m_step(edges, fail, q, c);
    lemma_suffix_trans(labels[r], labels[q], x);
    match goto_of(edges, r, c) {
        Some(tt) => {
            lemma_goto_edge(edges, r, c);
            let k = choose|k: int| 0 <= k < edges.len() && #[trigger] edges[k].0 == r && edges[k].1 == c && edges[k].2 == tt;
            assert(labels[t] == labels[r].push(c));
            lemma_suffix_push(labels[r], x, c);
        },
        None => {
            assert(t == 0);
            assert(labels[0].len() == 0);
            assert(x.push(c).subrange(x.push(c).len() as int, x.push(c).len() as int) =~= labels[0]);
        },
    }
    assert forall|u: Seq<char>| #![trigger is_suffix(u, x.push(c)), in_trie(edges, u)] is_suffix(u, x.push(c)) && in_trie(edges, u) implies u.len() <= labels[t].len() by {
        if u.len() > 0 {
            lemma_suffix_push(u, x, c);
            let v = u.drop_last();
            assert(v.push(c) =~= u);
            lemma_walk_prefix(edges, 0, v, c);
            assert(in_trie(edges, v));
            assert(is_suffix(v, x));
            assert(v.len() <= labels[q].len());
            lemma_suffix_of_suffix(v, labels[q], x);
            assert(is_suffix(v, labels[q]));
            if v.len() > labels[r].len() {
                assert(!in_trie(edges, v.push(c)));
            }
            if goto_of(edges, r, c) is None {
                assert(r == 0);
                assert(v.len() == 0);
                assert(v =~= labels[0]);
                assert(walk(edges, 0, labels[0]) == Some(0int));
                assert(goto_of(edges, 0, c) == walk(edges, 0, u));
            }
        }
    }
}

/// The state after reading a prefix names its longest trie suffix.
pub proof fn lemma_state_after(edges: Seq<(u32, char, u32)>, labels: Seq<Seq<char>>, fail: Seq<u32>, text: Seq<char>, i: nat)
    requires
        labeled(edges, labels),
        fail_ok(edges, labels, fail),
        i <= text.len(),
    ensures
        longest_in_trie(edges, labels, text.take(i as int), m_state_after(edges, fail, text, i)),
    decreases i,
{
    if i == 0 {
        assert(text.take(0) =~= Seq::<char>::empty());
        assert(labels[0] =~= text.take(0).subrange(0, 0));
        assert forall|u: Seq<char>| #![trigger is_suffix(u, text.take(0)), in_trie(edges, u)] is_suffix(u, text.take(0)) && in_trie(edges, u) implies u.len() <= labels[0].len() by {}
    } else {
        lemma_state_after(edges, labels, fail, text, (i - 1) as nat);
        assert(text.take(i as int) =~= text.take(i - 1).push(text[i - 1]));
        lemma_step(edges, labels, fail, text.take(i - 1), m_state_after(edges, fail, text, (i - 1) as nat), text[i - 1]);
    }
}

/// The reports are complete and sound for each state: a state reports
/// exactly the (non-empty) keys that end its label.
pub open spec fn outputs_exact(outputs: Seq<(u32, usize)>, labels: Seq<Seq<char>>, keys: Seq<Seq<char>>) -> bool {
    forall|s: int, j: int|
        0 <= s < labels.len() && 0 <= j < keys.len() && keys[j].len() > 0 ==> (#[trigger] outputs_at(outputs, s, j)
            <==> is_suffix(keys[j], labels[s]))
}

/// The keys recognized: each key is a path of the trie.
pub open spec fn keys_in_trie(edges: Seq<(u32, char, u32)>, keys: Seq<Seq<char>>) -> bool {
    forall|j: int| 0 <= j < keys.len() ==> in_trie(edges, #[trigger] keys[j])
}

/// A key ending a prefix of the text occurs in the text, and back.
proof fn lemma_occurs_suffix(text: Seq<char>, w: Seq<char>)
    requires
        w.len() > 0,
    ensures
        contains_seq(text, w) <==> exists|i: int| 1 <= i <= text.len() && #[trigger] is_suffix(w, text.take(i)),
{
    if contains_seq(text, w) {
        let at = choose|at: int| occurs_at(text, w, at);
        let i = at + w.len();
        assert(text.take(i).subrange(i - w.len(), i) =~= text.subrange(at, at + w.len()));
        assert(is_suffix(w, text.take(i)));
    }
    if exists|i: int| 1 <= i <= text.len() && #[trigger] is_suffix(w, text.take(i)) {
        let i = choose|i: int| 1 <= i <= text.len() && #[trigger] is_suffix(w, text.take(i));
        let at = i - w.len();
        assert(text.subrange(at, at + w.len()) =~= text.take(i).subrange(i - w.len(), i));
        assert(occurs_at(text, w, at));
    }
}

/// The automaton finds exactly the keys that occur in the text, when its
/// states are labeled by their paths, its failure links go to the longest
/// proper trie suffixes, every key is a path, each state reports exactly the
/// keys ending its label, and no key is empty.
pub proof fn lemma_finds_keys(m: Machine, labels: Seq<Seq<char>>, keys: Seq<Seq<char>>, text: Seq<char>)
    requires
        labeled(m.edges@, labels),
        fail_ok(m.edges@, labels, m.fail@),
        keys_in_trie(m.edges@, keys),
        outputs_exact(m.outputs@, labels, keys),
        forall|j: int| 0 <= j < keys.len() ==> (#[trigger] keys[j]).len() > 0,
    ensures
        m_found(m, keys, text) == keys_in(keys, text),
{
    let e = m.edges@;
    let f = m.fail@;
    assert forall|w: Seq<char>| m_found(m, keys, text).contains(w) implies keys_in(keys, text).contains(w) by {
        let (i, j) = choose|i: int, j: int|
            1 <= i <= text.len() && 0 <= j < keys.len() && keys[j] == w && #[trigger] outputs_at(
                m.outputs@,
                m_state_after(e, f, text, i as nat),
                j,
            );
        lemma_state_after(e, labels, f, text, i as nat);
        let t = m_state_after(e, f, text, i as nat);
        assert(is_suffix(keys[j], labels[t]));
        lemma_suffix_trans(keys[j], labels[t], text.take(i));
        lemma_occurs_suffix(text, w);
        assert(is_suffix(w, text.take(i)));
    }
    assert forall|w: Seq<char>| keys_in(keys, text).contains(w) implies m_found(m, keys, text).contains(w) by {
        let j = choose|j: int| 0 <= j < keys.len() && #[trigger] keys[j] == w && contains_seq(text, w);
        lemma_occurs_suffix(text, w);
        let i = choose|i: int| 1 <= i <= text.len() && #[trigger] is_suffix(w, text.take(i));
        lemma_state_after(e, labels, f, text, i as nat);
        let t = m_state_after(e, f, text, i as nat);
        assert(in_trie(e, keys[j]));
        assert(w.len() <= labels[t].len());
        lemma_suffix_of_suffix(w, labels[t], text.take(i));
        assert(outputs_at(m.outputs@, t, j));
    }
    assert(m_found(m, keys, text) =~= keys_in(keys, text));
}

/// The transitions of state `v` among the first `k` edges, in edge order.
pub open spec fn row_upto(edges: Seq<(u32, char, u32)>, v: int, k: int) -> Seq<(char, u32)>
    decreases k,
{
    if k <= 0 {
        Seq::empty()
    } else if edges[k - 1].0 == v {
        row_upto(edges, v, k - 1).push((edges[k - 1].1, edges[k - 1].2))
    } else {
        row_upto(edges, v, k - 1)
    }
}

/// The keys reported at state `v` among the first `k` reports.
pub open spec fn out_row(outputs: Seq<(u32, usize)>, keys: Seq<Seq<char>>, v: int, k: int) -> Seq<Seq<char>>
    decreases k,
{
    if k <= 0 {
        Seq::empty()
    } else if outputs[k - 1].0 == v {
        out_row(outputs, keys, v, k - 1).push(keys[outputs[k - 1].1 as int])
    } else {
        out_row(outputs, keys, v, k - 1)
    }
}

/// Looking up a scalar in a row with one more transition.
proof fn lemma_find_key_push(r: Seq<(char, u32)>, x: (char, u32), c: char)
    ensures
        find_key(r.push(x), c) == match find_key(r, c) {
            Some(t) => Some(t),
            None => if x.0 == c {
                Some(x.1)
            } else {
                None
            },
        },
    decreases r.len(),
{
    if r.len() > 0 {
        assert(r.push(x)[0] == r[0]);
        assert(r.push(x).drop_first() =~= r.drop_first().push(x));
        lemma_find_key_push(r.drop_first(), x, c);
    } else {
        assert(r.push(x)[0] == x);
        assert(r.push(x).drop_first() =~= Seq::<(char, u32)>::empty());
        assert(find_key(Seq::<(char, u32)>::empty(), c) is None);
        assert(find_key(r, c) is None);
    }
}

/// A state's row finds what the edges' first match gives.
proof fn lemma_row_goto(edges: Seq<(u32, char, u32)>, v: int, c: char, k: int)
    requires
        0 <= k <= edges.len(),
    ensures
        match find_key(row_upto(edges, v, k), c) {
            Some(t) => goto_of(edges.take(k), v, c) == Some(t as int),
            None => goto_of(edges.take(k), v, c) is None,
        },
    decreases k,
{
    if k > 0 {
        lemma_row_goto(edges, v, c, k - 1);
        assert(edges.take(k).drop_last() =~= edges.take(k - 1));
        assert(edges.take(k).last() == edges[k - 1]);
        if edges[k - 1].0 == v {
            lemma_find_key_push(row_upto(edges, v, k - 1), (edges[k - 1].1, edges[k - 1].2), c);
        }
    } else {
        assert(edges.take(0) =~= Seq::<(u32, char, u32)>::empty());
    }
}

/// A key is in a state's report row exactly when the state reports it.
proof fn lemma_out_row(outputs: Seq<(u32, usize)>, keys: Seq<Seq<char>>, v: int, k: int, w: Seq<char>)
    requires
        0 <= k <= outputs.len(),
        0 <= v <= u32::MAX,
        forall|q: int| 0 <= q < outputs.len() ==> (#[trigger] outputs[q]).1 < keys.len(),
    ensures
        out_row(outputs, keys, v, k).contains(w) <==> exists|q: int|
            0 <= q < k && #[trigger] outputs[q].0 == v && keys[outputs[q].1 as int] == w,
    decreases k,
{
    if k > 0 {
        lemma_out_row(outputs, keys, v, k - 1, w);
        let prev = out_row(outputs, keys, v, k - 1);
        if outputs[k - 1].0 == v {
            let cur = prev.push(keys[outputs[k - 1].1 as int]);
            if cur.contains(w) {
                let i = choose|i: int| 0 <= i < cur.len() && cur[i] == w;
                if i < prev.len() {
                    assert(prev[i] == w);
                }
            }
            if exists|q: int| 0 <= q < k && #[trigger] outputs[q].0 == v && keys[outputs[q].1 as int] == w {
                let q = choose|q: int| 0 <= q < k && #[trigger] outputs[q].0 == v && keys[outputs[q].1 as int] == w;
                if q < k - 1 {
                    let i = choose|i: int| 0 <= i < prev.len() && prev[i] == w;
                    assert(cur[i] == w);
                } else {
                    assert(cur[prev.len() as int] == w);
                }
            }
        } else {
            if exists|q: int| 0 <= q < k && #[trigger] outputs[q].0 == v && keys[outputs[q].1 as int] == w {
                let q = choose|q: int| 0 <= q < k && #[trigger] outputs[q].0 == v && keys[outputs[q].1 as int] == w;
                assert(q < k - 1);
            }
        }
    }
}

/// The compiled automaton's failure chase is the one `m_chase` follows.
proof fn lemma_chase_same(ac: AhoCorasick, edges: Seq<(u32, char, u32)>, labels: Seq<Seq<char>>, q: int, c: char, fuel: nat)
    requires
        ac.well_formed(),
        labeled(edges, labels),
        fail_ok(edges, labels, ac.fail@),
        ac.goto@.len() == labels.len(),
        forall|v: int, d: char| 0 <= v < labels.len() ==> #[trigger] ac.trans(v, d) == match goto_of(edges, v, d) {
            Some(t) => Some(t as u32),
            None => None,
        },
        0 <= q < labels.len(),
        fuel > labels[q].len(),
    ensures
        m_chase(edges, ac.fail@, q, c, fuel) == ac.chase(q, c),
    decreases labels[q].len(),
{
    if q != 0 && ac.trans(q, c) is None {
        let f = ac.fail@[q] as int;
        lemma_chase_same(ac, edges, labels, f, c, (fuel - 1) as nat);
    }
}

/// The same automaton read from its tables: goto rows per state in edge
/// order, the reported keys per state, and the failure links.
pub fn automaton_of(m: &Machine, keys: &Vec<String>) -> (ac: AhoCorasick)
    requires
        machine_ok(*m, views(keys@)),
    ensures
        ac.well_formed(),
        forall|text: Seq<char>| #[trigger] ac.found_within(text, text.len()) == m_found(*m, views(keys@), text),
{
    let ghost ks = views(keys@);
    let nkeys = keys.len();
    assert(ks.len() == nkeys);
    let n = m.fail.len();
    let mut goto: Vec<Vec<(char, u32)>> = Vec::new();
    let mut out: Vec<Vec<String>> = Vec::new();
    let mut v: usize = 0;
    while v < n
        invariant
            machine_ok(*m, ks),
            ks == views(keys@),
            n == m.fail@.len(),
            v <= n,
            goto@.len() == v,
            out@.len() == v,
            forall|x: int| 0 <= x < v ==> (#[trigger] goto@[x])@ == row_upto(m.edges@, x, m.edges@.len() as int),
            forall|x: int| 0 <= x < v ==> views((#[trigger] out@[x])@) == out_row(m.outputs@, ks, x, m.outputs@.len() as int),
        decreases n - v,
    {
        let mut row: Vec<(char, u32)> = Vec::new();
        let mut k: usize = 0;
        while k < m.edges.len()
            invariant
                k <= m.edges@.len(),
                row@ == row_upto(m.edges@, v as int, k as int),
            decreases m.edges.len() - k,
        {
            if m.edges[k].0 as usize == v {
                row.push((m.edges[k].1, m.edges[k].2));
            }
            k = k + 1;
        }
        let mut words: Vec<String> = Vec::new();
        let mut k: usize = 0;
        while k < m.outputs.len()
            invariant
                machine_ok(*m, ks),
                ks == views(keys@),
                k <= m.outputs@.len(),
                views(words@) == out_row(m.outputs@, ks, v as int, k as int),
            decreases m.outputs.len() - k,
        {
            if m.outputs[k].0 as usize == v {
                let ghost prev = words@;
                let j = m.outputs[k].1;
                assert(ks[j as int] == keys@[j as int]@);
                words.push(String::from_str(keys[j].as_str()));
                assert(views(words@) =~= views(prev).push(ks[j as int]));
            }
            k = k + 1;
        }
        goto.push(row);
        out.push(words);
        proof {
            assert forall|x: int| 0 <= x < v + 1 implies (#[trigger] goto@[x])@ == row_upto(m.edges@, x, m.edges@.len() as int) by {
                if x < v {
                    assert(goto@[x] == goto@.drop_last()[x]);
                }
            }
            assert forall|x: int| 0 <= x < v + 1 implies views((#[trigger] out@[x])@) == out_row(m.outputs@, ks, x, m.outputs@.len() as int) by {
                if x < v {
                    assert(out@[x] == out@.drop_last()[x]);
                }
            }
        }
        v = v + 1;
    }
    let mut fail: Vec<u32> = Vec::new();
    let mut k: usize = 0;
    while k < n
        invariant
            k <= n,
            n == m.fail@.len(),
            fail@ == m.fail@.take(k as int),
        decreases n - k,
    {
        fail.push(m.fail[k]);
        assert(fail@ =~= m.fail@.take(k + 1));
        k = k + 1;
    }
    assert(m.fail@.take(n as int) =~= m.fail@);
    let ac = AhoCorasick { goto, out, fail };
    proof {
        let e = m.edges@;
        assert(e.take(e.len() as int) =~= e);
        let l = choose|l: Seq<Seq<char>>| #[trigger] labeled(e, l) && fail_ok(e, l, m.fail@);
        assert forall|a: int, kk: int| 0 <= a < n && 0 <= kk < ac.goto@[a]@.len() implies (#[trigger] ac.goto@[a]@[kk]).1 < n by {
            let t = ac.goto@[a]@[kk];
            lemma_row_targets(e, a, e.len() as int, kk);
        }
        let rank = Seq::new(n as nat, |a: int| l[a].len());
        assert(ac.ranked_by(rank)) by {
            assert forall|a: int| 1 <= a < rank.len() implies rank[ac.fail@[a] as int] < #[trigger] rank[a] by {
                assert(ac.fail@[a] == m.fail@[a]);
            }
        }
        assert(ac.well_formed());
        assert forall|vv: int, d: char| 0 <= vv < l.len() implies #[trigger] ac.trans(vv, d) == match goto_of(e, vv, d) {
            Some(t) => Some(t as u32),
            None => None,
        } by {
            lemma_row_goto(e, vv, d, e.len() as int);
            if let Some(t) = goto_of(e, vv, d) {
                lemma_goto_edge(e, vv, d);
            }
        }
        assert forall|text: Seq<char>| #[trigger] ac.found_within(text, text.len()) == m_found(*m, ks, text) by {
            lemma_state_after_same(ac, *m, l, text, text.len());
            assert forall|w: Seq<char>| ac.found_within(text, text.len()).contains(w) == m_found(*m, ks, text).contains(w) by {
                if ac.found_within(text, text.len()).contains(w) {
                    let i = choose|i: int| 1 <= i <= text.len() && views(ac.out@[#[trigger] ac.state_after(text, i as nat)]@).contains(w);
                    lemma_state_after_same(ac, *m, l, text, i as nat);
                    let st = ac.state_after(text, i as nat);
                    lemma_out_row(m.outputs@, ks, st, m.outputs@.len() as int, w);
                    let q = choose|q: int| 0 <= q < m.outputs@.len() && #[trigger] m.outputs@[q].0 == st && ks[m.outputs@[q].1 as int] == w;
                    let j = m.outputs@[q].1 as int;
                    assert(m.outputs@[q] == (st as u32, j as usize));
                    assert(outputs_at(m.outputs@, m_state_after(e, m.fail@, text, i as nat), j));
                }
                if m_found(*m, ks, text).contains(w) {
                    let (i, j) = choose|i: int, j: int|
                        1 <= i <= text.len() && 0 <= j < ks.len() && ks[j] == w && #[trigger] outputs_at(
                            m.outputs@,
                            m_state_after(e, m.fail@, text, i as nat),
                            j,
                        );
                    lemma_state_after_same(ac, *m, l, text, i as nat);
                    let st = ac.state_after(text, i as nat);
                    let q = choose|q: int| 0 <= q < m.outputs@.len() && #[trigger] m.outputs@[q] == (st as u32, j as usize);
                    lemma_out_row(m.outputs@, ks, st, m.outputs@.len() as int, w);
                    assert(m.outputs@[q].0 == st);
                    assert(j < nkeys);
                    assert(m.outputs@[q].1 as int == j);
                    assert(ks[m.outputs@[q].1 as int] == w);
                    assert(out_row(m.outputs@, ks, st, m.outputs@.len() as int).contains(w));
                    assert(views(ac.out@[st]@) == out_row(m.outputs@, ks, st, m.outputs@.len() as int));
                }
            }
            assert(ac.found_within(text, text.len()) =~= m_found(*m, ks, text));
        }
    }
    ac
}

/// Every transition of a row leads to a state.
proof fn lemma_row_targets(edges: Seq<(u32, char, u32)>, v: int, k: int, i: int)
    requires
        0 <= k <= edges.len(),
        0 <= i < row_upto(edges, v, k).len(),
    ensures
        exists|q: int| 0 <= q < k && #[trigger] edges[q].2 == row_upto(edges, v, k)[i].1,
    decreases k,
{
    if k > 0 {
        if edges[k - 1].0 == v && i == row_upto(edges, v, k - 1).len() {
            assert(edges[k - 1].2 == row_upto(edges, v, k)[i].1);
        } else {
            lemma_row_targets(edges, v, k - 1, i);
            let q = choose|q: int| 0 <= q < k - 1 && #[trigger] edges[q].2 == row_upto(edges, v, k - 1)[i].1;
            assert(row_upto(edges, v, k)[i] == row_upto(edges, v, k - 1)[i]);
        }
    }
}

/// The compiled automaton passes through the same states as the machine.
proof fn lemma_state_after_same(ac: AhoCorasick, m: Machine, labels: Seq<Seq<char>>, text: Seq<char>, i: nat)
    requires
        ac.well_formed(),
        labeled(m.edges@, labels),
        fail_ok(m.edges@, labels, m.fail@),
        ac.fail@ == m.fail@,
        ac.goto@.len() == labels.len(),
        forall|v: int, d: char| 0 <= v < labels.len() ==> #[trigger] ac.trans(v, d) == match goto_of(m.edges@, v, d) {
            Some(t) => Some(t as u32),
            None => None,
        },
        i <= text.len(),
    ensures
        ac.state_after(text, i) == m_state_after(m.edges@, m.fail@, text, i),
        0 <= ac.state_after(text, i) < labels.len(),
    decreases i,
{
    if i > 0 {
        lemma_state_after_same(ac, m, labels, text, (i - 1) as nat);
        let q = ac.state_after(text, (i - 1) as nat);
        let c = text[i - 1];
        lemma_chase_same(ac, m.edges@, labels, q, c, m.fail@.len());
        lemma_chase(m.edges@, labels, m.fail@, q, c, m.fail@.len());
        let r = ac.chase(q, c);
        if let Some(t) = goto_of(m.edges@, r, c) {
            lemma_goto_edge(m.edges@, r, c);
        }
    }
}

/// Compiles the keyword automaton over `keys`: when no key is empty, reading
/// any text it reports exactly the keys that occur in that text. Nothing
/// only when its states would not fit a 32-bit index.
pub fn compile_automaton(keys: &Vec<String>) -> (r: Option<AhoCorasick>)
    ensures
        match r {
            Some(ac) => {
                &&& ac.well_formed()
                &&& (forall|j: int| 0 <= j < keys@.len() ==> (#[trigger] keys@[j])@.len() > 0) ==> forall|text: Seq<char>|
                    #[trigger] ac.found_within(text, text.len()) == keys_in(views(keys@), text)
            },
            None => key_chars(views(keys@)) + 1 >= u32::MAX,
        },
{
    match build_machine(keys) {
        None => None,
        Some(m) => {
            let ac = automaton_of(&m, keys);
            proof {
                let ks = views(keys@);
                if forall|j: int| 0 <= j < keys@.len() ==> (#[trigger] keys@[j])@.len() > 0 {
                    assert forall|j: int| 0 <= j < ks.len() implies (#[trigger] ks[j]).len() > 0 by {
                        assert(ks[j] == keys@[j]@);
                    }
                    assert forall|text: Seq<char>| #[trigger] ac.found_within(text, text.len()) == keys_in(ks, text) by {
                        assert(m_found(m, ks, text) == keys_in(ks, text));
                    }
                }
            }
            Some(ac)
        },
    }
}

} // verus!
