//! The incremental update of the index: from the hashes the index holds
//! and the cards on disk, which metadata rows and which rows of the two
//! full-text tables to delete and to insert, so that afterwards the index
//! holds every card's hashes and exactly the effective cards' texts.

use vstd::prelude::*;

use crate::chars::str_eq;

verus! {

broadcast use vstd::string::group_string_axioms;

/// The index's metadata hashes by card id (a later row wins).
pub open spec fn meta_map(m: Seq<(i64, String, String)>) -> Map<i64, (Seq<char>, Seq<char>)>
    decreases m.len(),
{
    if m.len() == 0 {
        Map::empty()
    } else {
        meta_map(m.drop_last()).insert(m.last().0, (m.last().1@, m.last().2@))
    }
}

/// A full-text table's semantic hashes by row id (a later row wins).
pub open spec fn fts_map(t: Seq<(i64, String)>) -> Map<i64, Seq<char>>
    decreases t.len(),
{
    if t.len() == 0 {
        Map::empty()
    } else {
        fts_map(t.drop_last()).insert(t.last().0, t.last().1@)
    }
}

/// The cards on disk by id, as semantic hash, source hash and whether the
/// card is effective (a later card wins).
pub open spec fn card_map(c: Seq<(i64, String, String, bool)>) -> Map<i64, (Seq<char>, Seq<char>, bool)>
    decreases c.len(),
{
    if c.len() == 0 {
        Map::empty()
    } else {
        card_map(c.drop_last()).insert(c.last().0, (c.last().1@, c.last().2@, c.last().3))
    }
}

/// A card whose hashes the index does not hold.
pub open spec fn changed(m: Map<i64, (Seq<char>, Seq<char>)>, c: Map<i64, (Seq<char>, Seq<char>, bool)>, id: i64) -> bool {
    c.contains_key(id) && !(m.contains_key(id) && m[id] == (c[id].0, c[id].1))
}

/// An indexed card that is no longer on disk.
pub open spec fn removed(m: Map<i64, (Seq<char>, Seq<char>)>, c: Map<i64, (Seq<char>, Seq<char>, bool)>, id: i64) -> bool {
    m.contains_key(id) && !c.contains_key(id)
}

/// An effective card.
pub open spec fn effective(c: Map<i64, (Seq<char>, Seq<char>, bool)>, id: i64) -> bool {
    c.contains_key(id) && c[id].2
}

/// Whether the text row `id` of a table goes: its card was removed or
/// changed, is not effective, or has another semantic hash.
pub open spec fn fts_delete(
    m: Map<i64, (Seq<char>, Seq<char>)>,
    c: Map<i64, (Seq<char>, Seq<char>, bool)>,
    t: Map<i64, Seq<char>>,
    id: i64,
) -> bool {
    t.contains_key(id) && (removed(m, c, id) || changed(m, c, id) || (c.contains_key(id) && (!c[id].2 || t[id]
        != c[id].0)))
}

/// Whether a text row is written for card `id`: it is effective and its row
/// does not survive.
pub open spec fn fts_insert(
    m: Map<i64, (Seq<char>, Seq<char>)>,
    c: Map<i64, (Seq<char>, Seq<char>, bool)>,
    t: Map<i64, Seq<char>>,
    id: i64,
) -> bool {
    effective(c, id) && (changed(m, c, id) || !t.contains_key(id) || t[id] != c[id].0)
}

/// The plan of an incremental update, as id lists.
pub struct SyncPlan {
    pub delete_meta: Vec<i64>,
    pub insert_meta: Vec<i64>,
    pub delete_fts: Vec<i64>,
    pub insert_fts: Vec<i64>,
    pub delete_tri: Vec<i64>,
    pub insert_tri: Vec<i64>,
}

/// A plan as sets of ids.
pub struct SyncPlanModel {
    pub delete_meta: Set<i64>,
    pub insert_meta: Set<i64>,
    pub delete_fts: Set<i64>,
    pub insert_fts: Set<i64>,
    pub delete_tri: Set<i64>,
    pub insert_tri: Set<i64>,
}

impl View for SyncPlan {
    type V = SyncPlanModel;

    open spec fn view(&self) -> SyncPlanModel {
        SyncPlanModel {
            delete_meta: self.delete_meta@.to_set(),
            insert_meta: self.insert_meta@.to_set(),
            delete_fts: self.delete_fts@.to_set(),
            insert_fts: self.insert_fts@.to_set(),
            delete_tri: self.delete_tri@.to_set(),
            insert_tri: self.insert_tri@.to_set(),
        }
    }
}

/// The plan: metadata rows of removed and changed cards go and those of
/// changed cards are written; in each text table the rows that do not fit
/// the cards go and the effective cards without a fitting row get one.
pub open spec fn sync_plan_seq(
    meta: Seq<(i64, String, String)>,
    fts: Seq<(i64, String)>,
    tri: Seq<(i64, String)>,
    cards: Seq<(i64, String, String, bool)>,
) -> SyncPlanModel {
    let m = meta_map(meta);
    let c = card_map(cards);
    let f = fts_map(fts);
    let g = fts_map(tri);
    SyncPlanModel {
        delete_meta: Set::new(|id: i64| removed(m, c, id) || changed(m, c, id)),
        insert_meta: Set::new(|id: i64| changed(m, c, id)),
        delete_fts: Set::new(|id: i64| fts_delete(m, c, f, id)),
        insert_fts: Set::new(|id: i64| fts_insert(m, c, f, id)),
        delete_tri: Set::new(|id: i64| fts_delete(m, c, g, id)),
        insert_tri: Set::new(|id: i64| fts_insert(m, c, g, id)),
    }
}

/// The metadata after a plan's deletions and insertions (inserted rows
/// carry the card's hashes).
pub open spec fn apply_meta(
    m: Map<i64, (Seq<char>, Seq<char>)>,
    del: Set<i64>,
    ins: Set<i64>,
    c: Map<i64, (Seq<char>, Seq<char>, bool)>,
) -> Map<i64, (Seq<char>, Seq<char>)> {
    Map::new(
        |id: i64| (m.contains_key(id) && !del.contains(id)) || ins.contains(id),
        |id: i64|
            if ins.contains(id) {
                (c[id].0, c[id].1)
            } else {
                m[id]
            },
    )
}

/// A text table after a plan's deletions and insertions (inserted rows
/// carry the card's semantic hash).
pub open spec fn apply_fts(
    t: Map<i64, Seq<char>>,
    del: Set<i64>,
    ins: Set<i64>,
    c: Map<i64, (Seq<char>, Seq<char>, bool)>,
) -> Map<i64, Seq<char>> {
    Map::new(
        |id: i64| (t.contains_key(id) && !del.contains(id)) || ins.contains(id),
        |id: i64|
            if ins.contains(id) {
                c[id].0
            } else {
                t[id]
            },
    )
}

/// The metadata a synced index holds: every card's hashes.
pub open spec fn synced_meta(c: Map<i64, (Seq<char>, Seq<char>, bool)>) -> Map<i64, (Seq<char>, Seq<char>)> {
    Map::new(|id: i64| c.contains_key(id), |id: i64| (c[id].0, c[id].1))
}

/// A text table of a synced index: the effective cards' semantic hashes.
pub open spec fn synced_fts(c: Map<i64, (Seq<char>, Seq<char>, bool)>) -> Map<i64, Seq<char>> {
    Map::new(|id: i64| effective(c, id), |id: i64| c[id].0)
}

/// The last entry of `meta` with id `id`, from the first `n`.
fn meta_lookup<'a>(meta: &'a Vec<(i64, String, String)>, id: i64) -> (r: Option<(&'a String, &'a String)>)
    ensures
        match r {
            Some((a, b)) => meta_map(meta@).contains_key(id) && meta_map(meta@)[id] == (a@, b@),
            None => !meta_map(meta@).contains_key(id),
        },
{
    let mut n: usize = meta.len();
    assert(meta@.take(n as int) =~= meta@);
    while n > 0
        invariant
            n <= meta.len(),
            meta_map(meta@).contains_key(id) == meta_map(meta@.take(n as int)).contains_key(id),
            meta_map(meta@).contains_key(id) ==> meta_map(meta@)[id] == meta_map(meta@.take(n as int))[id],
        decreases n,
    {
        assert(meta@.take(n as int).drop_last() =~= meta@.take(n - 1));
        if meta[n - 1].0 == id {
            return Some((&meta[n - 1].1, &meta[n - 1].2));
        }
        n = n - 1;
    }
    None
}

/// The last row of a text table with id `id`.
fn fts_lookup<'a>(t: &'a Vec<(i64, String)>, id: i64) -> (r: Option<&'a String>)
    ensures
        match r {
            Some(a) => fts_map(t@).contains_key(id) && fts_map(t@)[id] == a@,
            None => !fts_map(t@).contains_key(id),
        },
{
    let mut n: usize = t.len();
    assert(t@.take(n as int) =~= t@);
    while n > 0
        invariant
            n <= t.len(),
            fts_map(t@).contains_key(id) == fts_map(t@.take(n as int)).contains_key(id),
            fts_map(t@).contains_key(id) ==> fts_map(t@)[id] == fts_map(t@.take(n as int))[id],
        decreases n,
    {
        assert(t@.take(n as int).drop_last() =~= t@.take(n - 1));
        if t[n - 1].0 == id {
            return Some(&t[n - 1].1);
        }
        n = n - 1;
    }
    None
}

/// The last card with id `id`.
fn card_lookup<'a>(c: &'a Vec<(i64, String, String, bool)>, id: i64) -> (r: Option<(&'a String, &'a String, bool)>)
    ensures
        match r {
            Some((a, b, d)) => card_map(c@).contains_key(id) && card_map(c@)[id] == (a@, b@, d),
            None => !card_map(c@).contains_key(id),
        },
{
    let mut n: usize = c.len();
    assert(c@.take(n as int) =~= c@);
    while n > 0
        invariant
            n <= c.len(),
            card_map(c@).contains_key(id) == card_map(c@.take(n as int)).contains_key(id),
            card_map(c@).contains_key(id) ==> card_map(c@)[id] == card_map(c@.take(n as int))[id],
        decreases n,
    {
        assert(c@.take(n as int).drop_last() =~= c@.take(n - 1));
        if c[n - 1].0 == id {
            return Some((&c[n - 1].1, &c[n - 1].2, c[n - 1].3));
        }
        n = n - 1;
    }
    None
}

/// Every key of a metadata map comes from an entry.
proof fn lemma_meta_keys(m: Seq<(i64, String, String)>, id: i64)
    ensures
        meta_map(m).contains_key(id) <==> exists|k: int| 0 <= k < m.len() && #[trigger] m[k].0 == id,
    decreases m.len(),
{
    if m.len() > 0 {
        lemma_meta_keys(m.drop_last(), id);
        if exists|k: int| 0 <= k < m.len() && #[trigger] m[k].0 == id {
            let k = choose|k: int| 0 <= k < m.len() && #[trigger] m[k].0 == id;
            if k < m.len() - 1 {
                assert(m.drop_last()[k].0 == id);
            }
        }
        if exists|k: int| 0 <= k < m.len() - 1 && #[trigger] m.drop_last()[k].0 == id {
            let k = choose|k: int| 0 <= k < m.len() - 1 && #[trigger] m.drop_last()[k].0 == id;
            assert(m[k].0 == id);
        }
    }
}

/// Every key of a text-table map comes from a row.
proof fn lemma_fts_keys(t: Seq<(i64, String)>, id: i64)
    ensures
        fts_map(t).contains_key(id) <==> exists|k: int| 0 <= k < t.len() && #[trigger] t[k].0 == id,
    decreases t.len(),
{
    if t.len() > 0 {
        lemma_fts_keys(t.drop_last(), id);
        if exists|k: int| 0 <= k < t.len() && #[trigger] t[k].0 == id {
            let k = choose|k: int| 0 <= k < t.len() && #[trigger] t[k].0 == id;
            if k < t.len() - 1 {
                assert(t.drop_last()[k].0 == id);
            }
        }
        if exists|k: int| 0 <= k < t.len() - 1 && #[trigger] t.drop_last()[k].0 == id {
            let k = choose|k: int| 0 <= k < t.len() - 1 && #[trigger] t.drop_last()[k].0 == id;
            assert(t[k].0 == id);
        }
    }
}

/// Every key of a card map comes from a card.
proof fn lemma_card_keys(c: Seq<(i64, String, String, bool)>, id: i64)
    ensures
        card_map(c).contains_key(id) <==> exists|k: int| 0 <= k < c.len() && #[trigger] c[k].0 == id,
    decreases c.len(),
{
    if c.len() > 0 {
        lemma_card_keys(c.drop_last(), id);
        if exists|k: int| 0 <= k < c.len() && #[trigger] c[k].0 == id {
            let k = choose|k: int| 0 <= k < c.len() && #[trigger] c[k].0 == id;
            if k < c.len() - 1 {
                assert(c.drop_last()[k].0 == id);
            }
        }
        if exists|k: int| 0 <= k < c.len() - 1 && #[trigger] c.drop_last()[k].0 == id {
            let k = choose|k: int| 0 <= k < c.len() - 1 && #[trigger] c.drop_last()[k].0 == id;
            assert(c[k].0 == id);
        }
    }
}

/// Whether two optional texts agree.
fn same_text(a: Option<&String>, b: &String) -> (r: bool)
    ensures
        r == (a is Some && a->0@ == b@),
{
    match a {
        Some(x) => str_eq(x.as_str(), b.as_str()),
        None => false,
    }
}

/// Whether the card `id` changed against the index.
fn is_changed(meta: &Vec<(i64, String, String)>, cards: &Vec<(i64, String, String, bool)>, id: i64) -> (r: bool)
    ensures
        r == changed(meta_map(meta@), card_map(cards@), id),
{
    match card_lookup(cards, id) {
        None => false,
        Some((sem, src, _)) => match meta_lookup(meta, id) {
            None => true,
            Some((a, b)) => !(str_eq(a.as_str(), sem.as_str()) && str_eq(b.as_str(), src.as_str())),
        },
    }
}

/// The deletions and insertions of one text table.
fn table_plan(
    meta: &Vec<(i64, String, String)>,
    t: &Vec<(i64, String)>,
    cards: &Vec<(i64, String, String, bool)>,
) -> (r: (Vec<i64>, Vec<i64>))
    ensures
        r.0@.to_set() == Set::new(|id: i64| fts_delete(meta_map(meta@), card_map(cards@), fts_map(t@), id)),
        r.1@.to_set() == Set::new(|id: i64| fts_insert(meta_map(meta@), card_map(cards@), fts_map(t@), id)),
{
    let ghost m = meta_map(meta@);
    let ghost c = card_map(cards@);
    let ghost f = fts_map(t@);
    let mut del: Vec<i64> = Vec::new();
    let mut i: usize = 0;
    while i < t.len()
        invariant
            i <= t.len(),
            m == meta_map(meta@),
            c == card_map(cards@),
            f == fts_map(t@),
            forall|q: int| 0 <= q < del@.len() ==> fts_delete(m, c, f, #[trigger] del@[q]),
            forall|k: int| 0 <= k < i ==> fts_delete(m, c, f, #[trigger] t@[k].0) ==> del@.contains(t@[k].0),
        decreases t.len() - i,
    {
        let id = t[i].0;
        proof {
            lemma_fts_keys(t@, id);
        }
        let present = fts_lookup(t, id);
        let go = match card_lookup(cards, id) {
            None => meta_lookup(meta, id).is_some(),
            Some((sem, _, eff)) => is_changed(meta, cards, id) || !eff || !same_text(present, sem),
        };
        let ghost old_del = del@;
        if go {
            del.push(id);
        }
        proof {
            assert(go == fts_delete(m, c, f, id));
            assert forall|k: int| 0 <= k < i + 1 && fts_delete(m, c, f, #[trigger] t@[k].0) implies del@.contains(t@[k].0) by {
                if k < i {
                    let q = choose|q: int| 0 <= q < old_del.len() && old_del[q] == t@[k].0;
                    assert(del@[q] == old_del[q]);
                } else {
                    assert(del@[del@.len() - 1] == id);
                }
            }
        }
        i = i + 1;
    }
    assert forall|x: i64| fts_delete(m, c, f, x) implies del@.contains(x) by {
        lemma_fts_keys(t@, x);
        let k = choose|k: int| 0 <= k < t@.len() && #[trigger] t@[k].0 == x;
    }
    assert forall|x: i64| del@.contains(x) implies fts_delete(m, c, f, x) by {
        let q = choose|q: int| 0 <= q < del@.len() && del@[q] == x;
    }
    let mut ins: Vec<i64> = Vec::new();
    let mut j: usize = 0;
    while j < cards.len()
        invariant
            j <= cards.len(),
            m == meta_map(meta@),
            c == card_map(cards@),
            f == fts_map(t@),
            forall|q: int| 0 <= q < ins@.len() ==> fts_insert(m, c, f, #[trigger] ins@[q]),
            forall|k: int| 0 <= k < j ==> fts_insert(m, c, f, #[trigger] cards@[k].0) ==> ins@.contains(cards@[k].0),
        decreases cards.len() - j,
    {
        let id = cards[j].0;
        proof {
            lemma_card_keys(cards@, id);
        }
        let go = match card_lookup(cards, id) {
            None => false,
            Some((sem, _, eff)) => eff && (is_changed(meta, cards, id) || !same_text(fts_lookup(t, id), sem)),
        };
        let ghost old_ins = ins@;
        if go {
            ins.push(id);
        }
        proof {
            assert(go == fts_insert(m, c, f, id));
            assert forall|k: int| 0 <= k < j + 1 && fts_insert(m, c, f, #[trigger] cards@[k].0) implies ins@.contains(cards@[k].0) by {
                if k < j {
                    let q = choose|q: int| 0 <= q < old_ins.len() && old_ins[q] == cards@[k].0;
                    assert(ins@[q] == old_ins[q]);
                } else {
                    assert(ins@[ins@.len() - 1] == id);
                }
            }
        }
        j = j + 1;
    }
    assert forall|x: i64| fts_insert(m, c, f, x) implies ins@.contains(x) by {
        lemma_card_keys(cards@, x);
        let k = choose|k: int| 0 <= k < cards@.len() && #[trigger] cards@[k].0 == x;
    }
    assert forall|x: i64| ins@.contains(x) implies fts_insert(m, c, f, x) by {
        let q = choose|q: int| 0 <= q < ins@.len() && ins@[q] == x;
    }
    assert(del@.to_set() =~= Set::new(|id: i64| fts_delete(m, c, f, id)));
    assert(ins@.to_set() =~= Set::new(|id: i64| fts_insert(m, c, f, id)));
    (del, ins)
}

/// The plan of an incremental update of the index: from the metadata rows
/// (id, semantic hash, source hash), the rows (id, semantic hash) of the two
/// text tables and the cards on disk (id, semantic hash, source hash,
/// effective), which rows to delete and which to write.
pub fn plan_cache_sync(
    meta: &Vec<(i64, String, String)>,
    fts: &Vec<(i64, String)>,
    fts_tri: &Vec<(i64, String)>,
    cards: &Vec<(i64, String, String, bool)>,
) -> (r: SyncPlan)
    ensures
        r@ == sync_plan_seq(meta@, fts@, fts_tri@, cards@),
{
    let ghost m = meta_map(meta@);
    let ghost c = card_map(cards@);
    let mut delete_meta: Vec<i64> = Vec::new();
    let mut i: usize = 0;
    while i < meta.len()
        invariant
            i <= meta.len(),
            m == meta_map(meta@),
            c == card_map(cards@),
            forall|q: int| 0 <= q < delete_meta@.len() ==> removed(m, c, #[trigger] delete_meta@[q]) || changed(m, c, delete_meta@[q]),
            forall|k: int|
                0 <= k < i ==> (removed(m, c, #[trigger] meta@[k].0) || changed(m, c, meta@[k].0))
                    ==> delete_meta@.contains(meta@[k].0),
        decreases meta.len() - i,
    {
        let id = meta[i].0;
        proof {
            lemma_meta_keys(meta@, id);
        }
        let ghost old_del = delete_meta@;
        let go = card_lookup(cards, id).is_none() || is_changed(meta, cards, id);
        if go {
            delete_meta.push(id);
        }
        proof {
            assert(go == (removed(m, c, id) || changed(m, c, id)));
            assert forall|k: int|
                0 <= k < i + 1 && (removed(m, c, #[trigger] meta@[k].0) || changed(m, c, meta@[k].0)) implies delete_meta@.contains(
                meta@[k].0,
            ) by {
                if k < i {
                    let q = choose|q: int| 0 <= q < old_del.len() && old_del[q] == meta@[k].0;
                    assert(delete_meta@[q] == old_del[q]);
                } else {
                    assert(delete_meta@[delete_meta@.len() - 1] == id);
                }
            }
        }
        i = i + 1;
    }
    let mut insert_meta: Vec<i64> = Vec::new();
    let mut j: usize = 0;
    while j < cards.len()
        invariant
            j <= cards.len(),
            m == meta_map(meta@),
            c == card_map(cards@),
            forall|q: int| 0 <= q < delete_meta@.len() ==> removed(m, c, #[trigger] delete_meta@[q]) || changed(m, c, delete_meta@[q]),
            forall|k: int|
                0 <= k < meta@.len() ==> (removed(m, c, #[trigger] meta@[k].0) || changed(m, c, meta@[k].0))
                    ==> delete_meta@.contains(meta@[k].0),
            forall|k: int| 0 <= k < j ==> changed(m, c, #[trigger] cards@[k].0) ==> delete_meta@.contains(cards@[k].0),
            forall|q: int| 0 <= q < insert_meta@.len() ==> changed(m, c, #[trigger] insert_meta@[q]),
            forall|k: int| 0 <= k < j ==> changed(m, c, #[trigger] cards@[k].0) ==> insert_meta@.contains(cards@[k].0),
        decreases cards.len() - j,
    {
        let id = cards[j].0;
        let ghost old_del = delete_meta@;
        let ghost old_ins = insert_meta@;
        let go = is_changed(meta, cards, id);
        if go {
            delete_meta.push(id);
            insert_meta.push(id);
        }
        proof {
            assert forall|k: int|
                0 <= k < meta@.len() && (removed(m, c, #[trigger] meta@[k].0) || changed(m, c, meta@[k].0)) implies delete_meta@.contains(
                meta@[k].0,
            ) by {
                let q = choose|q: int| 0 <= q < old_del.len() && old_del[q] == meta@[k].0;
                assert(delete_meta@[q] == old_del[q]);
            }
            assert forall|k: int| 0 <= k < j + 1 && changed(m, c, #[trigger] cards@[k].0) implies delete_meta@.contains(cards@[k].0) && insert_meta@.contains(cards@[k].0) by {
                if k < j {
                    let q = choose|q: int| 0 <= q < old_del.len() && old_del[q] == cards@[k].0;
                    assert(delete_meta@[q] == old_del[q]);
                    let q2 = choose|q2: int| 0 <= q2 < old_ins.len() && old_ins[q2] == cards@[k].0;
                    assert(insert_meta@[q2] == old_ins[q2]);
                } else {
                    assert(delete_meta@[delete_meta@.len() - 1] == id);
                    assert(insert_meta@[insert_meta@.len() - 1] == id);
                }
            }
        }
        j = j + 1;
    }
    assert forall|x: i64| removed(m, c, x) || changed(m, c, x) implies delete_meta@.contains(x) by {
        lemma_meta_keys(meta@, x);
        lemma_card_keys(cards@, x);
        if removed(m, c, x) {
            let k = choose|k: int| 0 <= k < meta@.len() && #[trigger] meta@[k].0 == x;
        } else {
            let k = choose|k: int| 0 <= k < cards@.len() && #[trigger] cards@[k].0 == x;
        }
    }
    assert forall|x: i64| changed(m, c, x) implies insert_meta@.contains(x) by {
        lemma_card_keys(cards@, x);
        let k = choose|k: int| 0 <= k < cards@.len() && #[trigger] cards@[k].0 == x;
    }
    assert forall|x: i64| delete_meta@.contains(x) implies removed(m, c, x) || changed(m, c, x) by {
        let q = choose|q: int| 0 <= q < delete_meta@.len() && delete_meta@[q] == x;
    }
    assert forall|x: i64| insert_meta@.contains(x) implies changed(m, c, x) by {
        let q = choose|q: int| 0 <= q < insert_meta@.len() && insert_meta@[q] == x;
    }
    let (delete_fts, insert_fts) = table_plan(meta, fts, cards);
    let (delete_tri, insert_tri) = table_plan(meta, fts_tri, cards);
    let plan = SyncPlan { delete_meta, insert_meta, delete_fts, insert_fts, delete_tri, insert_tri };
    assert(plan@.delete_meta =~= Set::new(|id: i64| removed(m, c, id) || changed(m, c, id)));
    assert(plan@.insert_meta =~= Set::new(|id: i64| changed(m, c, id)));
    plan
}

/// Applying the plan brings the index in line with the cards: the
/// metadata holds every card's hashes, and each text table holds exactly the
/// effective cards with their semantic hashes, provided each text row
/// belongs to an indexed or present card.
pub proof fn law_sync_plan_applies(
    meta: Seq<(i64, String, String)>,
    fts: Seq<(i64, String)>,
    tri: Seq<(i64, String)>,
    cards: Seq<(i64, String, String, bool)>,
)
    requires
        forall|id: i64| #[trigger] fts_map(fts).contains_key(id) ==> meta_map(meta).contains_key(id) || card_map(cards).contains_key(id),
        forall|id: i64| #[trigger] fts_map(tri).contains_key(id) ==> meta_map(meta).contains_key(id) || card_map(cards).contains_key(id),
    ensures
        ({
            let p = sync_plan_seq(meta, fts, tri, cards);
            let c = card_map(cards);
            &&& apply_meta(meta_map(meta), p.delete_meta, p.insert_meta, c) == synced_meta(c)
            &&& apply_fts(fts_map(fts), p.delete_fts, p.insert_fts, c) == synced_fts(c)
            &&& apply_fts(fts_map(tri), p.delete_tri, p.insert_tri, c) == synced_fts(c)
        }),
{
    let p = sync_plan_seq(meta, fts, tri, cards);
    let c = card_map(cards);
    let m = meta_map(meta);
    assert(apply_meta(m, p.delete_meta, p.insert_meta, c) =~= synced_meta(c));
    assert(apply_fts(fts_map(fts), p.delete_fts, p.insert_fts, c) =~= synced_fts(c));
    assert(apply_fts(fts_map(tri), p.delete_tri, p.insert_tri, c) =~= synced_fts(c));
}

/// Whether a text table read back after the update holds exactly the
/// effective cards: no id twice, and the same ids and semantic hashes.
pub open spec fn table_synced(t: Seq<(i64, String)>, cards: Seq<(i64, String, String, bool)>) -> bool {
    &&& forall|a: int, b: int| 0 <= a < b < t.len() ==> #[trigger] t[a].0 != #[trigger] t[b].0
    &&& fts_map(t) == synced_fts(card_map(cards))
}

/// The check after an update: whether a text table read back holds exactly
/// the effective cards.
pub fn check_table_synced(t: &Vec<(i64, String)>, cards: &Vec<(i64, String, String, bool)>) -> (r: bool)
    ensures
        r == table_synced(t@, cards@),
{
    let ghost c = card_map(cards@);
    let ghost f = fts_map(t@);
    let mut a: usize = 0;
    while a < t.len()
        invariant
            a <= t.len(),
            forall|x: int, y: int| 0 <= x < y < t.len() && x < a ==> #[trigger] t@[x].0 != #[trigger] t@[y].0,
        decreases t.len() - a,
    {
        let mut b: usize = a + 1;
        while b < t.len()
            invariant
                a < b <= t.len(),
                forall|x: int, y: int| 0 <= x < y < t.len() && x < a ==> #[trigger] t@[x].0 != #[trigger] t@[y].0,
                forall|y: int| a < y < b ==> t@[a as int].0 != #[trigger] t@[y].0,
            decreases t.len() - b,
        {
            if t[a].0 == t[b].0 {
                return false;
            }
            b = b + 1;
        }
        a = a + 1;
    }
    let mut i: usize = 0;
    while i < t.len()
        invariant
            i <= t.len(),
            c == card_map(cards@),
            f == fts_map(t@),
            forall|k: int| 0 <= k < i ==> effective(c, #[trigger] t@[k].0) && f[t@[k].0] == c[t@[k].0].0,
        decreases t.len() - i,
    {
        let id = t[i].0;
        proof {
            lemma_fts_keys(t@, id);
        }
        match card_lookup(cards, id) {
            None => {
                return false;
            },
            Some((sem, _, eff)) => {
                if !eff || !same_text(fts_lookup(t, id), sem) {
                    return false;
                }
            },
        }
        i = i + 1;
    }
    let mut j: usize = 0;
    while j < cards.len()
        invariant
            j <= cards.len(),
            c == card_map(cards@),
            f == fts_map(t@),
            forall|k: int| 0 <= k < t@.len() ==> effective(c, #[trigger] t@[k].0) && f[t@[k].0] == c[t@[k].0].0,
            forall|k: int| 0 <= k < j ==> effective(c, #[trigger] cards@[k].0) ==> f.contains_key(cards@[k].0),
        decreases cards.len() - j,
    {
        let id = cards[j].0;
        proof {
            lemma_card_keys(cards@, id);
        }
        match card_lookup(cards, id) {
            Some((_, _, true)) => {
                if fts_lookup(t, id).is_none() {
                    proof {
                        assert(!table_synced(t@, cards@)) by {
                            assert(synced_fts(c).contains_key(id));
                        }
                    }
                    return false;
                }
            },
            _ => {},
        }
        j = j + 1;
    }
    assert forall|x: i64| #[trigger] f.contains_key(x) <==> synced_fts(c).contains_key(x) by {
        lemma_fts_keys(t@, x);
        lemma_card_keys(cards@, x);
        if f.contains_key(x) {
            let k = choose|k: int| 0 <= k < t@.len() && #[trigger] t@[k].0 == x;
        }
        if effective(c, x) {
            let k = choose|k: int| 0 <= k < cards@.len() && #[trigger] cards@[k].0 == x;
        }
    }
    assert forall|x: i64| #[trigger] f.contains_key(x) implies f[x] == synced_fts(c)[x] by {
        lemma_fts_keys(t@, x);
        let k = choose|k: int| 0 <= k < t@.len() && #[trigger] t@[k].0 == x;
    }
    assert(f =~= synced_fts(c));
    true
}

} // verus!
