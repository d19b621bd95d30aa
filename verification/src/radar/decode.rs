//! The radar's parsed sections turned into its anchor table and automaton,
//! with the structural checks that make the automaton safe to run.

use vstd::prelude::*;

use crate::chars::{extend_str, from_chars, int_text, push_int, str_eq};
use crate::json::{json_get, JsonValue};
use crate::mem::views;
use crate::radar::hits::{anchors_view, bucket_view, ref_view, refs_view, table_well_formed, words_nonempty, BucketModel, RefModel};
use crate::radar::{AhoCorasick, RadarBucket, RadarCardRef};
use crate::{Error, NORMALIZATION_VERSION, RADAR_COMPILER_VERSION};

verus! {

broadcast use vstd::string::group_string_axioms;

/// The integer of an optional value.
pub open spec fn json_int(v: Option<JsonValue>) -> Option<i64> {
    match v {
        Some(JsonValue::Int(x)) => Some(x),
        _ => None,
    }
}

/// The items of an optional list value.
pub open spec fn json_items(v: Option<JsonValue>) -> Option<Seq<JsonValue>> {
    match v {
        Some(JsonValue::Array(items)) => Some(items@),
        _ => None,
    }
}

/// The message naming a state whose transitions are refused.
pub open spec fn state_error(node: int, what: Seq<char>) -> Seq<char> {
    "雷达状态 "@ + int_text(node) + what
}

/// The transitions of a state from its (character, target) pairs.
pub open spec fn pairs_row(pairs: Seq<(String, JsonValue)>, node: int, states: int) -> Result<Seq<(char, u32)>, Seq<char>>
    decreases pairs.len(),
{
    if pairs.len() == 0 {
        Ok(Seq::empty())
    } else {
        match pairs_row(pairs.drop_last(), node, states) {
            Err(m) => Err(m),
            Ok(r) => {
                let k = pairs.last().0@;
                match pairs.last().1 {
                    JsonValue::Int(x) => if k.len() == 1 && 0 <= x < states {
                        Ok(r.push((k[0], x as u32)))
                    } else {
                        Err(state_error(node, " 存在越界转移"@))
                    },
                    _ => Err(state_error(node, " 存在越界转移"@)),
                }
            },
        }
    }
}

/// The transition rows of the states.
pub open spec fn rows_of(items: Seq<JsonValue>, states: int) -> Result<Seq<Seq<(char, u32)>>, Seq<char>>
    decreases items.len(),
{
    if items.len() == 0 {
        Ok(Seq::empty())
    } else {
        match rows_of(items.drop_last(), states) {
            Err(m) => Err(m),
            Ok(rs) => match items.last() {
                JsonValue::Object(pairs) => match pairs_row(pairs@, items.len() - 1, states) {
                    Err(m) => Err(m),
                    Ok(r) => Ok(rs.push(r)),
                },
                _ => Err(state_error(items.len() - 1, " 转移非法"@)),
            },
        }
    }
}

/// The number of transitions.
pub open spec fn edge_total(rows: Seq<Seq<(char, u32)>>) -> int
    decreases rows.len(),
{
    if rows.len() == 0 {
        0
    } else {
        edge_total(rows.drop_last()) + rows.last().len()
    }
}

/// The failure links.
pub open spec fn fails_of(items: Seq<JsonValue>, states: int) -> Result<Seq<u32>, Seq<char>>
    decreases items.len(),
{
    if items.len() == 0 {
        Ok(Seq::empty())
    } else {
        match fails_of(items.drop_last(), states) {
            Err(m) => Err(m),
            Ok(fs) => match items.last() {
                JsonValue::Int(x) => if 0 <= x < states {
                    Ok(fs.push(x as u32))
                } else {
                    Err("雷达边数或失败指针非法"@)
                },
                _ => Err("雷达边数或失败指针非法"@),
            },
        }
    }
}

/// The number of transitions into `t` within `row`.
pub open spec fn row_in(row: Seq<(char, u32)>, t: int) -> int
    decreases row.len(),
{
    if row.len() == 0 {
        0
    } else {
        row_in(row.drop_last(), t) + if row.last().1 == t {
            1int
        } else {
            0int
        }
    }
}

/// The number of transitions into `t`.
pub open spec fn in_count(rows: Seq<Seq<(char, u32)>>, t: int) -> int
    decreases rows.len(),
{
    if rows.len() == 0 {
        0
    } else {
        in_count(rows.drop_last(), t) + row_in(rows.last(), t)
    }
}

/// Every state but the root is entered by exactly one transition, the root
/// by none.
pub open spec fn single_rooted(rows: Seq<Seq<(char, u32)>>) -> bool {
    in_count(rows, 0) == 0 && forall|t: int| 1 <= t < rows.len() ==> #[trigger] in_count(rows, t) == 1
}

/// The automaton's shape: states, transitions and failure links, with the
/// output lists still to check.
pub type Shape = (Seq<Seq<(char, u32)>>, Seq<u32>, Seq<JsonValue>);

/// The checks of the metadata and automaton sections before their
/// reachability: object sections; integer compiler version, normalization
/// version, state and edge counts and largest index; matching versions;
/// `goto`, `out` and `fail` lists; sizes; each transition a single
/// character to a state; the edge count; each failure link a state; a
/// single-rooted trie.
pub open spec fn radar_shape(meta: JsonValue, machine: JsonValue) -> Result<Shape, Seq<char>> {
    if !(meta is Object) || !(machine is Object) {
        Err("雷达元数据或自动机区段非法"@)
    } else {
        let cv = json_int(json_get(meta, "compiler_version"@));
        let nv = json_int(json_get(meta, "normalization_version"@));
        let st = json_int(json_get(meta, "states"@));
        let ed = json_int(json_get(meta, "edges"@));
        let mx = json_int(json_get(meta, "max_index"@));
        if cv is None || nv is None || st is None || ed is None || mx is None {
            Err("雷达元数据字段非法"@)
        } else if cv.unwrap() != RADAR_COMPILER_VERSION || nv.unwrap() != NORMALIZATION_VERSION {
            Err("雷达编译器或规范化版本不兼容"@)
        } else {
            let goto = json_items(json_get(machine, "goto"@));
            let out = json_items(json_get(machine, "out"@));
            let fail = json_items(json_get(machine, "fail"@));
            if goto is None || out is None || fail is None {
                Err("雷达自动机结构非法"@)
            } else {
                let states = st.unwrap() as int;
                let edges = ed.unwrap() as int;
                if !(0 < states && states <= 1000000) || goto.unwrap().len() != states || out.unwrap().len() != states
                    || fail.unwrap().len() != states || mx.unwrap() != states - 1 || !(0 <= edges && edges <= 5000000) {
                    Err("雷达自动机规模字段非法"@)
                } else {
                    match rows_of(goto.unwrap(), states) {
                        Err(m) => Err(m),
                        Ok(rows) => if edge_total(rows) != edges {
                            Err("雷达边数或失败指针非法"@)
                        } else {
                            match fails_of(fail.unwrap(), states) {
                                Err(m) => Err(m),
                                Ok(fs) => if !single_rooted(rows) {
                                    Err("雷达自动机不是单根前缀树"@)
                                } else {
                                    Ok((rows, fs, out.unwrap()))
                                },
                            }
                        },
                    }
                }
            }
        }
    }
}

/// A card reference of an anchor entry.
pub open spec fn card_ref_of(item: JsonValue) -> Option<RefModel> {
    let id = json_int(json_get(item, "id"@));
    let strength = match json_get(item, "strength"@) {
        Some(JsonValue::Str(s)) => Some(s@),
        _ => None,
    };
    let kind = match json_get(item, "kind"@) {
        Some(JsonValue::Str(s)) => Some(s@),
        _ => None,
    };
    let manual = match json_get(item, "manual"@) {
        Some(JsonValue::Bool(b)) => Some(b),
        _ => None,
    };
    let scope = match json_get(item, "scope"@) {
        Some(JsonValue::Str(s)) => Some(s@),
        _ => None,
    };
    if id is Some && strength is Some && kind is Some && manual is Some && scope is Some && id.unwrap() > 0 && (
    strength.unwrap() == "strong"@ || strength.unwrap() == "weak"@) && (kind.unwrap() == "manual"@ || kind.unwrap()
        == "url"@ || kind.unwrap() == "domain"@ || kind.unwrap() == "path"@ || kind.unwrap() == "identifier"@) {
        Some((id.unwrap(), strength.unwrap() == "strong"@, kind.unwrap(), manual.unwrap(), scope.unwrap()))
    } else {
        None
    }
}

/// The card references of an anchor entry.
pub open spec fn card_refs_of(items: Seq<JsonValue>) -> Option<Seq<RefModel>>
    decreases items.len(),
{
    if items.len() == 0 {
        Some(Seq::empty())
    } else {
        match card_refs_of(items.drop_last()) {
            None => None,
            Some(rs) => match card_ref_of(items.last()) {
                None => None,
                Some(r) => Some(rs.push(r)),
            },
        }
    }
}

/// An anchor entry: a non-empty anchor, a display text and valid cards.
pub open spec fn entry_of(key: Seq<char>, bucket: JsonValue) -> Result<(Seq<char>, BucketModel), Seq<char>> {
    let display = match json_get(bucket, "display"@) {
        Some(JsonValue::Str(s)) => Some(s@),
        _ => None,
    };
    let cards = json_items(json_get(bucket, "cards"@));
    if key.len() == 0 || display is None || cards is None {
        Err("雷达锚点结构非法"@)
    } else {
        match card_refs_of(cards.unwrap()) {
            None => Err("雷达卡片引用非法"@),
            Some(rs) => Ok((key, (display.unwrap(), rs))),
        }
    }
}

/// `e` added to the table, replacing an entry with the same anchor.
pub open spec fn put_entry(t: Seq<(Seq<char>, BucketModel)>, e: (Seq<char>, BucketModel)) -> Seq<(Seq<char>, BucketModel)> {
    if exists|i: int| 0 <= i < t.len() && (#[trigger] t[i]).0 == e.0 {
        t.update(choose|i: int| 0 <= i < t.len() && (#[trigger] t[i]).0 == e.0, e)
    } else {
        t.push(e)
    }
}

/// The anchor table of the entries.
pub open spec fn table_of(pairs: Seq<(String, JsonValue)>) -> Result<Seq<(Seq<char>, BucketModel)>, Seq<char>>
    decreases pairs.len(),
{
    if pairs.len() == 0 {
        Ok(Seq::empty())
    } else {
        match table_of(pairs.drop_last()) {
            Err(m) => Err(m),
            Ok(t) => match entry_of(pairs.last().0@, pairs.last().1) {
                Err(m) => Err(m),
                Ok(e) => Ok(put_entry(t, e)),
            },
        }
    }
}

/// The anchor table of the anchor section.
pub open spec fn radar_table(anchors: JsonValue) -> Result<Seq<(Seq<char>, BucketModel)>, Seq<char>> {
    match anchors {
        JsonValue::Object(pairs) => table_of(pairs@),
        _ => Err("雷达锚点区段非法"@),
    }
}

/// Whether `w` is an anchor of the table.
pub open spec fn has_anchor(t: Seq<(Seq<char>, BucketModel)>, w: Seq<char>) -> bool {
    exists|i: int| 0 <= i < t.len() && (#[trigger] t[i]).0 == w
}

/// The words of one output list, each an anchor of the table.
pub open spec fn words_of(items: Seq<JsonValue>, t: Seq<(Seq<char>, BucketModel)>) -> Option<Seq<Seq<char>>>
    decreases items.len(),
{
    if items.len() == 0 {
        Some(Seq::empty())
    } else {
        match words_of(items.drop_last(), t) {
            None => None,
            Some(ws) => match items.last() {
                JsonValue::Str(s) => if has_anchor(t, s@) {
                    Some(ws.push(s@))
                } else {
                    None
                },
                _ => None,
            },
        }
    }
}

/// The output lists of the states.
pub open spec fn outs_of(items: Seq<JsonValue>, t: Seq<(Seq<char>, BucketModel)>) -> Option<Seq<Seq<Seq<char>>>>
    decreases items.len(),
{
    if items.len() == 0 {
        Some(Seq::empty())
    } else {
        match outs_of(items.drop_last(), t) {
            None => None,
            Some(os) => match items.last() {
                JsonValue::Array(ws) => match words_of(ws@, t) {
                    None => None,
                    Some(w) => Some(os.push(w)),
                },
                _ => None,
            },
        }
    }
}

/// The plain values of the automaton's rows, failure links and outputs.
pub open spec fn machine_view(ac: AhoCorasick) -> (Seq<Seq<(char, u32)>>, Seq<u32>, Seq<Seq<Seq<char>>>) {
    (
        ac.goto@.map_values(|r: Vec<(char, u32)>| r@),
        ac.fail@,
        ac.out@.map_values(|o: Vec<String>| views(o@)),
    )
}


fn msg(text: &str) -> (r: Vec<char>)
    ensures
        r@ == text@,
{
    let mut v: Vec<char> = Vec::new();
    extend_str(&mut v, text);
    v
}

fn state_msg(node: usize, what: &str) -> (r: Vec<char>)
    requires
        node <= 1000000,
    ensures
        r@ == state_error(node as int, what@),
{
    let mut v: Vec<char> = Vec::new();
    extend_str(&mut v, "雷达状态 ");
    push_int(&mut v, node as i64);
    extend_str(&mut v, what);
    v
}

fn int_of(v: Option<&JsonValue>) -> (r: Option<i64>)
    ensures
        r == json_int(crate::json::deref_opt(v)),
{
    match v {
        Some(JsonValue::Int(x)) => Some(*x),
        _ => None,
    }
}

fn items_of<'a>(v: Option<&'a JsonValue>) -> (r: Option<&'a Vec<JsonValue>>)
    ensures
        match json_items(crate::json::deref_opt(v)) {
            Some(s) => r matches Some(x) && x@ == s,
            None => r is None,
        },
{
    match v {
        Some(JsonValue::Array(items)) => Some(items),
        _ => None,
    }
}

/// The transitions of state `node`.
fn row_from(pairs: &Vec<(String, JsonValue)>, node: usize, states: i64) -> (r: Result<Vec<(char, u32)>, Vec<char>>)
    requires
        0 < states <= 1000000,
        node <= 1000000,
    ensures
        match pairs_row(pairs@, node as int, states as int) {
            Ok(row) => r matches Ok(x) && x@ == row,
            Err(m) => r matches Err(x) && x@ == m,
        },
{
    let mut row: Vec<(char, u32)> = Vec::new();
    let mut i: usize = 0;
    while i < pairs.len()
        invariant
            i <= pairs@.len(),
            0 < states <= 1000000,
            node <= 1000000,
            pairs_row(pairs@.take(i as int), node as int, states as int) == Ok::<Seq<(char, u32)>, Seq<char>>(row@),
        decreases pairs.len() - i,
    {
        assert(pairs@.take(i + 1).drop_last() =~= pairs@.take(i as int));
        assert(pairs@.take(i + 1).last() == pairs@[i as int]);
        let kc = crate::chars::to_chars(pairs[i].0.as_str());
        let target = match &pairs[i].1 {
            JsonValue::Int(x) => Some(*x),
            _ => None,
        };
        match target {
            Some(x) => {
                if kc.len() == 1 && 0 <= x && x < states {
                    row.push((kc[0], x as u32));
                } else {
                    proof {
                        lemma_pairs_row_err(pairs@, i + 1, node as int, states as int);
                    }
                    return Err(state_msg(node, " 存在越界转移"));
                }
            },
            None => {
                proof {
                    lemma_pairs_row_err(pairs@, i + 1, node as int, states as int);
                }
                return Err(state_msg(node, " 存在越界转移"));
            },
        }
        i = i + 1;
    }
    assert(pairs@.take(pairs.len() as int) =~= pairs@);
    Ok(row)
}

proof fn lemma_pairs_row_err(pairs: Seq<(String, JsonValue)>, m: int, node: int, states: int)
    requires
        0 <= m <= pairs.len(),
        pairs_row(pairs.take(m), node, states) is Err,
    ensures
        pairs_row(pairs, node, states) == pairs_row(pairs.take(m), node, states),
    decreases pairs.len() - m,
{
    if m < pairs.len() {
        assert(pairs.take(m + 1).drop_last() =~= pairs.take(m));
        lemma_pairs_row_err(pairs, m + 1, node, states);
    } else {
        assert(pairs.take(m) =~= pairs);
    }
}

proof fn lemma_rows_err(items: Seq<JsonValue>, m: int, states: int)
    requires
        0 <= m <= items.len(),
        rows_of(items.take(m), states) is Err,
    ensures
        rows_of(items, states) == rows_of(items.take(m), states),
    decreases items.len() - m,
{
    if m < items.len() {
        assert(items.take(m + 1).drop_last() =~= items.take(m));
        lemma_rows_err(items, m + 1, states);
    } else {
        assert(items.take(m) =~= items);
    }
}

proof fn lemma_fails_err(items: Seq<JsonValue>, m: int, states: int)
    requires
        0 <= m <= items.len(),
        fails_of(items.take(m), states) is Err,
    ensures
        fails_of(items, states) == fails_of(items.take(m), states),
    decreases items.len() - m,
{
    if m < items.len() {
        assert(items.take(m + 1).drop_last() =~= items.take(m));
        lemma_fails_err(items, m + 1, states);
    } else {
        assert(items.take(m) =~= items);
    }
}

/// The transition rows of all states.
fn rows_from(items: &Vec<JsonValue>, states: i64) -> (r: Result<Vec<Vec<(char, u32)>>, Vec<char>>)
    requires
        0 < states <= 1000000,
        items@.len() <= 1000000,
    ensures
        match rows_of(items@, states as int) {
            Ok(rows) => r matches Ok(x) && x@.map_values(|v: Vec<(char, u32)>| v@) == rows,
            Err(m) => r matches Err(x) && x@ == m,
        },
{
    let mut rows: Vec<Vec<(char, u32)>> = Vec::new();
    let mut i: usize = 0;
    assert(rows@.map_values(|v: Vec<(char, u32)>| v@) =~= Seq::<Seq<(char, u32)>>::empty());
    assert(items@.take(0) =~= Seq::<JsonValue>::empty());
    while i < items.len()
        invariant
            i <= items@.len(),
            items@.len() <= 1000000,
            0 < states <= 1000000,
            rows_of(items@.take(i as int), states as int) == Ok::<Seq<Seq<(char, u32)>>, Seq<char>>(
                rows@.map_values(|v: Vec<(char, u32)>| v@),
            ),
        decreases items.len() - i,
    {
        assert(items@.take(i + 1).drop_last() =~= items@.take(i as int));
        assert(items@.take(i + 1).last() == items@[i as int]);
        match &items[i] {
            JsonValue::Object(pairs) => {
                match row_from(pairs, i, states) {
                    Ok(row) => {
                        let ghost prev = rows@;
                        rows.push(row);
                        assert(rows@.map_values(|v: Vec<(char, u32)>| v@) =~= prev.map_values(
                            |v: Vec<(char, u32)>| v@,
                        ).push(row@));
                    },
                    Err(m) => {
                        proof {
                            lemma_rows_err(items@, i + 1, states as int);
                        }
                        return Err(m);
                    },
                }
            },
            _ => {
                proof {
                    lemma_rows_err(items@, i + 1, states as int);
                }
                return Err(state_msg(i, " 转移非法"));
            },
        }
        i = i + 1;
    }
    assert(items@.take(items.len() as int) =~= items@);
    Ok(rows)
}

/// Prefix totals of the edge count do not exceed the whole.
proof fn lemma_edge_total_prefix(rows: Seq<Seq<(char, u32)>>, i: int)
    requires
        0 <= i <= rows.len(),
    ensures
        0 <= edge_total(rows.take(i)) <= edge_total(rows),
    decreases rows.len() - i,
{
    if i < rows.len() {
        lemma_edge_total_prefix(rows, i + 1);
        assert(rows.take(i + 1).drop_last() =~= rows.take(i));
    } else {
        assert(rows.take(i) =~= rows);
    }
    lemma_edge_total_nonneg(rows.take(i));
}

proof fn lemma_edge_total_nonneg(rows: Seq<Seq<(char, u32)>>)
    ensures
        edge_total(rows) >= 0,
    decreases rows.len(),
{
    if rows.len() > 0 {
        lemma_edge_total_nonneg(rows.drop_last());
    }
}

/// Whether the transitions number exactly `edges` (at most five million).
fn edges_match(rows: &Vec<Vec<(char, u32)>>, edges: i64) -> (r: bool)
    requires
        0 <= edges <= 5000000,
    ensures
        r == (edge_total(rows@.map_values(|v: Vec<(char, u32)>| v@)) == edges),
{
    let ghost rv = rows@.map_values(|v: Vec<(char, u32)>| v@);
    let mut total: u64 = 0;
    let mut i: usize = 0;
    while i < rows.len()
        invariant
            i <= rows@.len(),
            rv == rows@.map_values(|v: Vec<(char, u32)>| v@),
            total == edge_total(rv.take(i as int)),
            total <= 5000000,
            0 <= edges <= 5000000,
        decreases rows.len() - i,
    {
        assert(rv.take(i + 1).drop_last() =~= rv.take(i as int));
        assert(rv.take(i + 1).last() == rows@[i as int]@);
        let len = rows[i].len() as u64;
        if len > 5000000 - total {
            proof {
                lemma_edge_total_prefix(rv, i + 1);
                assert(edge_total(rv.take(i + 1)) == total + len);
                assert(edge_total(rv) > 5000000);
            }
            return false;
        }
        total = total + len;
        i = i + 1;
    }
    assert(rv.take(rows.len() as int) =~= rv);
    total == edges as u64
}

/// The failure links.
fn fails_from(items: &Vec<JsonValue>, states: i64) -> (r: Result<Vec<u32>, Vec<char>>)
    requires
        0 < states <= 1000000,
    ensures
        match fails_of(items@, states as int) {
            Ok(fs) => r matches Ok(x) && x@ == fs,
            Err(m) => r matches Err(x) && x@ == m,
        },
{
    let mut fs: Vec<u32> = Vec::new();
    let mut i: usize = 0;
    while i < items.len()
        invariant
            i <= items@.len(),
            0 < states <= 1000000,
            fails_of(items@.take(i as int), states as int) == Ok::<Seq<u32>, Seq<char>>(fs@),
        decreases items.len() - i,
    {
        assert(items@.take(i + 1).drop_last() =~= items@.take(i as int));
        assert(items@.take(i + 1).last() == items@[i as int]);
        let ok = match &items[i] {
            JsonValue::Int(x) => {
                if 0 <= *x && *x < states {
                    fs.push(*x as u32);
                    true
                } else {
                    false
                }
            },
            _ => false,
        };
        if !ok {
            proof {
                lemma_fails_err(items@, i + 1, states as int);
            }
            return Err(msg("雷达边数或失败指针非法"));
        }
        i = i + 1;
    }
    assert(items@.take(items.len() as int) =~= items@);
    Ok(fs)
}

proof fn lemma_row_in_bound(row: Seq<(char, u32)>, t: int)
    ensures
        0 <= row_in(row, t) <= row.len(),
    decreases row.len(),
{
    if row.len() > 0 {
        lemma_row_in_bound(row.drop_last(), t);
    }
}

proof fn lemma_in_count_bound(rows: Seq<Seq<(char, u32)>>, t: int)
    ensures
        0 <= in_count(rows, t) <= edge_total(rows),
    decreases rows.len(),
{
    if rows.len() > 0 {
        lemma_in_count_bound(rows.drop_last(), t);
        lemma_row_in_bound(rows.last(), t);
    }
}

/// Whether every state but the root is entered exactly once, the root never.
fn check_single_rooted(rows: &Vec<Vec<(char, u32)>>, states: usize) -> (r: bool)
    requires
        rows@.len() == states,
        0 < states <= 1000000,
        edge_total(rows@.map_values(|v: Vec<(char, u32)>| v@)) <= 5000000,
        forall|a: int, k: int| 0 <= a < states && 0 <= k < rows@[a]@.len() ==> (#[trigger] rows@[a]@[k]).1 < states,
    ensures
        r == single_rooted(rows@.map_values(|v: Vec<(char, u32)>| v@)),
{
    let ghost rv = rows@.map_values(|v: Vec<(char, u32)>| v@);
    let mut incoming: Vec<u64> = Vec::new();
    let mut z: usize = 0;
    while z < states
        invariant
            z <= states,
            incoming@.len() == z,
            forall|t: int| 0 <= t < z ==> incoming@[t] == 0,
        decreases states - z,
    {
        incoming.push(0);
        z = z + 1;
    }
    let mut a: usize = 0;
    while a < states
        invariant
            a <= states,
            rows@.len() == states,
            rv == rows@.map_values(|v: Vec<(char, u32)>| v@),
            incoming@.len() == states,
            edge_total(rv) <= 5000000,
            forall|x: int, k: int| 0 <= x < states && 0 <= k < rows@[x]@.len() ==> (#[trigger] rows@[x]@[k]).1 < states,
            forall|t: int| 0 <= t < states ==> #[trigger] incoming@[t] == in_count(rv.take(a as int), t),
        decreases states - a,
    {
        let row = &rows[a];
        assert(rv[a as int] == row@);
        let mut k: usize = 0;
        proof {
            lemma_edge_total_prefix(rv, a + 1);
            assert(rv.take(a + 1).drop_last() =~= rv.take(a as int));
        }
        while k < row.len()
            invariant
                a < states,
                k <= row@.len(),
                rows@.len() == states,
                row@ == rows@[a as int]@,
                rv == rows@.map_values(|v: Vec<(char, u32)>| v@),
                rv[a as int] == row@,
                incoming@.len() == states,
                edge_total(rv.take(a + 1)) <= 5000000,
                edge_total(rv.take(a + 1)) == edge_total(rv.take(a as int)) + row@.len(),
                forall|x: int, j: int| 0 <= x < states && 0 <= j < rows@[x]@.len() ==> (#[trigger] rows@[x]@[j]).1 < states,
                forall|t: int| 0 <= t < states ==> #[trigger] incoming@[t] == in_count(rv.take(a as int), t) + row_in(
                    row@.take(k as int),
                    t,
                ),
            decreases row.len() - k,
        {
            let t = row[k].1 as usize;
            assert(row@[k as int] == rows@[a as int]@[k as int]);
            proof {
                lemma_in_count_bound(rv.take(a as int), t as int);
                lemma_row_in_bound(row@.take(k as int), t as int);
                assert(row@.take(k + 1).drop_last() =~= row@.take(k as int));
            }
            let c = incoming[t];
            incoming.set(t, c + 1);
            assert forall|x: int| 0 <= x < states implies #[trigger] incoming@[x] == in_count(rv.take(a as int), x) + row_in(
                row@.take(k + 1),
                x,
            ) by {
                assert(row@.take(k + 1).last() == row@[k as int]);
            }
            k = k + 1;
        }
        assert(row@.take(row@.len() as int) =~= row@);
        assert forall|t: int| 0 <= t < states implies #[trigger] incoming@[t] == in_count(rv.take(a + 1), t) by {
            assert(rv.take(a + 1).last() == row@);
        }
        a = a + 1;
    }
    assert(rv.take(states as int) =~= rv);
    assert(incoming@[0] == in_count(rv, 0));
    if incoming[0] != 0 {
        return false;
    }
    let mut t: usize = 1;
    while t < states
        invariant
            1 <= t <= states,
            incoming@.len() == states,
            rv.len() == states,
            rv == rows@.map_values(|v: Vec<(char, u32)>| v@),
            forall|x: int| 0 <= x < states ==> #[trigger] incoming@[x] == in_count(rv, x),
            forall|x: int| 1 <= x < t ==> #[trigger] in_count(rv, x) == 1,
            in_count(rv, 0) == 0,
        decreases states - t,
    {
        assert(incoming@[t as int] == in_count(rv, t as int));
        if incoming[t] != 1 {
            assert(in_count(rv, t as int) != 1);
            return false;
        }
        t = t + 1;
    }
    true
}

/// A layering of the states: the root at depth 0, each transition one
/// level deeper, the root failing to itself and every other failure link
/// going to a shallower state.
pub open spec fn layering(rows: Seq<Seq<(char, u32)>>, fails: Seq<u32>, d: Seq<nat>) -> bool {
    &&& d.len() == rows.len()
    &&& rows.len() > 0
    &&& d[0] == 0
    &&& forall|a: int, k: int| 0 <= a < rows.len() && 0 <= k < rows[a].len() ==> d[(#[trigger] rows[a][k]).1 as int] == d[a] + 1
    &&& fails.len() == rows.len()
    &&& fails[0] == 0
    &&& forall|a: int| 1 <= a < rows.len() ==> d[fails[a] as int] < #[trigger] d[a]
}

/// Every state is reachable from the root and the failure links descend.
pub open spec fn layered(rows: Seq<Seq<(char, u32)>>, fails: Seq<u32>) -> bool {
    exists|d: Seq<nat>| layering(rows, fails, d)
}

proof fn lemma_row_in_at(row: Seq<(char, u32)>, t: int, k: int)
    requires
        0 <= k < row.len(),
        row[k].1 == t,
    ensures
        row_in(row, t) >= 1,
    decreases row.len(),
{
    lemma_row_in_bound(row.drop_last(), t);
    if k < row.len() - 1 {
        assert(row.drop_last()[k] == row[k]);
        lemma_row_in_at(row.drop_last(), t, k);
    } else {
        assert(row.last() == row[k]);
    }
}

proof fn lemma_row_in_two(row: Seq<(char, u32)>, t: int, k1: int, k2: int)
    requires
        0 <= k1 < k2 < row.len(),
        row[k1].1 == t,
        row[k2].1 == t,
    ensures
        row_in(row, t) >= 2,
    decreases row.len(),
{
    if k2 < row.len() - 1 {
        lemma_row_in_two(row.drop_last(), t, k1, k2);
        lemma_row_in_bound(row, t);
    } else {
        lemma_row_in_at(row.drop_last(), t, k1);
    }
}

proof fn lemma_row_in_found(row: Seq<(char, u32)>, t: int) -> (k: int)
    requires
        row_in(row, t) >= 1,
    ensures
        0 <= k < row.len(),
        row[k].1 == t,
    decreases row.len(),
{
    if row.last().1 == t {
        row.len() - 1
    } else {
        let k = lemma_row_in_found(row.drop_last(), t);
        k
    }
}

proof fn lemma_in_count_prefix(rows: Seq<Seq<(char, u32)>>, t: int, i: int)
    requires
        0 <= i <= rows.len(),
    ensures
        in_count(rows.take(i), t) <= in_count(rows, t),
    decreases rows.len() - i,
{
    if i < rows.len() {
        lemma_in_count_prefix(rows, t, i + 1);
        assert(rows.take(i + 1).drop_last() =~= rows.take(i));
        lemma_row_in_bound(rows[i], t);
    } else {
        assert(rows.take(i) =~= rows);
    }
}

/// A transition into `t` counts.
proof fn lemma_in_count_at(rows: Seq<Seq<(char, u32)>>, t: int, a: int, k: int)
    requires
        0 <= a < rows.len(),
        0 <= k < rows[a].len(),
        rows[a][k].1 == t,
    ensures
        in_count(rows, t) >= 1,
{
    lemma_in_count_prefix(rows, t, a + 1);
    let p = rows.take(a + 1);
    assert(p.drop_last() =~= rows.take(a));
    assert(p.last() == rows[a]);
    lemma_row_in_at(rows[a], t, k);
    lemma_in_count_bound(rows.take(a), t);
}

/// Two different transitions into `t` count twice.
proof fn lemma_in_count_two(rows: Seq<Seq<(char, u32)>>, t: int, a1: int, k1: int, a2: int, k2: int)
    requires
        0 <= a1 < rows.len(),
        0 <= k1 < rows[a1].len(),
        0 <= a2 < rows.len(),
        0 <= k2 < rows[a2].len(),
        rows[a1][k1].1 == t,
        rows[a2][k2].1 == t,
        a1 != a2 || k1 != k2,
    ensures
        in_count(rows, t) >= 2,
{
    if a1 == a2 {
        lemma_in_count_prefix(rows, t, a1 + 1);
        let p = rows.take(a1 + 1);
        assert(p.drop_last() =~= rows.take(a1));
        assert(p.last() == rows[a1]);
        if k1 < k2 {
            lemma_row_in_two(rows[a1], t, k1, k2);
        } else {
            lemma_row_in_two(rows[a1], t, k2, k1);
        }
        lemma_in_count_bound(rows.take(a1), t);
    } else {
        let (lo, klo, hi, khi) = if a1 < a2 {
            (a1, k1, a2, k2)
        } else {
            (a2, k2, a1, k1)
        };
        lemma_in_count_prefix(rows, t, hi + 1);
        let p = rows.take(hi + 1);
        assert(p.drop_last() =~= rows.take(hi));
        assert(p.last() == rows[hi]);
        lemma_row_in_at(rows[hi], t, khi);
        let q = rows.take(hi);
        assert(q[lo] == rows[lo]);
        lemma_in_count_at(q, t, lo, klo);
    }
}

/// A counted target has a transition into it.
proof fn lemma_in_count_found(rows: Seq<Seq<(char, u32)>>, t: int) -> (r: (int, int))
    requires
        in_count(rows, t) >= 1,
    ensures
        0 <= r.0 < rows.len(),
        0 <= r.1 < rows[r.0].len(),
        rows[r.0][r.1].1 == t,
    decreases rows.len(),
{
    if row_in(rows.last(), t) >= 1 {
        let k = lemma_row_in_found(rows.last(), t);
        (rows.len() - 1, k)
    } else {
        lemma_row_in_bound(rows.last(), t);
        let (a, k) = lemma_in_count_found(rows.drop_last(), t);
        (a, k)
    }
}

/// Distinct states number at most `n`; fewer than `n` miss one.
proof fn lemma_distinct_states(q: Seq<usize>, n: int)
    requires
        q.no_duplicates(),
        forall|i: int| 0 <= i < q.len() ==> #[trigger] q[i] < n,
        0 <= n <= usize::MAX,
    ensures
        q.len() <= n,
        q.len() < n ==> exists|x: usize| x < n && !q.contains(x),
        q.len() == n ==> forall|x: usize| x < n ==> q.contains(x),
{
    let qi = q.map_values(|x: usize| x as int);
    assert(qi.no_duplicates()) by {
        assert forall|i: int, j: int| 0 <= i < qi.len() && 0 <= j < qi.len() && i != j implies qi[i] != qi[j] by {
            assert(q[i] != q[j]);
        }
    }
    qi.unique_seq_to_set();
    let s = qi.to_set();
    let r = vstd::set_lib::set_int_range(0, n);
    vstd::set_lib::lemma_int_range(0, n);
    assert(s.subset_of(r)) by {
        assert forall|x: int| s.contains(x) implies r.contains(x) by {
            let i = choose|i: int| 0 <= i < qi.len() && qi[i] == x;
            assert(q[i] < n);
        }
    }
    vstd::set_lib::lemma_len_subset(s, r);
    if q.len() == n {
        vstd::set_lib::lemma_subset_equality(s, r);
        assert forall|x: usize| x < n implies q.contains(x) by {
            assert(r.contains(x as int));
            assert(s.contains(x as int));
            let i = choose|i: int| 0 <= i < qi.len() && qi[i] == x as int;
            assert(q[i] == x);
        }
    }
    if q.len() < n {
        if forall|x: usize| x < n ==> q.contains(x) {
            assert(r.subset_of(s)) by {
                assert forall|x: int| r.contains(x) implies s.contains(x) by {
                    assert((x as usize) < n);
                    assert(q.contains(x as usize));
                    let i = choose|i: int| 0 <= i < q.len() && q[i] == x as usize;
                    assert(qi[i] == x);
                }
            }
            vstd::set_lib::lemma_len_subset(r, s);
        }
    }
}

/// States outside a closed set of states containing the root have no
/// finite depth under a layering.
proof fn lemma_depth_unbounded(
    rows: Seq<Seq<(char, u32)>>,
    fails: Seq<u32>,
    d: Seq<nat>,
    queue: Seq<usize>,
    n: int,
    m: nat,
)
    requires
        layering(rows, fails, d),
        rows.len() == n,
        n <= usize::MAX,
        single_rooted(rows),
        forall|a: int, k: int| 0 <= a < n && 0 <= k < rows[a].len() ==> (#[trigger] rows[a][k]).1 < n,
        queue.contains(0usize),
        forall|j: int, k: int| 0 <= j < queue.len() && 0 <= k < rows[queue[j] as int].len() ==> queue.contains(
            (#[trigger] rows[queue[j] as int][k]).1 as usize,
        ),
        forall|j: int| 0 <= j < queue.len() ==> #[trigger] queue[j] < n,
    ensures
        forall|x: usize| x < n && !queue.contains(x) ==> d[x as int] >= m,
    decreases m,
{
    if m > 0 {
        lemma_depth_unbounded(rows, fails, d, queue, n, (m - 1) as nat);
        assert forall|x: usize| x < n && !queue.contains(x) implies d[x as int] >= m by {
            assert(x != 0);
            assert(in_count(rows, x as int) == 1);
            let (a, k) = lemma_in_count_found(rows, x as int);
            let au = a as usize;
            if queue.contains(au) {
                let j = choose|j: int| 0 <= j < queue.len() && queue[j] == au;
                assert(rows[queue[j] as int][k] == rows[a][k]);
                assert(queue.contains(rows[queue[j] as int][k].1 as usize));
            }
            assert(d[x as int] == d[a] + 1);
        }
    }
}

/// A layering agrees with the breadth-first depths along the queue.
proof fn lemma_depth_agrees(
    rows: Seq<Seq<(char, u32)>>,
    fails: Seq<u32>,
    d: Seq<nat>,
    queue: Seq<usize>,
    depth: Seq<i64>,
    pusher: Seq<(int, int)>,
    j: int,
)
    requires
        layering(rows, fails, d),
        depth.len() == rows.len(),
        queue.len() > 0,
        queue[0] == 0,
        depth[0] == 0,
        pusher.len() == queue.len(),
        forall|q: int| 0 <= q < queue.len() ==> #[trigger] queue[q] < rows.len(),
        forall|i: int| #![trigger pusher[i]] 1 <= i < queue.len() ==> {
            &&& 0 <= pusher[i].0 < i
            &&& 0 <= pusher[i].1 < rows[queue[pusher[i].0] as int].len()
            &&& rows[queue[pusher[i].0] as int][pusher[i].1].1 == queue[i]
            &&& depth[queue[i] as int] == depth[queue[pusher[i].0] as int] + 1
        },
        0 <= j < queue.len(),
    ensures
        d[queue[j] as int] == depth[queue[j] as int],
    decreases j,
{
    if j > 0 {
        let (pi, pk) = pusher[j];
        lemma_depth_agrees(rows, fails, d, queue, depth, pusher, pi);
        let src = queue[pi] as int;
        assert(d[rows[src][pk].1 as int] == d[src] + 1);
    }
}

/// Breadth-first depths from the root; the automaton is accepted when
/// every state is reached once and every failure link of a non-root state
/// goes to a shallower state.
#[verifier::rlimit(60)]
fn check_reachable(rows: &Vec<Vec<(char, u32)>>, fails: &Vec<u32>, states: usize) -> (r: Result<(), Vec<char>>)
    requires
        rows@.len() == states,
        fails@.len() == states,
        0 < states <= 1000000,
        forall|a: int, k: int| 0 <= a < states && 0 <= k < rows@[a]@.len() ==> (#[trigger] rows@[a]@[k]).1 < states,
        forall|a: int| 0 <= a < states ==> #[trigger] fails@[a] < states,
        single_rooted(rows@.map_values(|v: Vec<(char, u32)>| v@)),
    ensures
        r is Ok <==> layered(rows@.map_values(|v: Vec<(char, u32)>| v@), fails@),
        r matches Err(m) ==> m@ == "雷达自动机不可达或失败指针成环"@,
{
    let ghost rv = rows@.map_values(|v: Vec<(char, u32)>| v@);
    assert forall|a: int, k: int| 0 <= a < states && 0 <= k < rv[a].len() implies (#[trigger] rv[a][k]).1 < states by {
        assert(rv[a] == rows@[a]@);
        assert(rv[a][k] == rows@[a]@[k]);
    }
    let mut depth: Vec<i64> = Vec::new();
    let mut z: usize = 0;
    while z < states
        invariant
            z <= states,
            depth@.len() == z,
            forall|t: int| 0 <= t < z ==> depth@[t] == -1,
        decreases states - z,
    {
        depth.push(-1);
        z = z + 1;
    }
    depth.set(0, 0);
    let mut queue: Vec<usize> = Vec::new();
    queue.push(0);
    let ghost mut pusher: Seq<(int, int)> = seq![(0int, 0int)];
    let mut head: usize = 0;
    assert(queue@ =~= seq![0usize]);
    assert forall|x: int| 0 <= x < states implies (#[trigger] depth@[x] != -1) == queue@.contains(x as usize) by {
        if x == 0 {
            assert(queue@[0] == 0usize);
        } else if queue@.contains(x as usize) {
            let i = choose|i: int| 0 <= i < queue@.len() && queue@[i] == x as usize;
            assert(i == 0);
        }
    }
    while head < queue.len()
        invariant
            1 <= queue@.len() <= states,
            head <= queue@.len(),
            states <= 1000000,
            depth@.len() == states,
            rows@.len() == states,
            rv == rows@.map_values(|v: Vec<(char, u32)>| v@),
            single_rooted(rv),
            forall|a: int, k: int| 0 <= a < states && 0 <= k < rv[a].len() ==> (#[trigger] rv[a][k]).1 < states,
            queue@[0] == 0,
            depth@[0] == 0,
            queue@.no_duplicates(),
            forall|q: int| 0 <= q < queue@.len() ==> #[trigger] queue@[q] < states,
            forall|x: int| 0 <= x < states ==> (#[trigger] depth@[x] != -1) == queue@.contains(x as usize),
            forall|x: int| 0 <= x < states ==> -1 <= #[trigger] depth@[x] < queue@.len(),
            forall|q: int| 0 <= q < queue@.len() ==> depth@[#[trigger] queue@[q] as int] >= 0,
            forall|j: int, k: int| 0 <= j < head && 0 <= k < rv[queue@[j] as int].len() ==> depth@[(#[trigger] rv[queue@[j] as int][k]).1 as int]
                == depth@[queue@[j] as int] + 1,
            pusher.len() == queue@.len(),
            forall|i: int| #![trigger pusher[i]] 1 <= i < queue@.len() ==> {
                &&& 0 <= pusher[i].0 < i
                &&& pusher[i].0 < head
                &&& 0 <= pusher[i].1 < rv[queue@[pusher[i].0] as int].len()
                &&& rv[queue@[pusher[i].0] as int][pusher[i].1].1 == queue@[i]
                &&& depth@[queue@[i] as int] == depth@[queue@[pusher[i].0] as int] + 1
            },
        decreases states - head,
    {
        let node = queue[head];
        head = head + 1;
        let row = &rows[node];
        assert(rv[node as int] == row@);
        let mut k: usize = 0;
        while k < row.len()
            invariant
                1 <= queue@.len() <= states,
                1 <= head <= queue@.len(),
                states <= 1000000,
                node == queue@[head - 1],
                node < states,
                row@ == rv[node as int],
                depth@.len() == states,
                rows@.len() == states,
                rv == rows@.map_values(|v: Vec<(char, u32)>| v@),
                single_rooted(rv),
                forall|a: int, j: int| 0 <= a < states && 0 <= j < rv[a].len() ==> (#[trigger] rv[a][j]).1 < states,
                queue@[0] == 0,
                depth@[0] == 0,
                queue@.no_duplicates(),
                forall|q: int| 0 <= q < queue@.len() ==> #[trigger] queue@[q] < states,
                forall|x: int| 0 <= x < states ==> (#[trigger] depth@[x] != -1) == queue@.contains(x as usize),
                forall|x: int| 0 <= x < states ==> -1 <= #[trigger] depth@[x] < queue@.len(),
                forall|q: int| 0 <= q < queue@.len() ==> depth@[#[trigger] queue@[q] as int] >= 0,
                forall|j: int, kk: int| 0 <= j < head && 0 <= kk < rv[queue@[j] as int].len() && (j < head - 1 || kk < k)
                    ==> depth@[(#[trigger] rv[queue@[j] as int][kk]).1 as int] == depth@[queue@[j] as int] + 1,
                pusher.len() == queue@.len(),
                forall|i: int| #![trigger pusher[i]] 1 <= i < queue@.len() ==> {
                    &&& 0 <= pusher[i].0 < i
                    &&& (pusher[i].0 < head - 1 || (pusher[i].0 == head - 1 && pusher[i].1 < k))
                    &&& 0 <= pusher[i].1 < rv[queue@[pusher[i].0] as int].len()
                    &&& rv[queue@[pusher[i].0] as int][pusher[i].1].1 == queue@[i]
                    &&& depth@[queue@[i] as int] == depth@[queue@[pusher[i].0] as int] + 1
                },
            decreases row.len() - k,
        {
            let next = row[k].1 as usize;
            assert(rv[node as int][k as int] == row@[k as int]);
            assert(next < states);
            proof {
                if depth@[next as int] != -1 {
                    assert(queue@.contains(next));
                    let i = choose|i: int| 0 <= i < queue@.len() && queue@[i] == next;
                    if next == 0 {
                        lemma_in_count_at(rv, 0, node as int, k as int);
                    } else {
                        assert(i != 0);
                        let (pi, pk) = pusher[i];
                        let src = queue@[pi] as int;
                        if pi != head - 1 {
                            assert(queue@[pi] != queue@[head - 1]);
                        }
                        lemma_in_count_two(rv, next as int, src, pk, node as int, k as int);
                    }
                }
                lemma_distinct_states(queue@, states as int);
                if queue@.len() >= states {
                    assert(forall|x: usize| x < states ==> queue@.contains(x));
                    assert(queue@.contains(next));
                    let i = choose|i: int| 0 <= i < queue@.len() && queue@[i] == next;
                    assert(depth@[queue@[i] as int] >= 0);
                }
            }
            if depth[next] != -1 || queue.len() >= states {
                return Err(msg("雷达自动机存在转移环"));
            }
            let dn = depth[node];
            assert(depth@[queue@[head - 1] as int] >= 0);
            let ghost before_depth = depth@;
            let ghost before_queue = queue@;
            depth.set(next, dn + 1);
            queue.push(next);
            proof {
                pusher = pusher.push(((head - 1) as int, k as int));
                assert(!before_queue.contains(next));
                assert(queue@.no_duplicates()) by {
                    assert forall|a: int, b: int| 0 <= a < queue@.len() && 0 <= b < queue@.len() && a != b implies queue@[a] != queue@[b] by {
                        if a == before_queue.len() as int {
                            assert(queue@[b] == before_queue[b]);
                        } else if b == before_queue.len() as int {
                            assert(queue@[a] == before_queue[a]);
                        } else {
                            assert(queue@[a] == before_queue[a] && queue@[b] == before_queue[b]);
                        }
                    }
                }
                assert forall|x: int| 0 <= x < states implies (#[trigger] depth@[x] != -1) == queue@.contains(x as usize) by {
                    if x == next as int {
                        assert(queue@[queue@.len() - 1] == next);
                    } else {
                        assert(depth@[x] == before_depth[x]);
                        if queue@.contains(x as usize) {
                            let i = choose|i: int| 0 <= i < queue@.len() && queue@[i] == x as usize;
                            if i < before_queue.len() {
                                assert(before_queue[i] == x as usize);
                            }
                        }
                        if before_queue.contains(x as usize) {
                            let i = choose|i: int| 0 <= i < before_queue.len() && before_queue[i] == x as usize;
                            assert(queue@[i] == x as usize);
                        }
                    }
                }
                assert forall|q: int| 0 <= q < queue@.len() implies depth@[#[trigger] queue@[q] as int] >= 0 by {
                    if q < before_queue.len() {
                        assert(queue@[q] == before_queue[q]);
                        if queue@[q] != next {
                            assert(depth@[queue@[q] as int] == before_depth[queue@[q] as int]);
                        }
                    }
                }
                assert forall|j: int, kk: int| 0 <= j < head && 0 <= kk < rv[queue@[j] as int].len() && (j < head - 1 || kk
                    < k + 1) implies depth@[(#[trigger] rv[queue@[j] as int][kk]).1 as int] == depth@[queue@[j] as int] + 1 by {
                    assert(queue@[j] == before_queue[j]);
                    let src = queue@[j] as int;
                    let tgt = rv[src][kk].1 as int;
                    if j == head - 1 && kk == k {
                        assert(tgt == next as int);
                    } else {
                        assert(before_depth[tgt] == before_depth[src] + 1);
                        assert(before_depth[tgt] != -1);
                        assert(before_depth[src] != -1);
                        assert(tgt != next as int);
                        assert(src != next as int);
                    }
                }
                assert forall|i: int| #![trigger pusher[i]] 1 <= i < queue@.len() implies {
                    &&& 0 <= pusher[i].0 < i
                    &&& (pusher[i].0 < head - 1 || (pusher[i].0 == head - 1 && pusher[i].1 < k + 1))
                    &&& 0 <= pusher[i].1 < rv[queue@[pusher[i].0] as int].len()
                    &&& rv[queue@[pusher[i].0] as int][pusher[i].1].1 == queue@[i]
                    &&& depth@[queue@[i] as int] == depth@[queue@[pusher[i].0] as int] + 1
                } by {
                    if i == before_queue.len() as int {
                        assert(queue@[pusher[i].0] == node);
                    } else {
                        assert(queue@[i] == before_queue[i]);
                        assert(queue@[pusher[i].0] == before_queue[pusher[i].0]);
                        let a = queue@[i] as int;
                        let b = queue@[pusher[i].0] as int;
                        assert(before_depth[a] != -1 && before_depth[b] != -1);
                        assert(a != next as int && b != next as int);
                    }
                }
            }
            k = k + 1;
        }
        proof {
            assert forall|i: int| #![trigger pusher[i]] 1 <= i < queue@.len() implies pusher[i].0 < head by {}
        }
    }
    let ghost fv = fails@;
    proof {
        assert forall|j: int, kk: int| 0 <= j < queue@.len() && 0 <= kk < rv[queue@[j] as int].len() implies queue@.contains(
            (#[trigger] rv[queue@[j] as int][kk]).1 as usize,
        ) by {
            let tgt = rv[queue@[j] as int][kk].1 as int;
            assert(depth@[tgt] == depth@[queue@[j] as int] + 1);
            assert(depth@[tgt] != -1);
        }
        lemma_distinct_states(queue@, states as int);
        assert(queue@.contains(0usize)) by {
            assert(queue@[0] == 0usize);
        }
    }
    if queue.len() != states || fails[0] != 0 {
        proof {
            if layered(rv, fv) {
                let d = choose|d: Seq<nat>| layering(rv, fv, d);
                if queue@.len() != states {
                    let x = choose|x: usize| x < states && !queue@.contains(x);
                    lemma_depth_unbounded(rv, fv, d, queue@, states as int, d[x as int] + 1);
                }
            }
        }
        return Err(msg("雷达自动机不可达或失败指针成环"));
    }
    let mut n: usize = 1;
    while n < states
        invariant
            1 <= n <= states,
            depth@.len() == states,
            fails@.len() == states,
            fv == fails@,
            rv.len() == states,
            rv == rows@.map_values(|v: Vec<(char, u32)>| v@),
            queue@.len() == states,
            queue@[0] == 0,
            depth@[0] == 0,
            pusher.len() == queue@.len(),
            forall|q: int| 0 <= q < queue@.len() ==> #[trigger] queue@[q] < states,
            forall|x: usize| x < states ==> queue@.contains(x),
            forall|i: int| #![trigger pusher[i]] 1 <= i < queue@.len() ==> {
                &&& 0 <= pusher[i].0 < i
                &&& 0 <= pusher[i].1 < rv[queue@[pusher[i].0] as int].len()
                &&& rv[queue@[pusher[i].0] as int][pusher[i].1].1 == queue@[i]
                &&& depth@[queue@[i] as int] == depth@[queue@[pusher[i].0] as int] + 1
            },
            forall|a: int| 0 <= a < states ==> #[trigger] fails@[a] < states,
            forall|t: int| 0 <= t < states ==> -1 <= #[trigger] depth@[t],
            forall|a: int| 1 <= a < n ==> depth@[fails@[a] as int] < #[trigger] depth@[a],
        decreases states - n,
    {
        if depth[fails[n] as usize] >= depth[n] {
            proof {
                if layered(rv, fv) {
                    let d = choose|d: Seq<nat>| layering(rv, fv, d);
                    let a = n as int;
                    let f = fv[a] as int;
                    assert(queue@.contains(n));
                    assert(queue@.contains(fv[a] as usize));
                    let ja = choose|j: int| 0 <= j < queue@.len() && queue@[j] == n;
                    let jf = choose|j: int| 0 <= j < queue@.len() && queue@[j] == fv[a] as usize;
                    lemma_depth_agrees(rv, fv, d, queue@, depth@, pusher, ja);
                    lemma_depth_agrees(rv, fv, d, queue@, depth@, pusher, jf);
                    assert(d[a] == depth@[a]);
                    assert(d[f] == depth@[f]);
                    assert(depth@[f] >= depth@[a]);
                    assert(d[f] < d[a]);
                    assert(false);
                }
            }
            return Err(msg("雷达自动机不可达或失败指针成环"));
        }
        n = n + 1;
    }
    proof {
        let d = depth@.map_values(|x: i64| x as nat);
        assert forall|x: int| 0 <= x < states implies depth@[x] >= 0 by {
            assert(queue@.contains(x as usize));
            let j = choose|j: int| 0 <= j < queue@.len() && queue@[j] == x as usize;
        }
        assert forall|a: int, k: int| 0 <= a < rv.len() && 0 <= k < rv[a].len() implies d[(#[trigger] rv[a][k]).1 as int] == d[a] + 1 by {
            assert(queue@.contains(a as usize));
            let j = choose|j: int| 0 <= j < queue@.len() && queue@[j] == a as usize;
            let tgt = rv[a][k].1 as int;
            assert(rv[queue@[j] as int][k] == rv[a][k]);
            assert(depth@[tgt] == depth@[a] + 1);
        }
        assert forall|a: int| 1 <= a < rv.len() implies d[fv[a] as int] < #[trigger] d[a] by {
            assert(depth@[fv[a] as int] < depth@[a]);
        }
        assert(layering(rv, fv, d));
    }
    Ok(())
}

pub open spec fn opt_ref(o: Option<RadarCardRef>) -> Option<RefModel> {
    match o {
        Some(c) => Some(ref_view(c)),
        None => None,
    }
}

fn str_member<'a>(v: &'a JsonValue, key: &str) -> (r: Option<&'a String>)
    ensures
        match json_get(*v, key@) {
            Some(JsonValue::Str(s)) => r matches Some(x) && x@ == s@,
            _ => r is None,
        },
{
    match v.get(key) {
        Some(JsonValue::Str(s)) => Some(s),
        _ => None,
    }
}

/// A card reference of an anchor entry, if valid.
fn card_ref_from(item: &JsonValue) -> (r: Option<RadarCardRef>)
    ensures
        opt_ref(r) == card_ref_of(*item),
{
    let id = int_of(item.get("id"));
    let strength = str_member(item, "strength");
    let kind = str_member(item, "kind");
    let manual = match item.get("manual") {
        Some(JsonValue::Bool(b)) => Some(*b),
        _ => None,
    };
    let scope = str_member(item, "scope");
    match (id, strength, kind, manual, scope) {
        (Some(id), Some(strength), Some(kind), Some(manual), Some(scope)) => {
            let strong = str_eq(strength.as_str(), "strong");
            let known_strength = strong || str_eq(strength.as_str(), "weak");
            let k = kind.as_str();
            let known_kind = str_eq(k, "manual") || str_eq(k, "url") || str_eq(k, "domain") || str_eq(k, "path")
                || str_eq(k, "identifier");
            if id > 0 && known_strength && known_kind {
                Some(RadarCardRef { id, strong, kind: kind.clone(), manual, scope: scope.clone() })
            } else {
                None
            }
        },
        _ => None,
    }
}

/// The bucket of an anchor entry.
fn entry_from(key: &String, bucket: &JsonValue) -> (r: Result<RadarBucket, Vec<char>>)
    ensures
        match entry_of(key@, *bucket) {
            Ok(e) => r matches Ok(b) && bucket_view(b) == e.1 && e.0 == key@,
            Err(m) => r matches Err(x) && x@ == m,
        },
{
    let display = str_member(bucket, "display");
    let cards = items_of(bucket.get("cards"));
    let (display, cards) = match (display, cards) {
        (Some(d), Some(c)) => (d, c),
        _ => {
            return Err(msg("雷达锚点结构非法"));
        },
    };
    if key.as_str().unicode_len() == 0 {
        return Err(msg("雷达锚点结构非法"));
    }
    let mut refs: Vec<RadarCardRef> = Vec::new();
    let mut i: usize = 0;
    while i < cards.len()
        invariant
            i <= cards@.len(),
            key@.len() > 0,
            json_items(json_get(*bucket, "cards"@)) == Some(cards@),
            json_get(*bucket, "display"@) matches Some(JsonValue::Str(d)) && d@ == display@,
            card_refs_of(cards@.take(i as int)) == Some(refs_view(refs@)),
        decreases cards.len() - i,
    {
        assert(cards@.take(i + 1).drop_last() =~= cards@.take(i as int));
        assert(cards@.take(i + 1).last() == cards@[i as int]);
        match card_ref_from(&cards[i]) {
            Some(c) => {
                let ghost prev = refs@;
                refs.push(c);
                assert(refs_view(refs@) =~= refs_view(prev).push(ref_view(c)));
            },
            None => {
                proof {
                    lemma_card_refs_none(cards@, i + 1);
                }
                return Err(msg("雷达卡片引用非法"));
            },
        }
        i = i + 1;
    }
    assert(cards@.take(cards.len() as int) =~= cards@);
    Ok(RadarBucket { display: display.clone(), cards: refs })
}

proof fn lemma_card_refs_none(items: Seq<JsonValue>, m: int)
    requires
        0 <= m <= items.len(),
        card_refs_of(items.take(m)) is None,
    ensures
        card_refs_of(items) is None,
    decreases items.len() - m,
{
    if m < items.len() {
        assert(items.take(m + 1).drop_last() =~= items.take(m));
        lemma_card_refs_none(items, m + 1);
    } else {
        assert(items.take(m) =~= items);
    }
}

proof fn lemma_table_err(pairs: Seq<(String, JsonValue)>, m: int)
    requires
        0 <= m <= pairs.len(),
        table_of(pairs.take(m)) is Err,
    ensures
        table_of(pairs) == table_of(pairs.take(m)),
    decreases pairs.len() - m,
{
    if m < pairs.len() {
        assert(pairs.take(m + 1).drop_last() =~= pairs.take(m));
        lemma_table_err(pairs, m + 1);
    } else {
        assert(pairs.take(m) =~= pairs);
    }
}

/// The anchor table of the anchor section.
fn table_from(anchors: &JsonValue) -> (r: Result<Vec<(String, RadarBucket)>, Vec<char>>)
    ensures
        match radar_table(*anchors) {
            Ok(t) => r matches Ok(x) && anchors_view(x@) == t && table_well_formed(t),
            Err(m) => r matches Err(x) && x@ == m,
        },
{
    let pairs = match anchors {
        JsonValue::Object(pairs) => pairs,
        _ => {
            return Err(msg("雷达锚点区段非法"));
        },
    };
    let mut table: Vec<(String, RadarBucket)> = Vec::new();
    let mut i: usize = 0;
    assert(anchors_view(table@) =~= Seq::<(Seq<char>, BucketModel)>::empty());
    assert(pairs@.take(0) =~= Seq::<(String, JsonValue)>::empty());
    while i < pairs.len()
        invariant
            i <= pairs@.len(),
            *anchors == JsonValue::Object(*pairs),
            table_of(pairs@.take(i as int)) == Ok::<Seq<(Seq<char>, BucketModel)>, Seq<char>>(anchors_view(table@)),
            table_well_formed(anchors_view(table@)),
        decreases pairs.len() - i,
    {
        assert(pairs@.take(i + 1).drop_last() =~= pairs@.take(i as int));
        assert(pairs@.take(i + 1).last() == pairs@[i as int]);
        let b = match entry_from(&pairs[i].0, &pairs[i].1) {
            Ok(b) => b,
            Err(m) => {
                proof {
                    lemma_table_err(pairs@, i + 1);
                }
                return Err(m);
            },
        };
        let ghost tv = anchors_view(table@);
        let ghost e = (pairs@[i as int].0@, bucket_view(b));
        let mut k: usize = 0;
        while k < table.len()
            invariant
                k <= table@.len(),
                i < pairs@.len(),
                e.0 == pairs@[i as int].0@,
                tv == anchors_view(table@),
                forall|j: int| 0 <= j < k ==> tv[j].0 != e.0,
            ensures
                k <= table@.len(),
                tv == anchors_view(table@),
                forall|j: int| 0 <= j < k ==> tv[j].0 != e.0,
                k < table@.len() ==> tv[k as int].0 == e.0,
            decreases table.len() - k,
        {
            assert(tv[k as int].0 == table@[k as int].0@);
            if str_eq(table[k].0.as_str(), pairs[i].0.as_str()) {
                break;
            }
            k = k + 1;
        }
        if k < table.len() {
            proof {
                assert(tv[k as int].0 == e.0);
                let c = choose|j: int| 0 <= j < tv.len() && (#[trigger] tv[j]).0 == e.0;
                if c != k {
                    if c < k {
                        assert(tv[c].0 != e.0);
                    } else {
                        assert(tv[k as int].0 != tv[c].0);
                    }
                }
            }
            table.set(k, (pairs[i].0.clone(), b));
            assert(anchors_view(table@) =~= tv.update(k as int, e));
        } else {
            proof {
                if exists|j: int| 0 <= j < tv.len() && (#[trigger] tv[j]).0 == e.0 {
                    let c = choose|j: int| 0 <= j < tv.len() && (#[trigger] tv[j]).0 == e.0;
                    assert(tv[c].0 != e.0);
                }
            }
            table.push((pairs[i].0.clone(), b));
            assert(anchors_view(table@) =~= tv.push(e));
        }
        assert(table_well_formed(anchors_view(table@))) by {
            let nt = anchors_view(table@);
            assert forall|x: int, y: int| 0 <= x < y < nt.len() implies (#[trigger] nt[x]).0 != (#[trigger] nt[y]).0 by {
                if k < tv.len() {
                    if x != k && y != k {
                        assert(nt[x] == tv[x] && nt[y] == tv[y]);
                    } else if x == k {
                        assert(nt[y] == tv[y]);
                    } else {
                        assert(nt[x] == tv[x]);
                    }
                } else {
                    if y == tv.len() {
                        assert(nt[x] == tv[x]);
                    } else {
                        assert(nt[x] == tv[x] && nt[y] == tv[y]);
                    }
                }
            }
            assert forall|x: int| 0 <= x < nt.len() implies (#[trigger] nt[x]).0.len() > 0 by {
                if (k < tv.len() && x != k) || (k >= tv.len() && x < tv.len()) {
                    assert(nt[x] == tv[x]);
                }
            }
        }
        i = i + 1;
    }
    assert(pairs@.take(pairs.len() as int) =~= pairs@);
    Ok(table)
}

/// Whether `w` is an anchor of the table.
fn anchor_listed(table: &Vec<(String, RadarBucket)>, w: &str) -> (r: bool)
    ensures
        r == has_anchor(anchors_view(table@), w@),
{
    let ghost tv = anchors_view(table@);
    let mut k: usize = 0;
    while k < table.len()
        invariant
            k <= table@.len(),
            tv == anchors_view(table@),
            forall|j: int| 0 <= j < k ==> tv[j].0 != w@,
        decreases table.len() - k,
    {
        if str_eq(table[k].0.as_str(), w) {
            assert(tv[k as int].0 == w@);
            return true;
        }
        k = k + 1;
    }
    proof {
        if has_anchor(tv, w@) {
            let c = choose|j: int| 0 <= j < tv.len() && (#[trigger] tv[j]).0 == w@;
            assert(tv[c].0 != w@);
        }
    }
    false
}

proof fn lemma_words_none(items: Seq<JsonValue>, t: Seq<(Seq<char>, BucketModel)>, m: int)
    requires
        0 <= m <= items.len(),
        words_of(items.take(m), t) is None,
    ensures
        words_of(items, t) is None,
    decreases items.len() - m,
{
    if m < items.len() {
        assert(items.take(m + 1).drop_last() =~= items.take(m));
        lemma_words_none(items, t, m + 1);
    } else {
        assert(items.take(m) =~= items);
    }
}

proof fn lemma_outs_none(items: Seq<JsonValue>, t: Seq<(Seq<char>, BucketModel)>, m: int)
    requires
        0 <= m <= items.len(),
        outs_of(items.take(m), t) is None,
    ensures
        outs_of(items, t) is None,
    decreases items.len() - m,
{
    if m < items.len() {
        assert(items.take(m + 1).drop_last() =~= items.take(m));
        lemma_outs_none(items, t, m + 1);
    } else {
        assert(items.take(m) =~= items);
    }
}

/// The words of one output list, each an anchor of the table.
fn words_from(ws: &Vec<JsonValue>, table: &Vec<(String, RadarBucket)>) -> (r: Option<Vec<String>>)
    ensures
        match words_of(ws@, anchors_view(table@)) {
            Some(w) => r matches Some(x) && views(x@) == w,
            None => r is None,
        },
{
    let ghost tv = anchors_view(table@);
    let mut words: Vec<String> = Vec::new();
    let mut j: usize = 0;
    assert(views(words@) =~= Seq::<Seq<char>>::empty());
    assert(ws@.take(0) =~= Seq::<JsonValue>::empty());
    while j < ws.len()
        invariant
            j <= ws@.len(),
            tv == anchors_view(table@),
            words_of(ws@.take(j as int), tv) == Some(views(words@)),
        decreases ws.len() - j,
    {
        assert(ws@.take(j + 1).drop_last() =~= ws@.take(j as int));
        assert(ws@.take(j + 1).last() == ws@[j as int]);
        let ok = match &ws[j] {
            JsonValue::Str(w) => {
                if anchor_listed(table, w.as_str()) {
                    let ghost prev = words@;
                    words.push(w.clone());
                    assert(views(words@) =~= views(prev).push(w@));
                    true
                } else {
                    false
                }
            },
            _ => false,
        };
        if !ok {
            proof {
                lemma_words_none(ws@, tv, j + 1);
            }
            return None;
        }
        j = j + 1;
    }
    assert(ws@.take(ws.len() as int) =~= ws@);
    Some(words)
}

/// The output lists, each word an anchor of the table.
fn outs_from(items: &Vec<JsonValue>, table: &Vec<(String, RadarBucket)>) -> (r: Option<Vec<Vec<String>>>)
    ensures
        match outs_of(items@, anchors_view(table@)) {
            Some(o) => r matches Some(x) && x@.map_values(|v: Vec<String>| views(v@)) == o,
            None => r is None,
        },
{
    let ghost tv = anchors_view(table@);
    let mut outs: Vec<Vec<String>> = Vec::new();
    let mut i: usize = 0;
    assert(outs@.map_values(|v: Vec<String>| views(v@)) =~= Seq::<Seq<Seq<char>>>::empty());
    assert(items@.take(0) =~= Seq::<JsonValue>::empty());
    while i < items.len()
        invariant
            i <= items@.len(),
            tv == anchors_view(table@),
            outs_of(items@.take(i as int), tv) == Some(outs@.map_values(|v: Vec<String>| views(v@))),
        decreases items.len() - i,
    {
        assert(items@.take(i + 1).drop_last() =~= items@.take(i as int));
        assert(items@.take(i + 1).last() == items@[i as int]);
        let ws = match &items[i] {
            JsonValue::Array(ws) => ws,
            _ => {
                proof {
                    lemma_outs_none(items@, tv, i + 1);
                }
                return None;
            },
        };
        let words = match words_from(ws, table) {
            Some(w) => w,
            None => {
                proof {
                    lemma_outs_none(items@, tv, i + 1);
                }
                return None;
            },
        };
        let ghost prev = outs@;
        outs.push(words);
        assert(outs@.map_values(|v: Vec<String>| views(v@)) =~= prev.map_values(|v: Vec<String>| views(v@)).push(
            views(words@),
        ));
        i = i + 1;
    }
    assert(items@.take(items.len() as int) =~= items@);
    Some(outs)
}

proof fn lemma_pairs_row_targets(pairs: Seq<(String, JsonValue)>, node: int, states: int)
    ensures
        pairs_row(pairs, node, states) matches Ok(r) ==> forall|k: int| 0 <= k < r.len() ==> (#[trigger] r[k]).1 < states,
    decreases pairs.len(),
{
    if pairs.len() > 0 {
        lemma_pairs_row_targets(pairs.drop_last(), node, states);
    }
}

proof fn lemma_rows_targets(items: Seq<JsonValue>, states: int)
    ensures
        rows_of(items, states) matches Ok(rs) ==> rs.len() == items.len() && forall|a: int, k: int|
            0 <= a < rs.len() && 0 <= k < rs[a].len() ==> (#[trigger] rs[a][k]).1 < states,
    decreases items.len(),
{
    if items.len() > 0 {
        lemma_rows_targets(items.drop_last(), states);
        if let JsonValue::Object(pairs) = items.last() {
            lemma_pairs_row_targets(pairs@, items.len() - 1, states);
        }
    }
}

proof fn lemma_fails_range(items: Seq<JsonValue>, states: int)
    ensures
        fails_of(items, states) matches Ok(fs) ==> fs.len() == items.len() && forall|a: int|
            0 <= a < fs.len() ==> #[trigger] fs[a] < states,
    decreases items.len(),
{
    if items.len() > 0 {
        lemma_fails_range(items.drop_last(), states);
    }
}

proof fn lemma_words_listed(items: Seq<JsonValue>, t: Seq<(Seq<char>, BucketModel)>)
    ensures
        words_of(items, t) matches Some(ws) ==> forall|k: int| 0 <= k < ws.len() ==> has_anchor(t, #[trigger] ws[k]),
    decreases items.len(),
{
    if items.len() > 0 {
        lemma_words_listed(items.drop_last(), t);
    }
}

proof fn lemma_outs_listed(items: Seq<JsonValue>, t: Seq<(Seq<char>, BucketModel)>)
    ensures
        outs_of(items, t) matches Some(os) ==> os.len() == items.len() && forall|s: int, k: int|
            0 <= s < os.len() && 0 <= k < os[s].len() ==> has_anchor(t, #[trigger] os[s][k]),
    decreases items.len(),
{
    if items.len() > 0 {
        lemma_outs_listed(items.drop_last(), t);
        if let JsonValue::Array(ws) = items.last() {
            lemma_words_listed(ws@, t);
        }
    }
}

/// The anchor table and automaton a radar's parsed sections describe, or
/// the complaint: the checks of `radar_shape`; every state reachable from
/// the root with failure links descending (`layered`); the anchor entries;
/// the output lists, each word an anchor.
pub open spec fn radar_decode(meta: JsonValue, machine: JsonValue, anchors: JsonValue) -> Result<
    (Seq<(Seq<char>, BucketModel)>, (Seq<Seq<(char, u32)>>, Seq<u32>, Seq<Seq<Seq<char>>>)),
    Seq<char>,
> {
    match radar_shape(meta, machine) {
        Err(m) => Err(m),
        Ok(sh) => if !layered(sh.0, sh.1) {
            Err("雷达自动机不可达或失败指针成环"@)
        } else {
            match radar_table(anchors) {
                Err(m) => Err(m),
                Ok(t) => match outs_of(sh.2, t) {
                    None => Err("雷达自动机输出非法"@),
                    Some(o) => Ok((t, (sh.0, sh.1, o))),
                },
            }
        },
    }
}

/// The anchor table and automaton of a radar's parsed metadata, automaton
/// and anchor sections (`radar_decode`); the automaton is well formed and
/// reports only anchors of the table.
pub fn radar_from_sections(meta: &JsonValue, machine: &JsonValue, anchors: &JsonValue) -> (r: Result<
    (Vec<(String, RadarBucket)>, AhoCorasick),
    Error,
>)
    ensures
        match radar_decode(*meta, *machine, *anchors) {
            Ok((t, m)) => r matches Ok((tab, ac)) && anchors_view(tab@) == t && machine_view(ac) == m && ac.well_formed()
                && words_nonempty(ac) && table_well_formed(t),
            Err(m) => r matches Err(Error::CacheUnavailable(x)) && x@ == m,
        },
{
    if !meta.is_object() || !machine.is_object() {
        return Err(Error::CacheUnavailable(from_chars(&msg("雷达元数据或自动机区段非法"))));
    }
    let cv = int_of(meta.get("compiler_version"));
    let nv = int_of(meta.get("normalization_version"));
    let st = int_of(meta.get("states"));
    let ed = int_of(meta.get("edges"));
    let mx = int_of(meta.get("max_index"));
    let (cv, nv, states, edges, max_index) = match (cv, nv, st, ed, mx) {
        (Some(a), Some(b), Some(c), Some(d), Some(e)) => (a, b, c, d, e),
        _ => {
            return Err(Error::CacheUnavailable(from_chars(&msg("雷达元数据字段非法"))));
        },
    };
    if cv != RADAR_COMPILER_VERSION || nv != NORMALIZATION_VERSION {
        return Err(Error::CacheUnavailable(from_chars(&msg("雷达编译器或规范化版本不兼容"))));
    }
    let goto = items_of(machine.get("goto"));
    let out = items_of(machine.get("out"));
    let fail = items_of(machine.get("fail"));
    let (goto, out, fail) = match (goto, out, fail) {
        (Some(a), Some(b), Some(c)) => (a, b, c),
        _ => {
            return Err(Error::CacheUnavailable(from_chars(&msg("雷达自动机结构非法"))));
        },
    };
    if !(0 < states && states <= 1000000) || goto.len() != states as usize || out.len() != states as usize
        || fail.len() != states as usize || max_index != states - 1 || !(0 <= edges && edges <= 5000000) {
        return Err(Error::CacheUnavailable(from_chars(&msg("雷达自动机规模字段非法"))));
    }
    let n = states as usize;
    let rows = match rows_from(goto, states) {
        Ok(rows) => rows,
        Err(m) => {
            return Err(Error::CacheUnavailable(from_chars(&m)));
        },
    };
    proof {
        lemma_rows_targets(goto@, states as int);
    }
    if !edges_match(&rows, edges) {
        return Err(Error::CacheUnavailable(from_chars(&msg("雷达边数或失败指针非法"))));
    }
    let fs = match fails_from(fail, states) {
        Ok(fs) => fs,
        Err(m) => {
            return Err(Error::CacheUnavailable(from_chars(&m)));
        },
    };
    proof {
        lemma_fails_range(fail@, states as int);
        let rv = rows@.map_values(|v: Vec<(char, u32)>| v@);
        assert forall|a: int, k: int| 0 <= a < n && 0 <= k < rows@[a]@.len() implies (#[trigger] rows@[a]@[k]).1 < n by {
            assert(rv[a] == rows@[a]@);
            assert(rv[a][k] == rows@[a]@[k]);
        }
    }
    if !check_single_rooted(&rows, n) {
        return Err(Error::CacheUnavailable(from_chars(&msg("雷达自动机不是单根前缀树"))));
    }
    match check_reachable(&rows, &fs, n) {
        Ok(()) => {},
        Err(m) => {
            return Err(Error::CacheUnavailable(from_chars(&m)));
        },
    }
    let table = match table_from(anchors) {
        Ok(t) => t,
        Err(m) => {
            return Err(Error::CacheUnavailable(from_chars(&m)));
        },
    };
    let outs = match outs_from(out, &table) {
        Some(o) => o,
        None => {
            return Err(Error::CacheUnavailable(from_chars(&msg("雷达自动机输出非法"))));
        },
    };
    let ghost rows_view = rows@.map_values(|v: Vec<(char, u32)>| v@);
    let ac = AhoCorasick { goto: rows, out: outs, fail: fs };
    proof {
        let tv = anchors_view(table@);
        let ov = ac.out@.map_values(|o: Vec<String>| views(o@));
        lemma_outs_listed(out@, tv);
        assert(ac.shaped());
        let d = choose|d: Seq<nat>| layering(rows_view, ac.fail@, d);
        assert(layering(rows_view, ac.fail@, d));
        assert(ac.ranked_by(d));
        assert forall|s: int, k: int| 0 <= s < ac.out@.len() && 0 <= k < ac.out@[s]@.len() implies (#[trigger] ac.out@[s]@[k])@.len() > 0 by {
            assert(ov[s] == views(ac.out@[s]@));
            assert(ov[s][k] == ac.out@[s]@[k]@);
            assert(has_anchor(tv, ov[s][k]));
            let i = choose|i: int| 0 <= i < tv.len() && (#[trigger] tv[i]).0 == ov[s][k];
        }
    }
    Ok((table, ac))
}
} // verus!
