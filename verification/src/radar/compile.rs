//! The anchor section of a compiled radar: the anchor table as canonical
//! JSON (keys in order, no white space), framed with the other sections.

use vstd::prelude::*;

use vstd::utf8::encode_utf8;

use crate::chars::{int_text, int_to_string};
use crate::json::{escape_string, json_string_literal};
use crate::radar::blob::{frame_radar_blob, radar_blob_seq, radar_frame};
use crate::radar::hits::{anchors_view, BucketModel, RefModel};
use crate::radar::source::TableModel;
use crate::anchors::derive::AnchorConfig;
use crate::mem::{views, Card};
use crate::radar::automaton::{build_machine, key_chars, machine_json, machine_json_text, machine_meta_json, machine_meta_text, machine_ok, Machine};
use crate::radar::source::{card_models, radar_source, radar_table};
use crate::radar::{RadarBucket, RadarCardRef};

verus! {

broadcast use vstd::string::group_string_axioms;

/// A card reference as canonical JSON.
pub open spec fn ref_json(r: RefModel) -> Seq<char> {
    "{\"id\":"@ + int_text(r.0 as int) + ",\"kind\":"@ + json_string_literal(r.2) + ",\"manual\":"@ + (if r.3 {
        "true"@
    } else {
        "false"@
    }) + ",\"scope\":"@ + json_string_literal(r.4) + ",\"strength\":"@ + (if r.1 {
        "\"strong\""@
    } else {
        "\"weak\""@
    }) + "}"@
}

/// Card references separated by commas.
pub open spec fn refs_json(s: Seq<RefModel>) -> Seq<char>
    decreases s.len(),
{
    if s.len() == 0 {
        Seq::empty()
    } else if s.len() == 1 {
        ref_json(s[0])
    } else {
        refs_json(s.drop_last()) + ","@ + ref_json(s.last())
    }
}

/// A bucket as canonical JSON.
pub open spec fn bucket_json(b: BucketModel) -> Seq<char> {
    "{\"cards\":["@ + refs_json(b.1) + "],\"display\":"@ + json_string_literal(b.0) + "}"@
}

/// The entries of the anchor table separated by commas.
pub open spec fn entries_json(t: TableModel) -> Seq<char>
    decreases t.len(),
{
    if t.len() == 0 {
        Seq::empty()
    } else if t.len() == 1 {
        json_string_literal(t[0].0) + ":"@ + bucket_json(t[0].1)
    } else {
        entries_json(t.drop_last()) + ","@ + json_string_literal(t.last().0) + ":"@ + bucket_json(t.last().1)
    }
}

/// The anchor table as canonical JSON, in table order (the table keeps its
/// keys in order).
pub open spec fn anchors_json(t: TableModel) -> Seq<char> {
    "{"@ + entries_json(t) + "}"@
}

fn push_ref(out: &mut String, r: &RadarCardRef)
    ensures
        final(out)@ == old(out)@ + ref_json(crate::radar::hits::ref_view(*r)),
{
    out.append("{\"id\":");
    let id = int_to_string(r.id);
    out.append(id.as_str());
    out.append(",\"kind\":");
    escape_string(r.kind.as_str(), out);
    out.append(",\"manual\":");
    out.append(if r.manual { "true" } else { "false" });
    out.append(",\"scope\":");
    escape_string(r.scope.as_str(), out);
    out.append(",\"strength\":");
    out.append(if r.strong { "\"strong\"" } else { "\"weak\"" });
    out.append("}");
    assert(final(out)@ =~= old(out)@ + ref_json(crate::radar::hits::ref_view(*r)));
}

fn push_bucket(out: &mut String, b: &RadarBucket)
    ensures
        final(out)@ == old(out)@ + bucket_json(crate::radar::hits::bucket_view(*b)),
{
    let ghost refs = crate::radar::hits::refs_view(b.cards@);
    out.append("{\"cards\":[");
    let ghost start = out@;
    let mut i: usize = 0;
    while i < b.cards.len()
        invariant
            i <= b.cards.len(),
            refs == crate::radar::hits::refs_view(b.cards@),
            out@ == start + refs_json(refs.take(i as int)),
        decreases b.cards.len() - i,
    {
        assert(refs.take(i + 1).drop_last() =~= refs.take(i as int));
        if i > 0 {
            out.append(",");
        } else {
            assert(refs.take(0) =~= Seq::<RefModel>::empty());
        }
        push_ref(out, &b.cards[i]);
        assert(out@ =~= start + refs_json(refs.take(i + 1)));
        i = i + 1;
    }
    assert(refs.take(b.cards.len() as int) =~= refs);
    out.append("],\"display\":");
    escape_string(b.display.as_str(), out);
    out.append("}");
    assert(final(out)@ =~= old(out)@ + bucket_json(crate::radar::hits::bucket_view(*b)));
}

/// The anchor table as canonical JSON text.
#[verifier::spinoff_prover]
pub fn anchors_json_text(table: &Vec<(String, RadarBucket)>) -> (r: String)
    ensures
        r@ == anchors_json(anchors_view(table@)),
{
    let ghost t = anchors_view(table@);
    let mut out = String::from_str("{");
    let mut i: usize = 0;
    while i < table.len()
        invariant
            i <= table.len(),
            t == anchors_view(table@),
            out@ == "{"@ + entries_json(t.take(i as int)),
        decreases table.len() - i,
    {
        assert(t.take(i + 1).drop_last() =~= t.take(i as int));
        if i > 0 {
            out.append(",");
        } else {
            assert(t.take(0) =~= Seq::<(Seq<char>, BucketModel)>::empty());
        }
        escape_string(table[i].0.as_str(), &mut out);
        out.append(":");
        push_bucket(&mut out, &table[i].1);
        assert(out@ =~= "{"@ + entries_json(t.take(i + 1)));
        i = i + 1;
    }
    assert(t.take(table.len() as int) =~= t);
    out.append("}");
    out
}

/// Frames a radar blob around the anchor table (as canonical JSON) and the
/// given metadata and automaton payloads; within the size the reader
/// accepts, reading it back gives the anchor table's JSON.
pub fn radar_blob_with_table(meta: &[u8], machine: &[u8], table: &Vec<(String, RadarBucket)>) -> (r: Option<Vec<u8>>)
    ensures
        match r {
            Some(b) => {
                &&& b@ == radar_blob_seq(meta@, machine@, encode_utf8(anchors_json(anchors_view(table@))))
                &&& b@.len() <= 33554432 ==> radar_frame(b@) == Ok::<(Seq<u8>, Seq<u8>, Seq<u8>), Seq<char>>(
                    (meta@, machine@, encode_utf8(anchors_json(anchors_view(table@)))),
                )
            },
            None => meta@.len() + machine@.len() + encode_utf8(anchors_json(anchors_view(table@))).len() + 120
                > u32::MAX,
        },
{
    let text = anchors_json_text(table);
    let anchors = text.as_str().as_bytes();
    let total: u128 = meta.len() as u128 + machine.len() as u128 + anchors.len() as u128 + 120;
    if total > u32::MAX as u128 {
        return None;
    }
    Some(frame_radar_blob(meta, machine, anchors))
}

/// The keys of the anchor table, in order.
fn table_keys(table: &Vec<(String, RadarBucket)>) -> (r: Vec<String>)
    ensures
        views(r@) == anchors_view(table@).map_values(|e: (Seq<char>, BucketModel)| e.0),
{
    let mut out: Vec<String> = Vec::new();
    let mut i: usize = 0;
    while i < table.len()
        invariant
            i <= table.len(),
            views(out@) == anchors_view(table@).take(i as int).map_values(|e: (Seq<char>, BucketModel)| e.0),
        decreases table.len() - i,
    {
        let ghost prev = out@;
        out.push(String::from_str(table[i].0.as_str()));
        assert(views(out@) =~= views(prev).push(table@[i as int].0@));
        assert(anchors_view(table@).take(i + 1).map_values(|e: (Seq<char>, BucketModel)| e.0) =~= anchors_view(table@).take(
            i as int,
        ).map_values(|e: (Seq<char>, BucketModel)| e.0).push(table@[i as int].0@));
        i = i + 1;
    }
    assert(anchors_view(table@).take(table.len() as int) =~= anchors_view(table@));
    out
}

/// The keys of an anchor table.
pub open spec fn keys_of(t: TableModel) -> Seq<Seq<char>> {
    t.map_values(|e: (Seq<char>, BucketModel)| e.0)
}

/// The radar of the cards as of `today`: the anchor table of the watched
/// cards, the automaton over its keys, framed with the metadata. Nothing
/// only when the automaton's states would not fit a 32-bit index or the
/// sections would not fit the frame's 32-bit lengths.
pub fn build_radar_blob(cards: &[Card], cfg: &AnchorConfig, today: &str) -> (r: Option<Vec<u8>>)
    ensures
        ({
            let t = radar_table(card_models(cards@), cards@.len(), *cfg, today@);
            &&& r matches Some(b) ==> exists|m: Machine|
                #![trigger machine_json(m, keys_of(t))]
                {
                    &&& machine_ok(m, keys_of(t))
                    &&& b@ == radar_blob_seq(
                        encode_utf8(machine_meta_json(m)),
                        encode_utf8(machine_json(m, keys_of(t))),
                        encode_utf8(anchors_json(t)),
                    )
                    &&& b@.len() <= 33554432 ==> radar_frame(b@) == Ok::<(Seq<u8>, Seq<u8>, Seq<u8>), Seq<char>>(
                        (
                            encode_utf8(machine_meta_json(m)),
                            encode_utf8(machine_json(m, keys_of(t))),
                            encode_utf8(anchors_json(t)),
                        ),
                    )
                }
            &&& r is None ==> key_chars(keys_of(t)) + 1 >= u32::MAX || exists|m: Machine|
                #![trigger machine_json(m, keys_of(t))]
                machine_ok(m, keys_of(t)) && encode_utf8(machine_meta_json(m)).len() + encode_utf8(
                    machine_json(m, keys_of(t)),
                ).len() + encode_utf8(anchors_json(t)).len() + 120 > u32::MAX
        }),
{
    let table = radar_source(cards, cfg, today);
    let ghost t = radar_table(card_models(cards@), cards@.len(), *cfg, today@);
    let keys = table_keys(&table);
    assert(views(keys@) == keys_of(t));
    let machine = match build_machine(&keys) {
        Some(m) => m,
        None => {
            return None;
        },
    };
    let meta_text = machine_meta_text(&machine);
    let machine_text = machine_json_text(&machine, &keys);
    let anchors_text = anchors_json_text(&table);
    let meta = meta_text.as_str().as_bytes();
    let mach = machine_text.as_str().as_bytes();
    let anchors = anchors_text.as_str().as_bytes();
    let total: u128 = meta.len() as u128 + mach.len() as u128 + anchors.len() as u128 + 120;
    if total > u32::MAX as u128 {
        assert(machine_json(machine, keys_of(t)) == machine_json(machine, keys_of(t)));
        return None;
    }
    let blob = frame_radar_blob(meta, mach, anchors);
    assert(machine_json(machine, keys_of(t)) == machine_json(machine, keys_of(t)));
    Some(blob)
}

} // verus!
