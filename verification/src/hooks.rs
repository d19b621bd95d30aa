//! Host hook text limits.

use vstd::prelude::*;

pub mod candidates;

use crate::chars::{contains_chars, contains_char, contains_seq, extend_str, from_chars, is_prefix, slice_chars, starts_with, str_byte_len, str_eq, to_chars, utf8_len};
use crate::hash::join_newline;
use crate::mem::parse::{has_at, take_digits, take_digits_seq};
use crate::chars::lemma_utf8_len_concat;
use crate::json::{json_get, json_str, JsonValue};
use crate::mem::{split_on, split_on_char, views};
use crate::normalize::py_len;
use crate::textops::{unsafe_display, unsafe_display_character};
use crate::hash::{hex_seq, sha256_hex, sha256_of};
use crate::json::deref_opt;
use crate::Error;
use crate::{
    CODEX_BLOCK_PREFIX, HOOK_MAX_BLOCK_BYTES, HOOK_MAX_BUDGET, HOOK_MAX_LINE_BYTES, HOOK_MAX_LINE_CODEPOINTS,
    HOOK_MAX_PROJECT_BYTES, HOOK_MAX_SESSION_BYTES, HOOK_MAX_TEXT_CHARS,
};
use vstd::utf8::encode_utf8;

verus! {

broadcast use vstd::string::group_string_axioms;

/// The UTF-8 size of a hook block: `prefix`, the lines joined by line
/// feeds, and `suffix`.
pub fn radar_block_size(lines: &[String], prefix: &str, suffix: &str) -> (r: usize)
    requires
        utf8_len(prefix@ + join_newline(views(lines@)) + suffix@) <= usize::MAX,
    ensures
        r == utf8_len(prefix@ + join_newline(views(lines@)) + suffix@),
{
    let ghost vs = views(lines@);
    let mut out: Vec<char> = Vec::new();
    extend_str(&mut out, prefix);
    let mut i: usize = 0;
    while i < lines.len()
        invariant
            i <= lines.len(),
            vs == views(lines@),
            out@ == prefix@ + join_newline(vs.take(i as int)),
        decreases lines.len() - i,
    {
        if i > 0 {
            out.push('\n');
        }
        extend_str(&mut out, lines[i].as_str());
        assert(vs.take(i + 1).drop_last() =~= vs.take(i as int));
        assert(vs.take(i + 1).last() == lines@[i as int]@);
        assert(out@ =~= prefix@ + join_newline(vs.take(i + 1)));
        i = i + 1;
    }
    assert(vs.take(lines.len() as int) =~= vs);
    extend_str(&mut out, suffix);
    let block = from_chars(&out);
    str_byte_len(block.as_str())
}

/// Whether some scalar of `s` is unsafe to display.
pub open spec fn has_control(s: Seq<char>) -> bool {
    exists|i: int| 0 <= i < s.len() && unsafe_display(#[trigger] s[i])
}

/// Whether `text` holds a character that is unsafe to display.
pub fn hook_control_character(text: &str) -> (r: bool)
    ensures
        r == has_control(text@),
{
    let v = to_chars(text);
    let mut i: usize = 0;
    while i < v.len()
        invariant
            i <= v.len(),
            v@ == text@,
            forall|k: int| 0 <= k < i ==> !unsafe_display(#[trigger] v@[k]),
        decreases v.len() - i,
    {
        if unsafe_display_character(v[i]) {
            return true;
        }
        i = i + 1;
    }
    false
}

/// The opening marker of a hook index block.
pub open spec fn index_open_marker() -> Seq<char> {
    "[long-term-memory-index:"@
}

/// The closing marker of a hook index block.
pub open spec fn index_close_marker() -> Seq<char> {
    "[/long-term-memory-index]"@
}

/// Whether `s` holds either marker of a hook index block.
pub open spec fn has_index_marker(s: Seq<char>) -> bool {
    contains_seq(s, index_open_marker()) || contains_seq(s, index_close_marker())
}

fn index_marker_in(v: &[char]) -> (r: bool)
    ensures
        r == has_index_marker(v@),
{
    let open = to_chars("[long-term-memory-index:");
    let close = to_chars("[/long-term-memory-index]");
    contains_chars(v, &open) || contains_chars(v, &close)
}

/// A line that a hook block may carry: non-empty, within the scalar and
/// byte limits, on one line, displayable and free of block markers.
pub open spec fn hook_line_ok(line: Seq<char>) -> bool {
    &&& line.len() > 0
    &&& line.len() <= HOOK_MAX_LINE_CODEPOINTS
    &&& utf8_len(line) <= HOOK_MAX_LINE_BYTES
    &&& !line.contains('\n')
    &&& !line.contains('\r')
    &&& !has_control(line)
    &&& !has_index_marker(line)
}

/// Whether `line` may stand in a hook block.
pub fn hook_line_valid(line: &str) -> (r: bool)
    ensures
        r == hook_line_ok(line@),
{
    let v = to_chars(line);
    if v.len() == 0 || py_len(line) > HOOK_MAX_LINE_CODEPOINTS || str_byte_len(line) > HOOK_MAX_LINE_BYTES {
        return false;
    }
    if contains_char(&v, '\n') || contains_char(&v, '\r') || hook_control_character(line) {
        return false;
    }
    !index_marker_in(&v)
}

/// The head of a line of a context block.
pub open spec fn hint_head() -> Seq<char> {
    "记忆提示：记忆 "@
}

/// The memory id of a context line and the position after its full-width
/// colon: the head, a digit run without a leading zero whose value fits
/// `i64`, then `：`.
pub open spec fn hint_id(line: Seq<char>) -> Option<(int, int)> {
    let h = hint_head().len() as int;
    if !is_prefix(line, hint_head()) {
        None
    } else {
        match take_digits_seq(line, h) {
            None => None,
            Some((id, e)) => if line[h] == '0' || !has_at(line, e, "："@) {
                None
            } else {
                Some((id, e + 1))
            },
        }
    }
}

/// A well-formed line of a context block: its id, a non-empty text after
/// the colon, and the limits of a hook line.
pub open spec fn hint_line_ok(line: Seq<char>) -> bool {
    &&& hint_id(line) matches Some((_, after)) && after < line.len()
    &&& line.len() <= HOOK_MAX_LINE_CODEPOINTS
    &&& utf8_len(line) <= HOOK_MAX_LINE_BYTES
    &&& !has_control(line)
    &&& !has_index_marker(line)
}

/// A context block that may be handed to the host: the block prefix, at
/// most the block's bytes, one to three well-formed lines after the prefix,
/// no memory id twice.
pub open spec fn codex_context_ok(value: Seq<char>) -> bool {
    let p = CODEX_BLOCK_PREFIX@;
    let lines = split_on(value.skip(p.len() as int), '\n');
    &&& is_prefix(value, p)
    &&& utf8_len(value) <= HOOK_MAX_BLOCK_BYTES
    &&& lines.len() <= 3
    &&& forall|i: int| 0 <= i < lines.len() ==> hint_line_ok(#[trigger] lines[i])
    &&& forall|i: int, j: int|
        0 <= i < j < lines.len() ==> (#[trigger] hint_id(lines[i])).unwrap().0 != (#[trigger] hint_id(
            lines[j],
        )).unwrap().0
}

/// The memory id of a well-formed context line.
fn hint_line_check(line: &str) -> (r: Option<i64>)
    ensures
        match r {
            Some(id) => hint_line_ok(line@) && hint_id(line@).unwrap().0 == id,
            None => !hint_line_ok(line@),
        },
{
    let v = to_chars(line);
    let head = to_chars("记忆提示：记忆 ");
    proof {
        reveal_strlit("记忆提示：记忆 ");
        reveal_strlit("：");
    }
    if !starts_with(&v, &head) {
        return None;
    }
    let h = head.len();
    let (id, e) = match take_digits(&v, h) {
        None => return None,
        Some(t) => t,
    };
    if v[h] == '0' || e >= v.len() || v[e] != '：' {
        proof {
            if has_at(v@, e as int, "："@) {
                assert(v@.subrange(e as int, e + 1)[0] == v@[e as int]);
            }
        }
        return None;
    }
    assert(v@.subrange(e as int, e + 1) =~= "："@);
    if e + 1 >= v.len() {
        return None;
    }
    if py_len(line) > HOOK_MAX_LINE_CODEPOINTS || str_byte_len(line) > HOOK_MAX_LINE_BYTES {
        return None;
    }
    if hook_control_character(line) || index_marker_in(&v) {
        return None;
    }
    Some(id)
}

/// Whether `value` is a context block that may be handed to the host.
pub fn codex_valid_context(value: &str) -> (r: bool)
    ensures
        r == codex_context_ok(value@),
{
    let v = to_chars(value);
    let p = to_chars(CODEX_BLOCK_PREFIX);
    if !starts_with(&v, &p) || str_byte_len(value) > HOOK_MAX_BLOCK_BYTES {
        return false;
    }
    let body = slice_chars(&v, p.len(), v.len());
    assert(body@ =~= value@.skip(CODEX_BLOCK_PREFIX@.len() as int));
    let lines = split_on_char(&body, '\n');
    let ghost ls = split_on(body@, '\n');
    assert(ls == split_on(value@.skip(CODEX_BLOCK_PREFIX@.len() as int), '\n'));
    if lines.len() > 3 {
        return false;
    }
    let mut ids: Vec<i64> = Vec::new();
    let mut i: usize = 0;
    while i < lines.len()
        invariant
            i <= lines.len(),
            views(lines@) == ls,
            ls == split_on(value@.skip(CODEX_BLOCK_PREFIX@.len() as int), '\n'),
            ids@.len() == i,
            forall|k: int| 0 <= k < i ==> hint_line_ok(#[trigger] ls[k]),
            forall|k: int| 0 <= k < i ==> (#[trigger] hint_id(ls[k])).unwrap().0 == ids@[k],
            forall|a: int, b: int| 0 <= a < b < i ==> ids@[a] != ids@[b],
        decreases lines.len() - i,
    {
        assert(ls[i as int] == lines@[i as int]@);
        let id = match hint_line_check(lines[i].as_str()) {
            None => {
                assert(!hint_line_ok(ls[i as int]));
                assert(!codex_context_ok(value@));
                return false;
            },
            Some(id) => id,
        };
        let mut k: usize = 0;
        while k < ids.len()
            invariant
                k <= ids.len(),
                ids@.len() == i,
                i < ls.len(),
                ls == split_on(value@.skip(CODEX_BLOCK_PREFIX@.len() as int), '\n'),
                hint_line_ok(ls[i as int]),
                hint_id(ls[i as int]).unwrap().0 == id,
                forall|a: int| 0 <= a < i ==> (#[trigger] hint_id(ls[a])).unwrap().0 == ids@[a],
                forall|a: int| 0 <= a < k ==> ids@[a] != id,
            decreases ids.len() - k,
        {
            if ids[k] == id {
                assert(hint_id(ls[k as int]).unwrap().0 == hint_id(ls[i as int]).unwrap().0);
                assert(!codex_context_ok(value@));
                return false;
            }
            k = k + 1;
        }
        ids.push(id);
        i = i + 1;
    }
    true
}

/// The index line of a radar candidate: its `line` member, when that is a
/// string.
pub open spec fn candidate_line(c: JsonValue) -> Option<Seq<char>> {
    json_str(json_get(c, "line"@))
}

/// The index lines of the picked candidates, in pick order.
pub open spec fn picked_lines(cands: Seq<JsonValue>, picks: Seq<int>) -> Seq<Seq<char>> {
    picks.map_values(|k: int| candidate_line(cands[k]).unwrap())
}

/// The UTF-8 size of a block of `lines` between `prefix` and `suffix`.
pub open spec fn block_bytes(lines: Seq<Seq<char>>, prefix: Seq<char>, suffix: Seq<char>) -> nat {
    utf8_len(prefix + join_newline(lines) + suffix)
}

/// Positions picked among the first `n` candidates: in order, each
/// candidate with a line is taken when the block still fits
/// `HOOK_MAX_BLOCK_BYTES` with its line added, until `budget` are taken
/// (at least one is always allowed).
pub open spec fn packed(
    cands: Seq<JsonValue>,
    n: nat,
    budget: int,
    prefix: Seq<char>,
    suffix: Seq<char>,
) -> Seq<int>
    decreases n,
{
    if n == 0 {
        Seq::empty()
    } else {
        let s = packed(cands, (n - 1) as nat, budget, prefix, suffix);
        let full = s.len() > 0 && s.len() >= budget;
        match candidate_line(cands[n - 1]) {
            None => s,
            Some(l) => if full || block_bytes(picked_lines(cands, s).push(l), prefix, suffix)
                > HOOK_MAX_BLOCK_BYTES {
                s
            } else {
                s.push(n - 1)
            },
        }
    }
}

proof fn lemma_block_bytes_push(lines: Seq<Seq<char>>, l: Seq<char>, prefix: Seq<char>, suffix: Seq<char>)
    ensures
        block_bytes(lines.push(l), prefix, suffix) == block_bytes(lines, prefix, suffix) + (if lines.len()
            > 0 {
            1nat
        } else {
            0nat
        }) + utf8_len(l),
{
    let j = join_newline(lines);
    assert(lines.push(l).drop_last() =~= lines);
    lemma_utf8_len_concat(prefix, j);
    lemma_utf8_len_concat(prefix + j, suffix);
    if lines.len() == 0 {
        assert(join_newline(lines.push(l)) == l);
        assert(j =~= Seq::<char>::empty());
        lemma_utf8_len_concat(prefix, l);
        lemma_utf8_len_concat(prefix + l, suffix);
        assert(prefix + j =~= prefix);
    } else {
        let nl = seq!['\n'];
        assert(join_newline(lines.push(l)) == j + nl + l);
        lemma_utf8_len_concat(j, nl);
        lemma_utf8_len_concat(j + nl, l);
        lemma_utf8_len_concat(prefix, j + nl + l);
        lemma_utf8_len_concat(prefix + (j + nl + l), suffix);
        assert(utf8_len(nl) == 1) by {
            assert(nl.drop_first() =~= Seq::<char>::empty());
            reveal_with_fuel(utf8_len, 2);
        }
    }
}

/// A packed block never exceeds the block size, never holds more than
/// `budget` lines (one, when `budget` is below one), and takes candidates
/// in their order, each at most once.
pub proof fn law_packed_block_fits(cands: Seq<JsonValue>, n: nat, budget: int, prefix: Seq<char>, suffix: Seq<char>)
    ensures
        ({
            let s = packed(cands, n, budget, prefix, suffix);
            &&& s.len() > 0 ==> block_bytes(picked_lines(cands, s), prefix, suffix) <= HOOK_MAX_BLOCK_BYTES
            &&& s.len() <= (if budget < 1 { 1 } else { budget })
            &&& forall|a: int, b: int| 0 <= a < b < s.len() ==> #[trigger] s[a] < #[trigger] s[b]
            &&& forall|a: int| 0 <= a < s.len() ==> 0 <= #[trigger] s[a] < n
        }),
    decreases n,
{
    if n > 0 {
        law_packed_block_fits(cands, (n - 1) as nat, budget, prefix, suffix);
        let s = packed(cands, (n - 1) as nat, budget, prefix, suffix);
        if let Some(l) = candidate_line(cands[n - 1]) {
            assert(picked_lines(cands, s.push(n - 1)) =~= picked_lines(cands, s).push(l));
            let t = s.push(n - 1);
            assert forall|a: int, b: int| 0 <= a < b < t.len() implies #[trigger] t[a] < #[trigger] t[b] by {
                if b < s.len() {
                    assert(s[a] < s[b]);
                } else {
                    assert(0 <= s[a] < n - 1);
                }
            }
        }
    }
}

/// The positions of the radar candidates that go into one hook block:
/// in order, a candidate with a `line` is taken when the block of the lines
/// taken so far and its own, between `prefix` and `suffix`, stays within
/// `HOOK_MAX_BLOCK_BYTES`; taking stops once `budget` are taken.
pub fn pack_radar_candidates(candidates: &[JsonValue], budget: i64, prefix: &str, suffix: &str) -> (r: Vec<usize>)
    ensures
        r@.map_values(|k: usize| k as int) == packed(candidates@, candidates@.len(), budget as int, prefix@, suffix@),
{
    let ghost cands = candidates@;
    let mut picks: Vec<usize> = Vec::new();
    let mut used: u128 = str_byte_len(prefix) as u128 + str_byte_len(suffix) as u128;
    proof {
        assert(picked_lines(cands, Seq::empty()) =~= Seq::<Seq<char>>::empty());
        assert(prefix@ + join_newline(Seq::empty()) =~= prefix@);
        lemma_utf8_len_concat(prefix@, suffix@);
    }
    let mut i: usize = 0;
    while i < candidates.len()
        invariant
            i <= candidates.len(),
            cands == candidates@,
            picks@.len() <= i,
            picks@.map_values(|k: usize| k as int) == packed(cands, i as nat, budget as int, prefix@, suffix@),
            used == block_bytes(picked_lines(cands, packed(cands, i as nat, budget as int, prefix@, suffix@)), prefix@, suffix@),
            used <= usize::MAX as u128 * 2 + 2401,
        decreases candidates.len() - i,
    {
        let ghost s = packed(cands, i as nat, budget as int, prefix@, suffix@);
        let full = picks.len() > 0 && (budget <= 0 || picks.len() as u64 >= budget as u64);
        assert(full == (s.len() > 0 && s.len() >= budget));
        match candidates[i].get("line") {
            Some(JsonValue::Str(line)) => {
                let ghost l = line@;
                assert(candidate_line(cands[i as int]) == Some(l));
                let sep: u128 = if picks.len() > 0 { 1 } else { 0 };
                let trial: u128 = used + sep + str_byte_len(line.as_str()) as u128;
                proof {
                    lemma_block_bytes_push(picked_lines(cands, s), l, prefix@, suffix@);
                    assert(picked_lines(cands, s).len() == s.len());
                }
                if !full && trial <= HOOK_MAX_BLOCK_BYTES as u128 {
                    picks.push(i);
                    used = trial;
                    proof {
                        assert(picks@.map_values(|k: usize| k as int) =~= s.push(i as int));
                        assert(picked_lines(cands, s.push(i as int)) =~= picked_lines(cands, s).push(l));
                    }
                }
            },
            _ => {
                assert(candidate_line(cands[i as int]) is None);
            },
        }
        i = i + 1;
    }
    assert(cands.len() == candidates.len());
    picks
}

/// The id of a radar candidate: its integer `id` member, 0 without one.
pub open spec fn candidate_id(c: JsonValue) -> i64 {
    match json_get(c, "id"@) {
        Some(JsonValue::Int(n)) => n,
        _ => 0,
    }
}

/// Whether a card may not be offered now: it is cooling down (its id text
/// is a cooldown key) or reserved by a pending block.
pub open spec fn id_blocked(id: i64, cooldown: Seq<Seq<char>>, reserved: Seq<i64>) -> bool {
    cooldown.contains(crate::chars::int_text(id as int)) || reserved.contains(id)
}

/// Which candidates may be offered.
pub open spec fn offered(cands: Seq<JsonValue>, cooldown: Seq<Seq<char>>, reserved: Seq<i64>) -> Seq<bool> {
    Seq::new(cands.len(), |k: int| !id_blocked(candidate_id(cands[k]), cooldown, reserved))
}

/// `packed` over the candidates marked open only.
pub open spec fn packed_where(
    cands: Seq<JsonValue>,
    open: Seq<bool>,
    n: nat,
    budget: int,
    prefix: Seq<char>,
    suffix: Seq<char>,
) -> Seq<int>
    decreases n,
{
    if n == 0 {
        Seq::empty()
    } else {
        let s = packed_where(cands, open, (n - 1) as nat, budget, prefix, suffix);
        let full = s.len() > 0 && s.len() >= budget;
        if !(n - 1 < open.len() && open[n - 1]) {
            s
        } else {
            match candidate_line(cands[n - 1]) {
                None => s,
                Some(l) => if full || block_bytes(picked_lines(cands, s).push(l), prefix, suffix) > HOOK_MAX_BLOCK_BYTES {
                    s
                } else {
                    s.push(n - 1)
                },
            }
        }
    }
}

fn id_is_blocked(id: i64, cooldown: &[String], reserved: &[i64]) -> (r: bool)
    ensures
        r == id_blocked(id, views(cooldown@), reserved@),
{
    let text = crate::chars::int_to_string(id);
    let mut i: usize = 0;
    while i < cooldown.len()
        invariant
            i <= cooldown.len(),
            text@ == crate::chars::int_text(id as int),
            forall|k: int| 0 <= k < i ==> views(cooldown@)[k] != text@,
        decreases cooldown.len() - i,
    {
        if str_eq(cooldown[i].as_str(), text.as_str()) {
            assert(views(cooldown@)[i as int] == text@);
            assert(views(cooldown@).contains(text@));
            assert(text@ == crate::chars::int_text(id as int));
            return true;
        }
        i = i + 1;
    }
    assert(!views(cooldown@).contains(text@));
    let mut j: usize = 0;
    while j < reserved.len()
        invariant
            j <= reserved.len(),
            forall|k: int| 0 <= k < j ==> reserved@[k] != id,
        decreases reserved.len() - j,
    {
        if reserved[j] == id {
            return true;
        }
        j = j + 1;
    }
    false
}

/// The candidates a hook scan offers: those whose card is neither cooling
/// down nor reserved, packed in order into one hook block of at most
/// `budget` lines (one when `budget` is below one).
pub fn hook_scan_selection(candidates: &[JsonValue], budget: i64, cooldown: &[String], reserved: &[i64]) -> (r: Vec<
    usize,
>)
    ensures
        r@.map_values(|k: usize| k as int) == packed_where(
            candidates@,
            offered(candidates@, views(cooldown@), reserved@),
            candidates@.len(),
            budget as int,
            crate::HOOK_BLOCK_PREFIX@,
            crate::HOOK_BLOCK_SUFFIX@,
        ),
{
    let prefix = crate::HOOK_BLOCK_PREFIX;
    let suffix = crate::HOOK_BLOCK_SUFFIX;
    let ghost cands = candidates@;
    let ghost open = offered(candidates@, views(cooldown@), reserved@);
    let mut picks: Vec<usize> = Vec::new();
    let mut used: u128 = str_byte_len(prefix) as u128 + str_byte_len(suffix) as u128;
    proof {
        assert(picked_lines(cands, Seq::empty()) =~= Seq::<Seq<char>>::empty());
        assert(prefix@ + join_newline(Seq::empty()) =~= prefix@);
        lemma_utf8_len_concat(prefix@, suffix@);
    }
    let mut i: usize = 0;
    while i < candidates.len()
        invariant
            i <= candidates.len(),
            cands == candidates@,
            open == offered(candidates@, views(cooldown@), reserved@),
            picks@.len() <= i,
            picks@.map_values(|k: usize| k as int) == packed_where(cands, open, i as nat, budget as int, prefix@, suffix@),
            used == block_bytes(
                picked_lines(cands, packed_where(cands, open, i as nat, budget as int, prefix@, suffix@)),
                prefix@,
                suffix@,
            ),
            used <= usize::MAX as u128 * 2 + 2401,
        decreases candidates.len() - i,
    {
        let ghost s = packed_where(cands, open, i as nat, budget as int, prefix@, suffix@);
        let full = picks.len() > 0 && (budget <= 0 || picks.len() as u64 >= budget as u64);
        assert(full == (s.len() > 0 && s.len() >= budget));
        let id = match candidates[i].get("id") {
            Some(JsonValue::Int(n)) => *n,
            _ => 0,
        };
        assert(id == candidate_id(cands[i as int]));
        if !id_is_blocked(id, cooldown, reserved) {
            assert(open[i as int]);
            match candidates[i].get("line") {
                Some(JsonValue::Str(line)) => {
                    let ghost l = line@;
                    assert(candidate_line(cands[i as int]) == Some(l));
                    let sep: u128 = if picks.len() > 0 { 1 } else { 0 };
                    let trial: u128 = used + sep + str_byte_len(line.as_str()) as u128;
                    proof {
                        lemma_block_bytes_push(picked_lines(cands, s), l, prefix@, suffix@);
                        assert(picked_lines(cands, s).len() == s.len());
                    }
                    if !full && trial <= HOOK_MAX_BLOCK_BYTES as u128 {
                        picks.push(i);
                        used = trial;
                        proof {
                            assert(picks@.map_values(|k: usize| k as int) =~= s.push(i as int));
                            assert(picked_lines(cands, s.push(i as int)) =~= picked_lines(cands, s).push(l));
                        }
                    }
                },
                _ => {
                    assert(candidate_line(cands[i as int]) is None);
                },
            }
        } else {
            assert(!open[i as int]);
        }
        i = i + 1;
    }
    picks
}

/// The key of a host session: the hex SHA-256 of the host's name, a NUL
/// and the session id.
pub fn hook_session_key(host: &str, session_id: &str) -> (r: String)
    ensures
        r@ == hex_seq(sha256_of(encode_utf8(host@ + seq!['\0'] + session_id@))),
        r@.len() == 64,
{
    let mut v = to_chars(host);
    v.push('\0');
    extend_str(&mut v, session_id);
    assert(v@ =~= host@ + seq!['\0'] + session_id@);
    let joined = from_chars(&v);
    sha256_hex(joined.as_str().as_bytes())
}

/// The text of a string member, `""` when it is missing or not a string.
pub open spec fn member_text(p: JsonValue, key: Seq<char>) -> Seq<char> {
    match json_str(json_get(p, key)) {
        Some(t) => t,
        None => Seq::empty(),
    }
}

/// A lower-case hexadecimal digit.
pub open spec fn hex_digit(c: char) -> bool {
    ('0' <= c && c <= '9') || ('a' <= c && c <= 'f')
}

/// A character of a reservation id: ASCII letters and digits, `_` and `-`.
pub open spec fn token_char(c: char) -> bool {
    ('a' <= c && c <= 'z') || ('A' <= c && c <= 'Z') || ('0' <= c && c <= '9') || c == '_' || c == '-'
}

/// Whether a hook request comes from the supported host.
pub open spec fn from_supported_host(p: JsonValue) -> bool {
    json_str(json_get(p, "host"@)) == Some("opencode"@)
}

/// What is wrong with a hook control request, if anything: the host, the
/// session key (64 lower-case hex digits), the reservation id (20 to 128
/// letters, digits, `_` or `-`).
pub open spec fn hook_control_problem(p: JsonValue) -> Option<Seq<char>> {
    let key = member_text(p, "session_key"@);
    let res = member_text(p, "reservation_id"@);
    if !from_supported_host(p) {
        Some("hook host is unsupported"@)
    } else if !(key.len() == 64 && forall|i: int| 0 <= i < key.len() ==> hex_digit(#[trigger] key[i])) {
        Some("hook session key is invalid"@)
    } else if !(20 <= res.len() <= 128 && forall|i: int| 0 <= i < res.len() ==> token_char(#[trigger] res[i])) {
        Some("hook reservation id is invalid"@)
    } else {
        None
    }
}

fn member_str<'a>(p: &'a JsonValue, key: &str) -> (r: &'a str)
    ensures
        r@ == member_text(*p, key@),
{
    proof {
        reveal_strlit("");
    }
    match p.get(key) {
        Some(JsonValue::Str(t)) => t.as_str(),
        _ => "",
    }
}

fn all_chars_hex(v: &[char]) -> (r: bool)
    ensures
        r == forall|i: int| 0 <= i < v@.len() ==> hex_digit(#[trigger] v@[i]),
{
    let mut i: usize = 0;
    while i < v.len()
        invariant
            i <= v.len(),
            forall|k: int| 0 <= k < i ==> hex_digit(#[trigger] v@[k]),
        decreases v.len() - i,
    {
        let c = v[i];
        if !(('0' <= c && c <= '9') || ('a' <= c && c <= 'f')) {
            assert(!hex_digit(v@[i as int]));
            return false;
        }
        i = i + 1;
    }
    true
}

fn all_chars_token(v: &[char]) -> (r: bool)
    ensures
        r == forall|i: int| 0 <= i < v@.len() ==> token_char(#[trigger] v@[i]),
{
    let mut i: usize = 0;
    while i < v.len()
        invariant
            i <= v.len(),
            forall|k: int| 0 <= k < i ==> token_char(#[trigger] v@[k]),
        decreases v.len() - i,
    {
        let c = v[i];
        if !(('a' <= c && c <= 'z') || ('A' <= c && c <= 'Z') || ('0' <= c && c <= '9') || c == '_' || c == '-') {
            assert(!token_char(v@[i as int]));
            return false;
        }
        i = i + 1;
    }
    true
}

fn protocol_error(m: &str) -> (e: Error)
    ensures
        e matches Error::HookProtocol(x) && x@ == m@,
{
    Error::HookProtocol(from_chars(&to_chars(m)))
}

/// Checks a hook control request.
pub fn validate_hook_control_payload(payload: &JsonValue) -> (r: Result<(), Error>)
    ensures
        match hook_control_problem(*payload) {
            Some(m) => r matches Err(Error::HookProtocol(x)) && x@ == m,
            None => r is Ok,
        },
{
    let host = match payload.get("host") {
        Some(JsonValue::Str(h)) => str_eq(h.as_str(), "opencode"),
        _ => false,
    };
    if !host {
        return Err(protocol_error("hook host is unsupported"));
    }
    let key = to_chars(member_str(payload, "session_key"));
    if !(key.len() == 64 && all_chars_hex(&key)) {
        return Err(protocol_error("hook session key is invalid"));
    }
    let res = to_chars(member_str(payload, "reservation_id"));
    if !(20 <= res.len() && res.len() <= 128 && all_chars_token(&res)) {
        return Err(protocol_error("hook reservation id is invalid"));
    }
    Ok(())
}

/// What is wrong with a hook scan request, if anything, given whether its
/// project path is absolute: the host, the session id (1 to 256 bytes), the
/// project path (absolute, 1 to 4096 bytes), the text (a string of at most
/// 4096 scalars), the budget (an integer from 0 to 3).
pub open spec fn hook_scan_problem(p: JsonValue, project_absolute: bool) -> Option<Seq<char>> {
    let session = member_text(p, "session_id"@);
    let project = member_text(p, "project_path"@);
    let text = json_str(json_get(p, "text"@));
    if !from_supported_host(p) {
        Some("hook host is unsupported"@)
    } else if session.len() == 0 || utf8_len(session) > HOOK_MAX_SESSION_BYTES {
        Some("hook session id is invalid"@)
    } else if project.len() == 0 || !project_absolute || utf8_len(project) > HOOK_MAX_PROJECT_BYTES {
        Some("hook project path is invalid"@)
    } else if text is None || text.unwrap().len() > HOOK_MAX_TEXT_CHARS {
        Some("hook text is invalid"@)
    } else if !(json_get(p, "budget"@) matches Some(JsonValue::Int(b)) && 0 <= b <= HOOK_MAX_BUDGET) {
        Some("hook budget is invalid"@)
    } else {
        None
    }
}

/// Checks a hook scan request, given whether its project path is absolute.
pub fn check_hook_scan_payload(payload: &JsonValue, project_absolute: bool) -> (r: Result<(), Error>)
    ensures
        match hook_scan_problem(*payload, project_absolute) {
            Some(m) => r matches Err(Error::HookProtocol(x)) && x@ == m,
            None => r is Ok,
        },
{
    let host = match payload.get("host") {
        Some(JsonValue::Str(h)) => str_eq(h.as_str(), "opencode"),
        _ => false,
    };
    if !host {
        return Err(protocol_error("hook host is unsupported"));
    }
    let session = member_str(payload, "session_id");
    if session.unicode_len() == 0 || str_byte_len(session) > HOOK_MAX_SESSION_BYTES {
        return Err(protocol_error("hook session id is invalid"));
    }
    let project = member_str(payload, "project_path");
    if project.unicode_len() == 0 || !project_absolute || str_byte_len(project) > HOOK_MAX_PROJECT_BYTES {
        return Err(protocol_error("hook project path is invalid"));
    }
    match payload.get("text") {
        Some(JsonValue::Str(t)) => if py_len(t.as_str()) > HOOK_MAX_TEXT_CHARS {
            return Err(protocol_error("hook text is invalid"));
        },
        _ => return Err(protocol_error("hook text is invalid")),
    }
    match payload.get("budget") {
        Some(JsonValue::Int(b)) => if *b < 0 || *b > HOOK_MAX_BUDGET {
            return Err(protocol_error("hook budget is invalid"));
        },
        _ => return Err(protocol_error("hook budget is invalid")),
    }
    Ok(())
}

/// The shape every absolute path has on every platform: it starts with a
/// root separator (`/` or `\\`) or with a drive prefix (`X:`).
pub open spec fn absolute_shape(p: Seq<char>) -> bool {
    p.len() > 0 && (p[0] == '/' || p[0] == '\\' || (p.len() >= 2 && p[1] == ':'))
}

/// `std::path::Path::is_absolute` on a path text. The full answer depends
/// on the platform's path rules and is not stated; what is claimed holds on
/// every platform: an absolute path starts with a root separator (Unix
/// `/`; Windows `\\` or `/`, verbatim, device and UNC prefixes included) or
/// with a drive prefix (Windows `X:` followed by a root).
#[verifier::external_body]
fn path_is_absolute(path: &str) -> (r: bool)
    ensures
        r ==> absolute_shape(path@),
{
    std::path::Path::new(path).is_absolute()
}

/// Checks a hook scan request; whether the project path is absolute is the
/// platform's answer, and the result is the check for that answer. A path
/// without the shape of an absolute path is refused on every platform.
pub fn validate_hook_scan_payload(payload: &JsonValue) -> (r: Result<(), Error>)
    ensures
        exists|abs: bool|
            match #[trigger] hook_scan_problem(*payload, abs) {
                Some(m) => r matches Err(Error::HookProtocol(x)) && x@ == m,
                None => r is Ok,
            },
        !absolute_shape(member_text(*payload, "project_path"@)) ==> match hook_scan_problem(*payload, false) {
            Some(m) => r matches Err(Error::HookProtocol(x)) && x@ == m,
            None => r is Ok,
        },
        r is Ok ==> absolute_shape(member_text(*payload, "project_path"@)),
{
    let project = member_str(payload, "project_path");
    let abs = path_is_absolute(project);
    let r = check_hook_scan_payload(payload, abs);
    assert(match hook_scan_problem(*payload, abs) {
        Some(m) => r matches Err(Error::HookProtocol(x)) && x@ == m,
        None => r is Ok,
    });
    r
}

/// The events that need no answer end without output.
pub fn codex_noop() {
}

/// Whether a text holds nothing but white space.
pub open spec fn blank_text(t: Seq<char>) -> bool {
    forall|i: int| 0 <= i < t.len() ==> crate::host_setup::rust_space(#[trigger] t[i])
}

/// The most reservations a session may hold at once.
pub const HOOK_MAX_RESERVATIONS: usize = 128;

/// What a hook scan offers: nothing for a zero budget, a blank text or no
/// candidates; a refusal when the session already holds the most
/// reservations; otherwise the selection of `hook_scan_selection`.
pub open spec fn hook_scan_outcome(
    candidates: Seq<JsonValue>,
    budget: i64,
    text: Seq<char>,
    cooldown: Seq<Seq<char>>,
    reserved: Seq<i64>,
    reservations: int,
) -> Option<Seq<int>> {
    if budget == 0 || blank_text(text) || candidates.len() == 0 {
        Some(Seq::empty())
    } else if reservations >= HOOK_MAX_RESERVATIONS {
        None
    } else {
        Some(
            packed_where(
                candidates,
                offered(candidates, cooldown, reserved),
                candidates.len(),
                budget as int,
                crate::HOOK_BLOCK_PREFIX@,
                crate::HOOK_BLOCK_SUFFIX@,
            ),
        )
    }
}

/// The decisions of a hook scan around the selection: the early empty
/// answers, the refusal (`HookUnavailable` with `internal`) when the session
/// holds `reservations` at the limit, then the positions offered.
pub fn hook_scan_step(
    candidates: &[JsonValue],
    budget: i64,
    text: &str,
    cooldown: &[String],
    reserved: &[i64],
    reservations: usize,
) -> (r: Result<Vec<usize>, Error>)
    ensures
        match hook_scan_outcome(candidates@, budget, text@, views(cooldown@), reserved@, reservations as int) {
            Some(p) => r matches Ok(v) && v@.map_values(|k: usize| k as int) == p,
            None => r matches Err(Error::HookUnavailable(x)) && x@ == "internal"@,
        },
{
    let v = to_chars(text);
    let mut blank = true;
    let mut i: usize = 0;
    while i < v.len()
        invariant
            i <= v.len(),
            v@ == text@,
            blank == (forall|k: int| 0 <= k < i ==> crate::host_setup::rust_space(#[trigger] v@[k])),
        decreases v.len() - i,
    {
        if !crate::host_setup::is_rust_space(v[i]) {
            blank = false;
        }
        i = i + 1;
    }
    if budget == 0 || blank || candidates.len() == 0 {
        let out: Vec<usize> = Vec::new();
        assert(out@.map_values(|k: usize| k as int) =~= Seq::<int>::empty());
        return Ok(out);
    }
    if reservations >= HOOK_MAX_RESERVATIONS {
        return Err(Error::HookUnavailable(String::from_str("internal")));
    }
    Ok(hook_scan_selection(candidates, budget, cooldown, reserved))
}

} // verus!
