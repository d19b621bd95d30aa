//! Parsing of `.mem` v1 card text: the header grammar, the directive lines
//! and the checks that follow them.

use vstd::prelude::*;

use crate::chars::{contains_char, extend_str, from_chars, is_prefix, slice_chars, starts_with, str_byte_len, str_eq, to_chars, utf8_len};
use crate::mem::{ascii_digit, canonical_entities, canonical_entities_seq, chars_lt, crlf_to_lf, digits_value, is_core_error, lemma_split_nonempty, parse_iso_date, parse_iso_date_seq, replace_crlf, seq_lt, split_on, split_on_char, valid_type, views, Card, CardModel};
use crate::normalize::{py_repr_seq, py_repr_str};
use crate::{MAX_CARD_BYTES, MAX_PUBLIC_ID};
use crate::normalize::{py_strip, py_strip_seq};
use crate::Error;

verus! {

/// ASCII whitespace of the header grammar.
pub open spec fn header_space(c: char) -> bool {
    c == ' ' || c == '\t' || c == '\n' || c == '\r' || c == '\x0b' || c == '\x0c'
}

/// ASCII word characters of the header grammar.
pub open spec fn header_word(c: char) -> bool {
    ('a' <= c && c <= 'z') || ('A' <= c && c <= 'Z') || ('0' <= c && c <= '9') || c == '_'
}

/// End of the run of `pred` characters starting at `i`.
pub open spec fn span_end(s: Seq<char>, i: int, pred: spec_fn(char) -> bool) -> int
    decreases s.len() - i,
{
    if 0 <= i < s.len() && pred(s[i]) {
        span_end(s, i + 1, pred)
    } else {
        i
    }
}

pub open spec fn digit_pred() -> spec_fn(char) -> bool {
    |c: char| ascii_digit(c)
}

pub open spec fn space_pred_h() -> spec_fn(char) -> bool {
    |c: char| header_space(c)
}

pub open spec fn word_pred() -> spec_fn(char) -> bool {
    |c: char| header_word(c)
}

/// A non-empty digit run at `i` whose value fits `i64`: (value, end).
pub open spec fn take_digits_seq(s: Seq<char>, i: int) -> Option<(int, int)> {
    let e = span_end(s, i, digit_pred());
    if e == i || digits_value(s.subrange(i, e)) > i64::MAX {
        None
    } else {
        Some((digits_value(s.subrange(i, e)), e))
    }
}

/// Whether `s[i..]` starts with `p`.
pub open spec fn has_at(s: Seq<char>, i: int, p: Seq<char>) -> bool {
    0 <= i && i + p.len() <= s.len() && s.subrange(i, i + p.len()) == p
}

/// The `YYYY-DD-MM`-shaped date field.
pub open spec fn date_shaped(d: Seq<char>) -> bool {
    d.len() == 10 && forall|k: int| 0 <= k < 10 ==> (if k == 4 || k == 7 { #[trigger] d[k] == '-' } else { ascii_digit(d[k]) })
}

/// End of a well-formed `F<0|1>[.<digits>]` group whose `F` stands at `f`.
pub open spec fn f_group_end(s: Seq<char>, f: int) -> Option<int> {
    if 0 <= f < s.len() && s[f] == 'F' {
        match take_digits_seq(s, f + 1) {
            Some((fd, a)) => if fd == 0 || fd == 1 {
                if a < s.len() && s[a] == '.' {
                    match take_digits_seq(s, a + 1) {
                        Some((_, fr)) => Some(fr),
                        None => None,
                    }
                } else {
                    Some(a)
                }
            } else {
                None
            },
            None => None,
        }
    } else {
        None
    }
}

/// After the trust field ending at `p`: where the date starts, if the
/// optional `F` freshness group and the separating whitespace are well formed.
pub open spec fn date_start(s: Seq<char>, p: int) -> Option<int> {
    let probe = span_end(s, p, space_pred_h());
    let f_end = if probe > p {
        f_group_end(s, probe)
    } else {
        None
    };
    match f_end {
        Some(a) => if span_end(s, a, space_pred_h()) > a {
            Some(span_end(s, a, space_pred_h()))
        } else if probe > p {
            Some(probe)
        } else {
            None
        },
        None => if probe > p {
            Some(probe)
        } else {
            None
        },
    }
}

/// Parsed header fields: (id, type, status, importance, trust units, date).
pub type HeaderParts = (int, Seq<char>, Seq<char>, int, int, Seq<char>);

/// `@<id> <type> <status> I<0-3> T<0|0.5|..|3> [F<0|1>[.<digits>]] <YYYY-MM-DD>`
/// with runs of ASCII whitespace between fields.
pub open spec fn parse_header_seq(line: Seq<char>) -> Option<HeaderParts> {
    if line.len() == 0 || line[0] != '@' {
        None
    } else {
        let s = line.drop_first();
        match take_digits_seq(s, 0) {
            None => None,
            Some((id, p1)) => {
                let p2 = span_end(s, p1, space_pred_h());
                let p3 = span_end(s, p2, word_pred());
                let p4 = span_end(s, p3, space_pred_h());
                let p5 = span_end(s, p4, word_pred());
                let p6 = span_end(s, p5, space_pred_h());
                if p2 == p1 || p3 == p2 || p4 == p3 || p5 == p4 || p6 == p5 || p6 >= s.len() || s[p6]
                    != 'I' {
                    None
                } else {
                    match take_digits_seq(s, p6 + 1) {
                        None => None,
                        Some((imp, p7)) => {
                            let p8 = span_end(s, p7, space_pred_h());
                            if imp > 3 || p8 == p7 || p8 >= s.len() || s[p8] != 'T' {
                                None
                            } else {
                                match take_digits_seq(s, p8 + 1) {
                                    None => None,
                                    Some((tw, p9)) => {
                                        let half = has_at(s, p9, seq!['.', '5']);
                                        let units = tw * 2 + (if half { 1int } else { 0int });
                                        let p10 = if half { p9 + 2 } else { p9 };
                                        if tw > 3 || !(0 <= units <= 6) {
                                            None
                                        } else {
                                            match date_start(s, p10) {
                                                None => None,
                                                Some(pos) => {
                                                    let date = s.subrange(pos, s.len() as int);
                                                    if pos >= s.len() || !date_shaped(date) {
                                                        None
                                                    } else {
                                                        Some((id, s.subrange(p2, p3), s.subrange(p4, p5), imp, units, date))
                                                    }
                                                },
                                            }
                                        }
                                    },
                                }
                            }
                        },
                    }
                }
            },
        }
    }
}

fn is_header_space(c: char) -> (r: bool)
    ensures
        r == header_space(c),
{
    c == ' ' || c == '\t' || c == '\n' || c == '\r' || c == '\x0b' || c == '\x0c'
}

fn is_header_word(c: char) -> (r: bool)
    ensures
        r == header_word(c),
{
    ('a' <= c && c <= 'z') || ('A' <= c && c <= 'Z') || ('0' <= c && c <= '9') || c == '_'
}

pub proof fn lemma_span_end_bounds(s: Seq<char>, i: int, pred: spec_fn(char) -> bool)
    requires
        0 <= i <= s.len(),
    ensures
        i <= span_end(s, i, pred) <= s.len(),
        forall|k: int| i <= k < span_end(s, i, pred) ==> pred(#[trigger] s[k]),
        span_end(s, i, pred) < s.len() ==> !pred(s[span_end(s, i, pred)]),
    decreases s.len() - i,
{
    if i < s.len() && pred(s[i]) {
        lemma_span_end_bounds(s, i + 1, pred);
    }
}

pub proof fn lemma_span_end_at(s: Seq<char>, i: int, j: int, pred: spec_fn(char) -> bool)
    requires
        0 <= i <= j <= s.len(),
        forall|k: int| i <= k < j ==> pred(#[trigger] s[k]),
        j == s.len() || !pred(s[j]),
    ensures
        span_end(s, i, pred) == j,
    decreases j - i,
{
    if i < j {
        lemma_span_end_at(s, i + 1, j, pred);
    }
}

fn span_spaces(s: &[char], i: usize) -> (e: usize)
    requires
        i <= s.len(),
    ensures
        e == span_end(s@, i as int, space_pred_h()),
        i <= e <= s.len(),
{
    let mut e = i;
    while e < s.len() && is_header_space(s[e])
        invariant
            i <= e <= s.len(),
            forall|k: int| i <= k < e ==> (space_pred_h())(#[trigger] s@[k]),
        decreases s.len() - e,
    {
        e = e + 1;
    }
    proof {
        lemma_span_end_at(s@, i as int, e as int, space_pred_h());
    }
    e
}

fn span_word(s: &[char], i: usize) -> (e: usize)
    requires
        i <= s.len(),
    ensures
        e == span_end(s@, i as int, word_pred()),
        i <= e <= s.len(),
{
    let mut e = i;
    while e < s.len() && is_header_word(s[e])
        invariant
            i <= e <= s.len(),
            forall|k: int| i <= k < e ==> (word_pred())(#[trigger] s@[k]),
        decreases s.len() - e,
    {
        e = e + 1;
    }
    proof {
        lemma_span_end_at(s@, i as int, e as int, word_pred());
    }
    e
}

/// A non-empty digit run at `i` whose value fits `i64`.
pub(crate) fn take_digits(s: &[char], i: usize) -> (r: Option<(i64, usize)>)
    requires
        i <= s.len(),
    ensures
        match take_digits_seq(s@, i as int) {
            Some((v, e)) => 0 <= v <= i64::MAX && i < e <= s.len() && r == Some((v as i64, e as usize)),
            None => r is None,
        },
{
    let mut e = i;
    let mut value: i64 = 0;
    let mut overflow = false;
    while e < s.len() && '0' <= s[e] && s[e] <= '9'
        invariant
            i <= e <= s.len(),
            forall|k: int| i <= k < e ==> (digit_pred())(#[trigger] s@[k]),
            !overflow ==> value == digits_value(s@.subrange(i as int, e as int)),
            overflow ==> digits_value(s@.subrange(i as int, e as int)) > i64::MAX,
            0 <= value,
        decreases s.len() - e,
    {
        let d = ((s[e] as u32) - ('0' as u32)) as i64;
        proof {
            assert(s@.subrange(i as int, e + 1).drop_last() =~= s@.subrange(i as int, e as int));
            lemma_digits_value_nonneg(s@.subrange(i as int, e as int));
        }
        if !overflow {
            if value > (i64::MAX - d) / 10 {
                overflow = true;
            } else {
                value = value * 10 + d;
            }
        }
        e = e + 1;
    }
    proof {
        lemma_span_end_at(s@, i as int, e as int, digit_pred());
        lemma_digits_value_nonneg(s@.subrange(i as int, e as int));
    }
    if e == i || overflow {
        return None;
    }
    Some((value, e))
}

pub proof fn lemma_digits_value_nonneg(s: Seq<char>)
    requires
        forall|k: int| 0 <= k < s.len() ==> ascii_digit(#[trigger] s[k]),
    ensures
        digits_value(s) >= 0,
    decreases s.len(),
{
    if s.len() > 0 {
        lemma_digits_value_nonneg(s.drop_last());
    }
}



/// End of the `F` group at `f`, if well formed.
fn find_f_group_end(s: &[char], f: usize) -> (r: Option<usize>)
    requires
        f <= s.len(),
    ensures
        match f_group_end(s@, f as int) {
            Some(x) => 0 <= x <= s.len() && r == Some(x as usize),
            None => r is None,
        },
{
    if f < s.len() && s[f] == 'F' {
        match take_digits(s, f + 1) {
            Some((fd, a)) => {
                if fd == 0 || fd == 1 {
                    if a < s.len() && s[a] == '.' {
                        match take_digits(s, a + 1) {
                            Some((_, fr)) => Some(fr),
                            None => None,
                        }
                    } else {
                        Some(a)
                    }
                } else {
                    None
                }
            },
            None => None,
        }
    } else {
        None
    }
}

/// Where the date starts after the trust field ending at `p`.
fn find_date_start(s: &[char], p: usize) -> (r: Option<usize>)
    requires
        p <= s.len(),
    ensures
        match date_start(s@, p as int) {
            Some(x) => 0 <= x <= s.len() && r == Some(x as usize),
            None => r is None,
        },
{
    let probe = span_spaces(s, p);
    let f_end = if probe > p {
        find_f_group_end(s, probe)
    } else {
        None
    };
    let ghost sf = if probe > p {
        f_group_end(s@, probe as int)
    } else {
        None
    };
    assert(match sf {
        Some(x) => 0 <= x <= s.len() && f_end == Some(x as usize),
        None => f_end is None,
    });
    match f_end {
        Some(a) => {
            let e = span_spaces(s, a);
            if e > a {
                return Some(e);
            }
        },
        None => {},
    }
    if probe > p {
        Some(probe)
    } else {
        None
    }
}

/// Whether `d` has the `YYYY-MM-DD` shape.
fn is_date_shaped(d: &[char]) -> (r: bool)
    ensures
        r == date_shaped(d@),
{
    if d.len() != 10 {
        return false;
    }
    let mut k: usize = 0;
    while k < 10
        invariant
            k <= 10,
            d.len() == 10,
            forall|j: int| 0 <= j < k ==> (if j == 4 || j == 7 { #[trigger] d@[j] == '-' } else { ascii_digit(d@[j]) }),
        decreases 10 - k,
    {
        if k == 4 || k == 7 {
            if d[k] != '-' {
                return false;
            }
        } else if !('0' <= d[k] && d[k] <= '9') {
            return false;
        }
        k = k + 1;
    }
    true
}

/// Parses a card header line into its fields.
fn parse_header(line: &[char]) -> (r: Option<(i64, String, String, i64, i64, String)>)
    ensures
        match parse_header_seq(line@) {
            Some((id, t, st, imp, units, date)) => r matches Some((a, b, c, d, e, f)) && a == id
                && b@ == t && c@ == st && d == imp && e == units && f@ == date,
            None => r is None,
        },
{
    if line.len() == 0 || line[0] != '@' {
        return None;
    }
    let s = slice_chars(line, 1, line.len());
    assert(s@ =~= line@.drop_first());
    let (id, p1) = match take_digits(&s, 0) {
        Some(x) => x,
        None => {
            return None;
        },
    };
    let p2 = span_spaces(&s, p1);
    let p3 = span_word(&s, p2);
    let p4 = span_spaces(&s, p3);
    let p5 = span_word(&s, p4);
    let p6 = span_spaces(&s, p5);
    if p2 == p1 || p3 == p2 || p4 == p3 || p5 == p4 || p6 == p5 || p6 >= s.len() || s[p6] != 'I' {
        return None;
    }
    let (imp, p7) = match take_digits(&s, p6 + 1) {
        Some(x) => x,
        None => {
            return None;
        },
    };
    let p8 = span_spaces(&s, p7);
    if imp > 3 || p8 == p7 || p8 >= s.len() || s[p8] != 'T' {
        return None;
    }
    let (tw, p9) = match take_digits(&s, p8 + 1) {
        Some(x) => x,
        None => {
            return None;
        },
    };
    if tw > 3 {
        return None;
    }
    let half = p9 < s.len() && p9 + 1 < s.len() && s[p9] == '.' && s[p9 + 1] == '5';
    proof {
        if p9 + 2 <= s.len() {
            assert(has_at(s@, p9 as int, seq!['.', '5']) == (s@[p9 as int] == '.' && s@[p9 + 1] == '5')) by {
                if s@[p9 as int] == '.' && s@[p9 + 1] == '5' {
                    assert(s@.subrange(p9 as int, p9 + 2) =~= seq!['.', '5']);
                }
            }
        }
    }
    let units: i64 = if half { tw * 2 + 1 } else { tw * 2 };
    if units > 6 {
        return None;
    }
    let p10 = if half { p9 + 2 } else { p9 };
    let pos = match find_date_start(&s, p10) {
        Some(x) => x,
        None => {
            return None;
        },
    };
    if pos >= s.len() {
        return None;
    }
    let date = slice_chars(&s, pos, s.len());
    if !is_date_shaped(&date) {
        return None;
    }
    let ghost sv = s@;
    assert(take_digits_seq(sv, 0) == Some((id as int, p1 as int)));
    assert(take_digits_seq(sv, p6 + 1) == Some((imp as int, p7 as int)));
    assert(take_digits_seq(sv, p8 + 1) == Some((tw as int, p9 as int)));
    assert(has_at(sv, p9 as int, seq!['.', '5']) == half);
    assert(date_start(sv, p10 as int) == Some(pos as int));
    assert(date_shaped(sv.subrange(pos as int, sv.len() as int)));
    assert(line@.drop_first() == sv);
    let card_type = from_chars(&slice_chars(&s, p2, p3));
    let status = from_chars(&slice_chars(&s, p4, p5));
    Some((id, card_type, status, imp, units, from_chars(&date)))
}


/// A saturating conversion of a non-negative value to `i64`.
pub open spec fn saturate(v: int) -> i64 {
    if v > i64::MAX {
        i64::MAX
    } else {
        v as i64
    }
}

/// The values of the maximal ASCII digit runs of `s` from `i` on, each
/// saturated at `i64::MAX`.
pub open spec fn digit_runs_from(s: Seq<char>, i: int) -> Seq<i64>
    decreases s.len() - i,
{
    if i < 0 || i >= s.len() {
        Seq::empty()
    } else if ascii_digit(s[i]) {
        let e = span_end(s, i + 1, digit_pred());
        proof {
            lemma_span_end_bounds(s, i + 1, digit_pred());
        }
        seq![saturate(digits_value(s.subrange(i, e)))] + digit_runs_from(s, e)
    } else {
        digit_runs_from(s, i + 1)
    }
}

/// The referenced ids of a `# supersedes` value: every run of ASCII digits,
/// saturated at `i64::MAX`.
fn parse_supersedes(text: &[char]) -> (r: Vec<i64>)
    ensures
        r@ == digit_runs_from(text@, 0),
{
    let mut out: Vec<i64> = Vec::new();
    let mut pos: usize = 0;
    while pos < text.len()
        invariant
            pos <= text.len(),
            out@ + digit_runs_from(text@, pos as int) == digit_runs_from(text@, 0),
        decreases text.len() - pos,
    {
        if '0' <= text[pos] && text[pos] <= '9' {
            let e = span_digits(text, pos + 1);
            let value = match take_digits(text, pos) {
                Some((v, _)) => v,
                None => i64::MAX,
            };
            proof {
                lemma_span_end_bounds(text@, pos + 1, digit_pred());
                assert(span_end(text@, pos as int, digit_pred()) == span_end(text@, pos + 1, digit_pred()));
                assert(digit_runs_from(text@, pos as int) == seq![saturate(digits_value(text@.subrange(pos as int, e as int)))] + digit_runs_from(text@, e as int));
                assert(value == saturate(digits_value(text@.subrange(pos as int, e as int))));
                assert(out@.push(value) + digit_runs_from(text@, e as int) =~= out@ + digit_runs_from(text@, pos as int));
            }
            out.push(value);
            pos = e;
        } else {
            pos = pos + 1;
        }
    }
    assert(out@ + Seq::<i64>::empty() =~= out@);
    out
}

/// End of the run of ASCII digits starting at `i`.
fn span_digits(s: &[char], i: usize) -> (e: usize)
    requires
        i <= s.len(),
    ensures
        e == span_end(s@, i as int, digit_pred()),
        i <= e <= s.len(),
{
    let mut e = i;
    while e < s.len() && '0' <= s[e] && s[e] <= '9'
        invariant
            i <= e <= s.len(),
            forall|k: int| i <= k < e ==> (digit_pred())(#[trigger] s@[k]),
        decreases s.len() - e,
    {
        e = e + 1;
    }
    proof {
        lemma_span_end_at(s@, i as int, e as int, digit_pred());
    }
    e
}


/// The state of the line scan: the card so far, and which one-time
/// directives and the title have been seen.
pub struct ScanState {
    pub card: CardModel,
    pub title_set: bool,
    pub entity_seen: bool,
    pub source_seen: bool,
    pub format_seen: bool,
}

/// `s` without its first `n` characters.
pub open spec fn after(s: Seq<char>, p: Seq<char>) -> Seq<char> {
    s.skip(p.len() as int)
}

/// One `# ` directive (already stripped) applied to the scan state.
pub open spec fn meta_line(st: ScanState, meta: Seq<char>) -> Result<ScanState, Seq<char>> {
    let c = st.card;
    if meta == "lock"@ {
        Ok(ScanState { card: CardModel { lock: true, ..c }, ..st })
    } else if meta == "format 1"@ {
        if st.format_seen {
            Err("# format 只能出现一次"@)
        } else {
            Ok(ScanState { format_seen: true, ..st })
        }
    } else if is_prefix(meta, "scope "@) {
        Ok(ScanState { card: CardModel { scope: py_strip_seq(after(meta, "scope "@)), ..c }, ..st })
    } else if is_prefix(meta, "last-used "@) {
        Ok(ScanState { card: CardModel { last_used: py_strip_seq(after(meta, "last-used "@)), ..c }, ..st })
    } else if is_prefix(meta, "valid-from "@) {
        Ok(ScanState { card: CardModel { valid_from: py_strip_seq(after(meta, "valid-from "@)), ..c }, ..st })
    } else if is_prefix(meta, "valid-to "@) {
        Ok(ScanState { card: CardModel { valid_to: py_strip_seq(after(meta, "valid-to "@)), ..c }, ..st })
    } else if is_prefix(meta, "supersedes "@) {
        Ok(ScanState { card: CardModel { supersedes: digit_runs_from(after(meta, "supersedes "@), 0), ..c }, ..st })
    } else {
        Err("未知 .mem v1 指令：# "@ + meta)
    }
}

/// One line after the header applied to the scan state: body lines once the
/// title is set; before it, directives, then the title line.
#[verifier::opaque]
pub open spec fn scan_line(st: ScanState, raw: Seq<char>) -> Result<ScanState, Seq<char>> {
    let c = st.card;
    if st.title_set {
        Ok(ScanState { card: CardModel { body: c.body.push(raw), ..c }, ..st })
    } else if py_strip_seq(raw).len() == 0 {
        Err("标题前不允许空行"@)
    } else if is_prefix(raw, "= "@) {
        if st.entity_seen {
            Err("= 实体指令只能出现一次"@)
        } else {
            Ok(ScanState {
                card: CardModel { entities: canonical_entities_seq(split_on(after(raw, "= "@), ',')), ..c },
                entity_seen: true,
                ..st
            })
        }
    } else if is_prefix(raw, "~ "@) {
        if st.source_seen {
            Err("~ 来源指令只能出现一次"@)
        } else if py_strip_seq(after(raw, "~ "@)).len() == 0 {
            Err("~ 来源不能为空"@)
        } else {
            Ok(ScanState {
                card: CardModel { source: py_strip_seq(after(raw, "~ "@)), ..c },
                source_seen: true,
                ..st
            })
        }
    } else if is_prefix(raw, "# "@) {
        meta_line(st, py_strip_seq(after(raw, "# "@)))
    } else if raw[0] == '=' || raw[0] == '~' || raw[0] == '#' {
        Err("非法或未知 .mem v1 指令："@ + raw)
    } else {
        Ok(ScanState { card: CardModel { title: raw, ..c }, title_set: true, ..st })
    }
}

/// The lines applied in order, stopping at the first error.
pub open spec fn scan_lines(st: ScanState, lines: Seq<Seq<char>>) -> Result<ScanState, Seq<char>>
    decreases lines.len(),
{
    if lines.len() == 0 {
        Ok(st)
    } else {
        match scan_lines(st, lines.drop_last()) {
            Ok(s2) => scan_line(s2, lines.last()),
            Err(m) => Err(m),
        }
    }
}


/// The line scan state in executable form.
struct LineScan {
    card: Card,
    title_set: bool,
    entity_seen: bool,
    source_seen: bool,
    format_seen: bool,
}

impl LineScan {
    spec fn model(&self) -> ScanState {
        ScanState {
            card: self.card@,
            title_set: self.title_set,
            entity_seen: self.entity_seen,
            source_seen: self.source_seen,
            format_seen: self.format_seen,
        }
    }
}

/// `s` without the prefix `p`, when it starts with it.
fn strip_prefix_of(s: &[char], p: &str) -> (r: Option<Vec<char>>)
    ensures
        is_prefix(s@, p@) ==> (r matches Some(rest) && rest@ == after(s@, p@)),
        !is_prefix(s@, p@) ==> r is None,
{
    let pv = to_chars(p);
    if starts_with(s, &pv) {
        let rest = slice_chars(s, pv.len(), s.len());
        assert(rest@ =~= after(s@, p@));
        Some(rest)
    } else {
        None
    }
}

/// A core error whose message is `prefix` followed by `tail`.
fn error_with(prefix: &str, tail: &str) -> (e: Error)
    ensures
        e matches Error::Core(m) && m@ == prefix@ + tail@,
{
    let mut v: Vec<char> = Vec::new();
    extend_str(&mut v, prefix);
    extend_str(&mut v, tail);
    Error::Core(from_chars(&v))
}

/// The stripped text of `v`.
fn stripped(v: &[char]) -> (r: String)
    ensures
        r@ == py_strip_seq(v@),
{
    let t = from_chars(v);
    String::from_str(py_strip(t.as_str()))
}

/// Applies one `# ` directive.
fn apply_meta(st: &mut LineScan, meta: &str) -> (r: Result<(), Error>)
    ensures
        match meta_line(old(st).model(), meta@) {
            Ok(s2) => r is Ok && final(st).model() == s2,
            Err(m) => is_core_error(r, m),
        },
{
    if str_eq(meta, "lock") {
        st.card.lock = true;
        return Ok(());
    }
    if str_eq(meta, "format 1") {
        if st.format_seen {
            return Err(Error::core_error("# format 只能出现一次"));
        }
        st.format_seen = true;
        return Ok(());
    }
    let mv = to_chars(meta);
    if let Some(rest) = strip_prefix_of(&mv, "scope ") {
        st.card.scope = stripped(&rest);
        return Ok(());
    }
    if let Some(rest) = strip_prefix_of(&mv, "last-used ") {
        st.card.last_used = stripped(&rest);
        return Ok(());
    }
    if let Some(rest) = strip_prefix_of(&mv, "valid-from ") {
        st.card.valid_from = stripped(&rest);
        return Ok(());
    }
    if let Some(rest) = strip_prefix_of(&mv, "valid-to ") {
        st.card.valid_to = stripped(&rest);
        return Ok(());
    }
    if let Some(rest) = strip_prefix_of(&mv, "supersedes ") {
        st.card.supersedes = parse_supersedes(&rest);
        return Ok(());
    }
    Err(error_with("未知 .mem v1 指令：# ", meta))
}

/// Applies one line after the header.
fn apply_line(st: &mut LineScan, raw: &str) -> (r: Result<(), Error>)
    ensures
        match scan_line(old(st).model(), raw@) {
            Ok(s2) => r is Ok && final(st).model() == s2,
            Err(m) => is_core_error(r, m),
        },
{
    proof {
        reveal(scan_line);
    }
    if st.title_set {
        st.card.body.push(String::from_str(raw));
        assert(views(st.card.body@) =~= views(old(st).card.body@).push(raw@));
        return Ok(());
    }
    let rv = to_chars(raw);
    let whole = stripped(&rv);
    if whole.unicode_len() == 0 {
        return Err(Error::core_error("标题前不允许空行"));
    }
    if rv.len() == 0 {
        assert(rv@ =~= Seq::<char>::empty());
    }
    if let Some(rest) = strip_prefix_of(&rv, "= ") {
        if st.entity_seen {
            return Err(Error::core_error("= 实体指令只能出现一次"));
        }
        st.entity_seen = true;
        let parts = split_on_char(&rest, ',');
        st.card.entities = canonical_entities(&parts);
        return Ok(());
    }
    if let Some(rest) = strip_prefix_of(&rv, "~ ") {
        if st.source_seen {
            return Err(Error::core_error("~ 来源指令只能出现一次"));
        }
        let source = stripped(&rest);
        if source.unicode_len() == 0 {
            return Err(Error::core_error("~ 来源不能为空"));
        }
        st.source_seen = true;
        st.card.source = source;
        return Ok(());
    }
    if let Some(rest) = strip_prefix_of(&rv, "# ") {
        let meta = stripped(&rest);
        return apply_meta(st, meta.as_str());
    }
    if rv[0] == '=' || rv[0] == '~' || rv[0] == '#' {
        return Err(error_with("非法或未知 .mem v1 指令：", raw));
    }
    st.card.title = String::from_str(raw);
    st.title_set = true;
    Ok(())
}


/// The card states.
pub open spec fn valid_status(s: Seq<char>) -> bool {
    s == "candidate"@ || s == "published"@ || s == "archived"@ || s == "tombstone"@
}

/// The message for a malformed header line.
pub open spec fn header_message() -> Seq<char> {
    "卡头非法。首行必须形如：@<id> <fact|decision|skill> <candidate|published|archived|tombstone> I<0-3> T<0|0.5|…|3> <YYYY-MM-DD>"@
}

/// The lines of a card text: CRLF folded to LF, split on LF, without the
/// empty piece after a final line feed.
pub open spec fn card_lines(text: Seq<char>) -> Seq<Seq<char>> {
    let lines = split_on(crlf_to_lf(text), '\n');
    if lines.last().len() == 0 {
        lines.drop_last()
    } else {
        lines
    }
}

/// The card described by a header alone.
pub open spec fn header_card(h: HeaderParts) -> CardModel {
    CardModel {
        id: h.0,
        card_type: h.1,
        status: h.2,
        importance: h.3,
        trust: h.4,
        updated: h.5,
        entities: Seq::empty(),
        source: "user"@,
        lock: false,
        scope: Seq::empty(),
        last_used: Seq::empty(),
        valid_from: Seq::empty(),
        valid_to: Seq::empty(),
        supersedes: Seq::empty(),
        title: Seq::empty(),
        body: Seq::empty(),
        deduplicated: false,
        unchanged: false,
    }
}

/// The scan state right after the header.
pub open spec fn initial_scan(h: HeaderParts) -> ScanState {
    ScanState { card: header_card(h), title_set: false, entity_seen: false, source_seen: false, format_seen: false }
}

/// The error of a non-empty date field that does not parse.
pub open spec fn date_error(label: Seq<char>, value: Seq<char>) -> Option<Seq<char>> {
    if value.len() > 0 && parse_iso_date_seq(value) is None {
        Some(label + " 必须是 YYYY-MM-DD，收到 "@ + py_repr_seq(value))
    } else {
        None
    }
}

/// The first error of the title and date fields of a scanned card, if any:
/// a missing title, a malformed date, an inverted validity window.
pub open spec fn fields_error(c: CardModel) -> Option<Seq<char>> {
    if py_strip_seq(c.title).len() == 0 {
        Some("缺少自足标题行（卡头与指令行之后的第一行正文）"@)
    } else if date_error("updated"@, c.updated) is Some {
        date_error("updated"@, c.updated)
    } else if date_error("last-used"@, c.last_used) is Some {
        date_error("last-used"@, c.last_used)
    } else if date_error("valid-from"@, c.valid_from) is Some {
        date_error("valid-from"@, c.valid_from)
    } else if date_error("valid-to"@, c.valid_to) is Some {
        date_error("valid-to"@, c.valid_to)
    } else if c.valid_from.len() > 0 && c.valid_to.len() > 0 && seq_lt(c.valid_to, c.valid_from) {
        Some("valid-from 不得晚于 valid-to"@)
    } else {
        None
    }
}

/// The first error of the supersedes list of card `id`, if any.
pub open spec fn refs_error(refs: Seq<i64>, id: int) -> Option<Seq<char>> {
    if exists|k: int| 0 <= k < refs.len() && #[trigger] refs[k] <= 0 {
        Some("supersedes 只能引用正整数卡片 id"@)
    } else if exists|k: int| 0 <= k < refs.len() && #[trigger] refs[k] > MAX_PUBLIC_ID {
        Some("supersedes 引用超过安全上限 9007199254740991"@)
    } else if !refs.no_duplicates() {
        Some("supersedes 不得包含重复 id"@)
    } else if id != 0 && refs.contains(id as i64) {
        Some("卡片不能 supersedes 自己"@)
    } else {
        None
    }
}

/// The first error of a scanned card, if any.
pub open spec fn card_error(c: CardModel) -> Option<Seq<char>> {
    if fields_error(c) is Some {
        fields_error(c)
    } else {
        refs_error(c.supersedes, c.id)
    }
}

/// The first error of the raw text before it is split into lines, if any.
pub open spec fn raw_text_error(text: Seq<char>) -> Option<Seq<char>> {
    if text.len() > 0 && text[0] == '\u{feff}' {
        Some(".mem v1 禁止 UTF-8 BOM"@)
    } else if text.contains('\0') {
        Some(".mem v1 禁止 NUL 字符"@)
    } else if utf8_len(text) > 2097152 {
        Some("卡片超过 2097152 字节上限"@)
    } else if crlf_to_lf(text).contains('\r') {
        Some(".mem v1 只接受 LF 或完整 CRLF 换行"@)
    } else {
        None
    }
}

/// The scan state from the card's lines, or the header's error.
pub open spec fn start_scan(lines: Seq<Seq<char>>) -> Result<ScanState, Seq<char>> {
    if lines.len() == 0 || parse_header_seq(lines[0]) is None {
        Err(header_message())
    } else {
        let h = parse_header_seq(lines[0]).unwrap();
        if h.0 > MAX_PUBLIC_ID {
            Err("卡片编号超过安全上限 9007199254740991"@)
        } else if !valid_type(h.1) {
            Err("类型必须是 ['decision', 'fact', 'skill'] 之一，收到 "@ + py_repr_seq(h.1))
        } else if !valid_status(h.2) {
            Err("状态必须是 ['archived', 'candidate', 'published', 'tombstone'] 之一，收到 "@ + py_repr_seq(h.2))
        } else {
            Ok(initial_scan(h))
        }
    }
}

/// What parsing a card text gives: the card, or the message of the first
/// rule it breaks.
pub open spec fn parse_card_result(text: Seq<char>) -> Result<CardModel, Seq<char>> {
    let lines = card_lines(text);
    if raw_text_error(text) is Some {
        Err(raw_text_error(text).unwrap())
    } else {
        match start_scan(lines) {
            Err(m) => Err(m),
            Ok(st0) => match scan_lines(st0, lines.skip(1)) {
                Err(m) => Err(m),
                Ok(st) => match card_error(st.card) {
                    Some(m) => Err(m),
                    None => Ok(st.card),
                },
            },
        }
    }
}

/// An error in the scan of a prefix of the lines is the error of all of them.
proof fn lemma_scan_error_sticks(st: ScanState, lines: Seq<Seq<char>>, k: int)
    requires
        0 <= k <= lines.len(),
        scan_lines(st, lines.take(k)) is Err,
    ensures
        scan_lines(st, lines) == scan_lines(st, lines.take(k)),
    decreases lines.len() - k,
{
    if k < lines.len() {
        assert(lines.take(k + 1).drop_last() =~= lines.take(k));
        lemma_scan_error_sticks(st, lines, k + 1);
    } else {
        assert(lines.take(k) =~= lines);
    }
}

/// Checks a non-empty date field.
fn check_date(label: &str, value: &str) -> (r: Result<(), Error>)
    ensures
        match date_error(label@, value@) {
            Some(m) => is_core_error(r, m),
            None => r is Ok,
        },
{
    if value.unicode_len() > 0 && parse_iso_date(value).is_none() {
        let mut v: Vec<char> = Vec::new();
        extend_str(&mut v, label);
        extend_str(&mut v, " 必须是 YYYY-MM-DD，收到 ");
        let repr = py_repr_str(value);
        extend_str(&mut v, repr.as_str());
        return Err(Error::Core(from_chars(&v)));
    }
    Ok(())
}

/// The title and date checks that follow the line scan.
fn check_fields(c: &Card) -> (r: Result<(), Error>)
    ensures
        match fields_error(c@) {
            Some(m) => is_core_error(r, m),
            None => r is Ok,
        },
{
    let title = stripped(&to_chars(c.title.as_str()));
    if title.unicode_len() == 0 {
        return Err(Error::core_error("缺少自足标题行（卡头与指令行之后的第一行正文）"));
    }
    check_date("updated", c.updated.as_str())?;
    check_date("last-used", c.last_used.as_str())?;
    check_date("valid-from", c.valid_from.as_str())?;
    check_date("valid-to", c.valid_to.as_str())?;
    let from = to_chars(c.valid_from.as_str());
    let to = to_chars(c.valid_to.as_str());
    if from.len() > 0 && to.len() > 0 && chars_lt(&to, &from) {
        return Err(Error::core_error("valid-from 不得晚于 valid-to"));
    }
    Ok(())
}

/// The supersedes checks of card `id`.
fn check_refs(refs: &Vec<i64>, id: i64) -> (r: Result<(), Error>)
    ensures
        match refs_error(refs@, id as int) {
            Some(m) => is_core_error(r, m),
            None => r is Ok,
        },
{
    let mut k: usize = 0;
    while k < refs.len()
        invariant
            k <= refs.len(),
            forall|j: int| 0 <= j < k ==> refs@[j] > 0,
        decreases refs.len() - k,
    {
        if refs[k] <= 0 {
            return Err(Error::core_error("supersedes 只能引用正整数卡片 id"));
        }
        k = k + 1;
    }
    let mut k: usize = 0;
    while k < refs.len()
        invariant
            k <= refs.len(),
            forall|j: int| 0 <= j < refs.len() ==> refs@[j] > 0,
            forall|j: int| 0 <= j < k ==> refs@[j] <= MAX_PUBLIC_ID,
        decreases refs.len() - k,
    {
        if refs[k] > MAX_PUBLIC_ID {
            return Err(Error::core_error("supersedes 引用超过安全上限 9007199254740991"));
        }
        k = k + 1;
    }
    let mut k: usize = 0;
    while k < refs.len()
        invariant
            k <= refs.len(),
            forall|j: int| 0 <= j < refs.len() ==> refs@[j] > 0,
            forall|j: int| 0 <= j < refs.len() ==> refs@[j] <= MAX_PUBLIC_ID,
            forall|a: int, b: int| 0 <= a < b < k ==> refs@[a] != refs@[b],
        decreases refs.len() - k,
    {
        let mut j: usize = 0;
        while j < k
            invariant
                j <= k < refs.len(),
                forall|m: int| 0 <= m < refs.len() ==> refs@[m] > 0,
                forall|m: int| 0 <= m < refs.len() ==> refs@[m] <= MAX_PUBLIC_ID,
                forall|a: int| 0 <= a < j ==> refs@[a] != refs@[k as int],
            decreases k - j,
        {
            if refs[j] == refs[k] {
                assert(!refs@.no_duplicates());
                return Err(Error::core_error("supersedes 不得包含重复 id"));
            }
            j = j + 1;
        }
        k = k + 1;
    }
    assert(refs@.no_duplicates());
    if id != 0 {
        let mut k: usize = 0;
        while k < refs.len()
            invariant
                k <= refs.len(),
                forall|j: int| 0 <= j < refs.len() ==> refs@[j] > 0,
                forall|j: int| 0 <= j < refs.len() ==> refs@[j] <= MAX_PUBLIC_ID,
                refs@.no_duplicates(),
                forall|j: int| 0 <= j < k ==> refs@[j] != id,
            decreases refs.len() - k,
        {
            if refs[k] == id {
                assert(refs@.contains(id));
                return Err(Error::core_error("卡片不能 supersedes 自己"));
            }
            k = k + 1;
        }
    }
    Ok(())
}

/// The lines of a card text, once the raw text checks pass.
fn text_lines(text: &str) -> (r: Result<Vec<String>, Error>)
    ensures
        match raw_text_error(text@) {
            Some(m) => is_core_error(r, m),
            None => r matches Ok(lines) && views(lines@) == card_lines(text@),
        },
{
    let v = to_chars(text);
    if v.len() > 0 && v[0] == '\u{feff}' {
        return Err(Error::core_error(".mem v1 禁止 UTF-8 BOM"));
    }
    if contains_char(&v, '\0') {
        return Err(Error::core_error(".mem v1 禁止 NUL 字符"));
    }
    if str_byte_len(text) > MAX_CARD_BYTES {
        return Err(Error::core_error("卡片超过 2097152 字节上限"));
    }
    let folded = replace_crlf(&v);
    if contains_char(&folded, '\r') {
        return Err(Error::core_error(".mem v1 只接受 LF 或完整 CRLF 换行"));
    }
    let mut lines = split_on_char(&folded, '\n');
    proof {
        lemma_split_nonempty(folded@, '\n');
    }
    let ghost all = views(lines@);
    if lines[lines.len() - 1].as_str().unicode_len() == 0 {
        lines.pop();
        assert(views(lines@) =~= all.drop_last());
    }
    Ok(lines)
}

/// The scan state after the header line, or the header's error.
fn start_line_scan(lines: &Vec<String>) -> (r: Result<LineScan, Error>)
    ensures
        match start_scan(views(lines@)) {
            Err(m) => is_core_error(r, m),
            Ok(st) => r matches Ok(x) && x.model() == st,
        },
{
    if lines.len() == 0 {
        return Err(Error::core_error(
            "卡头非法。首行必须形如：@<id> <fact|decision|skill> <candidate|published|archived|tombstone> I<0-3> T<0|0.5|…|3> <YYYY-MM-DD>",
        ));
    }
    let first = to_chars(lines[0].as_str());
    assert(first@ == views(lines@)[0]);
    let (id, card_type, status, importance, trust, updated) = match parse_header(&first) {
        Some(h) => h,
        None => {
            return Err(Error::core_error(
                "卡头非法。首行必须形如：@<id> <fact|decision|skill> <candidate|published|archived|tombstone> I<0-3> T<0|0.5|…|3> <YYYY-MM-DD>",
            ));
        },
    };
    let ghost h = parse_header_seq(first@).unwrap();
    if id > MAX_PUBLIC_ID {
        return Err(Error::core_error("卡片编号超过安全上限 9007199254740991"));
    }
    if !(str_eq(card_type.as_str(), "fact") || str_eq(card_type.as_str(), "decision") || str_eq(
        card_type.as_str(),
        "skill",
    )) {
        let repr = py_repr_str(card_type.as_str());
        return Err(error_with("类型必须是 ['decision', 'fact', 'skill'] 之一，收到 ", repr.as_str()));
    }
    if !(str_eq(status.as_str(), "candidate") || str_eq(status.as_str(), "published") || str_eq(
        status.as_str(),
        "archived",
    ) || str_eq(status.as_str(), "tombstone")) {
        let repr = py_repr_str(status.as_str());
        return Err(
            error_with(
                "状态必须是 ['archived', 'candidate', 'published', 'tombstone'] 之一，收到 ",
                repr.as_str(),
            ),
        );
    }
    let card = Card {
        id,
        card_type,
        status,
        importance,
        trust,
        updated,
        entities: Vec::new(),
        source: String::from_str("user"),
        lock: false,
        scope: String::new(),
        last_used: String::new(),
        valid_from: String::new(),
        valid_to: String::new(),
        supersedes: Vec::new(),
        title: String::new(),
        body: Vec::new(),
        deduplicated: false,
        unchanged: false,
    };
    assert(views(card.entities@) =~= Seq::<Seq<char>>::empty());
    assert(views(card.body@) =~= Seq::<Seq<char>>::empty());
    assert(card@ == header_card(h));
    Ok(LineScan { card, title_set: false, entity_seen: false, source_seen: false, format_seen: false })
}

/// Parses `.mem` v1 card text.
pub fn parse_card(text: &str) -> (r: Result<Card, Error>)
    ensures
        match parse_card_result(text@) {
            Ok(c) => r matches Ok(card) && card@ == c,
            Err(m) => is_core_error(r, m),
        },
{
    let lines = match text_lines(text) {
        Ok(lines) => lines,
        Err(e) => {
            return Err(e);
        },
    };
    let ghost ls = views(lines@);
    let mut st = match start_line_scan(&lines) {
        Ok(st) => st,
        Err(e) => {
            return Err(e);
        },
    };
    let ghost st0 = st.model();
    let ghost tail = ls.skip(1);
    let mut i: usize = 1;
    assert(tail.take(0) =~= Seq::<Seq<char>>::empty());
    while i < lines.len()
        invariant
            1 <= i <= lines.len(),
            ls == views(lines@),
            ls == card_lines(text@),
            raw_text_error(text@) is None,
            start_scan(ls) == Ok::<ScanState, Seq<char>>(st0),
            tail == ls.skip(1),
            scan_lines(st0, tail.take(i - 1)) == Ok::<ScanState, Seq<char>>(st.model()),
        decreases lines.len() - i,
    {
        let ghost before = st.model();
        let res = apply_line(&mut st, lines[i].as_str());
        proof {
            assert(tail.take(i as int).drop_last() =~= tail.take(i - 1));
            assert(tail.take(i as int).last() == ls[i as int]);
            assert(scan_lines(st0, tail.take(i as int)) == scan_line(before, ls[i as int]));
        }
        match res {
            Err(e) => {
                proof {
                    lemma_scan_error_sticks(st0, tail, i as int);
                }
                return Err(e);
            },
            Ok(()) => {},
        }
        i = i + 1;
    }
    assert(tail.take(i - 1) =~= tail);
    match check_fields(&st.card) {
        Ok(()) => {},
        Err(e) => {
            return Err(e);
        },
    }
    match check_refs(&st.card.supersedes, st.card.id) {
        Ok(()) => {},
        Err(e) => {
            return Err(e);
        },
    }
    Ok(st.card)
}

} // verus!
