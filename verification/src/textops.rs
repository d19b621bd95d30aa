//! Display text operations: truncation, excerpts and human-facing titles.
//! All truncation keeps scalar values whole; limits count scalars and
//! UTF-8 bytes.

use vstd::prelude::*;

use crate::chars::{
    char_len_utf8, char_utf8_len, extend_chars, extend_str, from_chars, lemma_utf8_len_bounds,
    lemma_utf8_len_concat, lemma_utf8_len_prefix, lemma_utf8_len_push, str_byte_len, to_chars,
    utf8_byte_len, utf8_len,
};
use crate::normalize::{
    collapse_whitespace, collapse_ws, is_py_space, is_word_char, lemma_trim_end_at,
    lemma_trim_start_at, py_rstrip_seq, py_space, py_strip, py_strip_seq, space_pred, word_char,
};
use crate::EXCERPT_MAX_SCAN_CODEPOINTS;

verus! {

broadcast use vstd::string::group_string_axioms;

/// Control characters and line/paragraph separators are unsafe to display.
pub open spec fn unsafe_display(c: char) -> bool {
    let v = c as u32;
    v < 32 || (0x7f <= v && v <= 0x9f) || v == 0x2028 || v == 0x2029
}

/// Whether a character is unsafe to display.
pub fn unsafe_display_character(ch: char) -> (r: bool)
    ensures
        r == unsafe_display(ch),
{
    let v = ch as u32;
    v < 32 || (0x7f <= v && v <= 0x9f) || v == 0x2028 || v == 0x2029
}

/// Whether `s` fits the optional scalar and byte limits.
pub open spec fn fits_limits(s: Seq<char>, max_codepoints: Option<usize>, max_bytes: Option<usize>) -> bool {
    &&& (max_codepoints matches Some(l) ==> s.len() <= l)
    &&& (max_bytes matches Some(l) ==> utf8_len(s) <= l)
}

/// Whether the first `k` scalars of `text` fit the optional budgets.
pub open spec fn within_budget(text: Seq<char>, k: int, cb: Option<usize>, bb: Option<usize>) -> bool {
    &&& (cb matches Some(b) ==> k <= b)
    &&& (bb matches Some(b) ==> utf8_len(text.take(k)) <= b)
}

/// Length of the longest prefix, grown one scalar at a time from `i`, that
/// stays within the budgets.
pub open spec fn greedy_from(text: Seq<char>, i: int, cb: Option<usize>, bb: Option<usize>) -> int
    decreases text.len() - i,
{
    if 0 <= i < text.len() && within_budget(text, i + 1, cb, bb) {
        greedy_from(text, i + 1, cb, bb)
    } else {
        i
    }
}

/// `limit - used`, saturating at zero.
pub open spec fn sat_sub(limit: usize, used: nat) -> usize {
    if used <= limit {
        (limit - used) as usize
    } else {
        0
    }
}

/// Truncation of `text` to the limits, ending with `suffix` when cut.
pub open spec fn truncate_seq(
    text: Seq<char>,
    max_codepoints: Option<usize>,
    max_bytes: Option<usize>,
    suffix: Seq<char>,
) -> Seq<char> {
    if fits_limits(text, max_codepoints, max_bytes) {
        text
    } else if suffix.len() == 0 || !fits_limits(suffix, max_codepoints, max_bytes) {
        Seq::empty()
    } else {
        let cb = match max_codepoints {
            Some(l) => Some(sat_sub(l, suffix.len())),
            None => None,
        };
        let bb = match max_bytes {
            Some(l) => Some(sat_sub(l, utf8_len(suffix))),
            None => None,
        };
        py_rstrip_seq(text.take(greedy_from(text, 0, cb, bb))) + suffix
    }
}

/// Whether a text fits the optional limits.
fn fits_text_limits(text: &str, max_codepoints: Option<usize>, max_bytes: Option<usize>) -> (r: bool)
    ensures
        r == fits_limits(text@, max_codepoints, max_bytes),
{
    let codepoints_ok = match max_codepoints {
        Some(limit) => text.unicode_len() <= limit,
        None => true,
    };
    let bytes_ok = match max_bytes {
        Some(limit) => str_byte_len(text) <= limit,
        None => true,
    };
    codepoints_ok && bytes_ok
}

/// Trailing whitespace of `v[..k]` removed: the new end.
fn rstrip_end(v: &[char], k: usize) -> (e: usize)
    requires
        k <= v.len(),
    ensures
        e <= k,
        v@.take(e as int) == py_rstrip_seq(v@.take(k as int)),
{
    let mut e = k;
    while e > 0 && is_py_space(v[e - 1])
        invariant
            e <= k <= v.len(),
            forall|i: int| e <= i < k ==> py_space(#[trigger] v@[i]),
        decreases e,
    {
        e = e - 1;
    }
    proof {
        let t = v@.take(k as int);
        assert forall|i: int| e <= i < t.len() implies (space_pred())(#[trigger] t[i]) by {
            assert(t[i] == v@[i]);
        }
        if e > 0 {
            assert(t[e - 1] == v@[e - 1]);
        }
        lemma_trim_end_at(t, space_pred(), e as int);
        assert(t.take(e as int) =~= v@.take(e as int));
    }
    e
}

/// Truncates `text` to at most `max_codepoints` scalars and `max_bytes`
/// UTF-8 bytes; a cut text keeps whole scalars, drops trailing whitespace and
/// ends with `suffix`. An empty result means the suffix itself does not fit.
pub fn truncate_text(
    text: &str,
    max_codepoints: Option<usize>,
    max_bytes: Option<usize>,
    suffix: &str,
) -> (r: String)
    ensures
        r@ == truncate_seq(text@, max_codepoints, max_bytes, suffix@),
        fits_limits(r@, max_codepoints, max_bytes),
{
    if fits_text_limits(text, max_codepoints, max_bytes) {
        return String::from_str(text);
    }
    if suffix.unicode_len() == 0 || !fits_text_limits(suffix, max_codepoints, max_bytes) {
        return String::new();
    }
    let suffix_len = suffix.unicode_len();
    let suffix_bytes = str_byte_len(suffix);
    let codepoint_budget: Option<usize> = match max_codepoints {
        Some(limit) => Some(if suffix_len <= limit { limit - suffix_len } else { 0 }),
        None => None,
    };
    let byte_budget: Option<usize> = match max_bytes {
        Some(limit) => Some(if suffix_bytes <= limit { limit - suffix_bytes } else { 0 }),
        None => None,
    };
    let v = to_chars(text);
    let total_bytes = str_byte_len(text);
    let mut k: usize = 0;
    let mut used_bytes: usize = 0;
    let mut done = false;
    while k < v.len() && !done
        invariant
            k <= v.len(),
            done ==> k < v.len() && !within_budget(v@, k + 1, codepoint_budget, byte_budget),
            v@ == text@,
            utf8_len(v@) <= usize::MAX,
            used_bytes == utf8_len(v@.take(k as int)),
            within_budget(v@, k as int, codepoint_budget, byte_budget),
            greedy_from(v@, 0, codepoint_budget, byte_budget) == greedy_from(
                v@,
                k as int,
                codepoint_budget,
                byte_budget,
            ),
        decreases v.len() - k + (if done { 0int } else { 1int }),
    {
        let encoded = char_len_utf8(v[k]);
        proof {
            lemma_utf8_len_push(v@.take(k as int), v@[k as int]);
            assert(v@.take(k as int).push(v@[k as int]) =~= v@.take(k + 1));
            lemma_utf8_len_prefix(v@, k + 1);
        }
        let over_codepoints = match codepoint_budget {
            Some(budget) => k >= budget,
            None => false,
        };
        let over_bytes = match byte_budget {
            Some(budget) => encoded > budget || used_bytes > budget - encoded,
            None => false,
        };
        if over_codepoints || over_bytes {
            done = true;
        } else {
            used_bytes = used_bytes + encoded;
            k = k + 1;
        }
    }
    assert(greedy_from(v@, k as int, codepoint_budget, byte_budget) == k);
    let e = rstrip_end(&v, k);
    let mut out: Vec<char> = Vec::new();
    let mut i: usize = 0;
    while i < e
        invariant
            i <= e <= v.len(),
            out@ == v@.take(i as int),
        decreases e - i,
    {
        out.push(v[i]);
        assert(v@.take(i as int).push(v@[i as int]) =~= v@.take(i + 1));
        i = i + 1;
    }
    extend_str(&mut out, suffix);
    proof {
        let p = v@.take(e as int);
        assert(p =~= v@.take(k as int).take(e as int));
        lemma_utf8_len_prefix(v@.take(k as int), e as int);
        lemma_utf8_len_concat(p, suffix@);
        assert(out@ == p + suffix@);
        assert(p.len() <= k);
    }
    from_chars(&out)
}

/// Number of leading ASCII digits of `s`.
pub open spec fn digit_run(s: Seq<char>) -> nat
    decreases s.len(),
{
    if s.len() > 0 && '0' <= s[0] && s[0] <= '9' {
        1 + digit_run(s.drop_first())
    } else {
        0
    }
}

/// `re.sub(r"@(\d+)\b", "记忆 \1", s)` over ASCII digits.
pub open spec fn humanize_seq(s: Seq<char>) -> Seq<char>
    decreases s.len(),
{
    if s.len() == 0 {
        Seq::empty()
    } else {
        let d = digit_run(s.drop_first()) as int;
        proof {
            lemma_digit_run_bound(s.drop_first());
        }
        if s[0] == '@' && d > 0 && (1 + d == s.len() || !word_char(s[1 + d])) {
            "记忆 "@ + s.subrange(1, 1 + d) + humanize_seq(s.skip(1 + d))
        } else {
            seq![s[0]] + humanize_seq(s.drop_first())
        }
    }
}

pub proof fn lemma_digit_run_bound(s: Seq<char>)
    ensures
        digit_run(s) <= s.len(),
        forall|i: int| 0 <= i < digit_run(s) ==> '0' <= #[trigger] s[i] && s[i] <= '9',
        digit_run(s) < s.len() ==> !('0' <= s[digit_run(s) as int] && s[digit_run(s) as int] <= '9'),
    decreases s.len(),
{
    if s.len() > 0 && '0' <= s[0] && s[0] <= '9' {
        lemma_digit_run_bound(s.drop_first());
        assert forall|i: int| 0 <= i < digit_run(s) implies '0' <= #[trigger] s[i] && s[i] <= '9' by {
            if i > 0 {
                assert(s[i] == s.drop_first()[i - 1]);
            }
        }
    }
}

pub proof fn lemma_digit_run_at(s: Seq<char>, k: int)
    requires
        0 <= k <= s.len(),
        forall|i: int| 0 <= i < k ==> '0' <= #[trigger] s[i] && s[i] <= '9',
        k == s.len() || !('0' <= s[k] && s[k] <= '9'),
    ensures
        digit_run(s) == k,
    decreases k,
{
    if k > 0 {
        assert('0' <= s[0] && s[0] <= '9');
        lemma_digit_run_at(s.drop_first(), k - 1);
    }
}

/// Replaces each `@<digits>` reference followed by a non-word boundary with
/// `记忆 <digits>`.
pub fn humanize_memory_text(text: &str) -> (r: String)
    ensures
        r@ == humanize_seq(text@),
{
    let v = to_chars(text);
    let mut out: Vec<char> = Vec::new();
    let mut pos: usize = 0;
    assert(v@.skip(0) =~= v@);
    while pos < v.len()
        invariant
            pos <= v.len(),
            v@ == text@,
            humanize_seq(v@) == out@ + humanize_seq(v@.skip(pos as int)),
        decreases v.len() - pos,
    {
        let ghost rest = v@.skip(pos as int);
        let start = pos + 1;
        let mut end = start;
        if v[pos] == '@' {
            while end < v.len() && '0' <= v[end] && v[end] <= '9'
                invariant
                    start <= end <= v.len(),
                    forall|i: int| start <= i < end ==> '0' <= #[trigger] v@[i] && v@[i] <= '9',
                decreases v.len() - end,
            {
                end = end + 1;
            }
            proof {
                let t = rest.drop_first();
                assert forall|i: int| 0 <= i < end - start implies '0' <= #[trigger] t[i] && t[i] <= '9' by {
                    assert(t[i] == v@[start + i]);
                }
                if end < v.len() {
                    assert(t[end - start] == v@[end as int]);
                }
                lemma_digit_run_at(t, end - start);
            }
            if end > start {
                let boundary = end == v.len() || !is_word_char(v[end]);
                if boundary {
                    let ghost before = out@;
                    extend_str(&mut out, "记忆 ");
                    let mut j = start;
                    while j < end
                        invariant
                            start <= j <= end <= v.len(),
                            out@ == before + "记忆 "@ + v@.subrange(start as int, j as int),
                        decreases end - j,
                    {
                        out.push(v[j]);
                        assert(v@.subrange(start as int, j as int).push(v@[j as int]) =~= v@.subrange(start as int, j + 1));
                        assert(out@ =~= before + "记忆 "@ + v@.subrange(start as int, j + 1));
                        j = j + 1;
                    }
                    proof {
                        assert(rest.subrange(1, 1 + end - start) =~= v@.subrange(start as int, end as int));
                        assert(rest.skip(1 + end - start) =~= v@.skip(end as int));
                        if end < v.len() {
                            assert(rest[1 + end - start] == v@[end as int]);
                        }
                        assert(out@ + humanize_seq(v@.skip(end as int)) =~= before + humanize_seq(rest));
                    }
                    pos = end;
                    continue;
                }
                proof {
                    assert(rest[1 + end - start] == v@[end as int]);
                }
            }
        }
        let ghost before = out@;
        out.push(v[pos]);
        proof {
            assert(rest.drop_first() =~= v@.skip(pos + 1));
            assert(out@ + humanize_seq(v@.skip(pos + 1)) =~= before + humanize_seq(rest));
        }
        pos = pos + 1;
    }
    proof {
        assert(v@.skip(v.len() as int) =~= Seq::<char>::empty());
        assert(out@ + Seq::<char>::empty() =~= out@);
    }
    from_chars(&out)
}

/// Unsafe display characters replaced by spaces.
pub open spec fn display_safe_seq(s: Seq<char>) -> Seq<char> {
    s.map_values(|c: char| if unsafe_display(c) { ' ' } else { c })
}

/// The display form of a title before length limiting.
pub open spec fn display_title_seq(s: Seq<char>) -> Seq<char> {
    collapse_ws(humanize_seq(display_safe_seq(s)))
}

/// A display title of at most `maximum` scalars: `…` marks a cut.
pub open spec fn human_display_title_seq(s: Seq<char>, maximum: usize) -> Seq<char> {
    let title = display_title_seq(s);
    if title.len() <= maximum {
        title
    } else {
        py_rstrip_seq(title.take(maximum - 1)) + seq!['…']
    }
}

/// A single-line display title: unsafe characters become spaces, memory
/// references are humanized, whitespace is collapsed, and titles longer
/// than `maximum` scalars are cut and end with `…`.
pub fn human_display_title(text: &str, maximum: usize) -> (r: String)
    requires
        maximum >= 1 || display_title_seq(text@).len() == 0,
    ensures
        r@ == human_display_title_seq(text@, maximum),
{
    let v = to_chars(text);
    let mut safe: Vec<char> = Vec::new();
    let mut i: usize = 0;
    while i < v.len()
        invariant
            i <= v.len(),
            v@ == text@,
            safe@ == display_safe_seq(v@.take(i as int)),
        decreases v.len() - i,
    {
        let ch = v[i];
        safe.push(if unsafe_display_character(ch) { ' ' } else { ch });
        assert(safe@ =~= display_safe_seq(v@.take(i + 1)));
        i = i + 1;
    }
    assert(v@.take(v.len() as int) =~= v@);
    let safe_text = from_chars(&safe);
    let humanized = humanize_memory_text(safe_text.as_str());
    let hv = to_chars(humanized.as_str());
    let title = collapse_whitespace(&hv);
    if title.len() <= maximum {
        return from_chars(&title);
    }
    let e = rstrip_end(&title, maximum - 1);
    let mut out: Vec<char> = Vec::new();
    let mut j: usize = 0;
    while j < e
        invariant
            j <= e <= title.len(),
            out@ == title@.take(j as int),
        decreases e - j,
    {
        out.push(title[j]);
        assert(title@.take(j as int).push(title@[j as int]) =~= title@.take(j + 1));
        j = j + 1;
    }
    out.push('…');
    from_chars(&out)
}

/// Python `str.strip()` of a title.
pub fn strip_title(title: &str) -> (r: &str)
    ensures
        r@ == py_strip_seq(title@),
{
    py_strip(title)
}

/// The compacting scan behind excerpts, from scalar `i` with the collected
/// output `out`, a pending separator flag and the count of consecutive line
/// breaks `nl`: whitespace runs and unsafe characters become one separating
/// space between text, a blank line ends the first paragraph when
/// `first_paragraph` is set, the scan stops once the output exceeds a limit,
/// and at most `EXCERPT_MAX_SCAN_CODEPOINTS` scalars are read.
pub open spec fn excerpt_scan(
    c: Seq<char>,
    i: int,
    out: Seq<char>,
    pending: bool,
    nl: nat,
    max_codepoints: Option<usize>,
    max_bytes: Option<usize>,
    first_paragraph: bool,
) -> Seq<char>
    decreases c.len() - i,
{
    if i < 0 || i >= c.len() || i >= EXCERPT_MAX_SCAN_CODEPOINTS {
        out
    } else {
        let ch = c[i];
        let saw = out.len() > 0;
        if ch == '\r' {
            let consumed = if i + 1 < c.len() && c[i + 1] == '\n' { 2int } else { 1int };
            if first_paragraph && saw && nl + 1 >= 2 {
                out
            } else {
                excerpt_scan(c, i + consumed, out, saw, nl + 1, max_codepoints, max_bytes, first_paragraph)
            }
        } else if py_space(ch) {
            if ch == '\n' && first_paragraph && saw && nl + 1 >= 2 {
                out
            } else {
                let nl2: nat = if ch == '\n' { nl + 1 } else { nl };
                excerpt_scan(c, i + 1, out, saw, nl2, max_codepoints, max_bytes, first_paragraph)
            }
        } else if unsafe_display(ch) {
            excerpt_scan(c, i + 1, out, saw, nl, max_codepoints, max_bytes, first_paragraph)
        } else {
            let out2 = if pending && saw { out.push(' ').push(ch) } else { out.push(ch) };
            if (max_codepoints matches Some(l) && out2.len() > l) || (max_bytes matches Some(l)
                && utf8_len(out2) > l) {
                out2
            } else {
                excerpt_scan(c, i + 1, out2, false, 0, max_codepoints, max_bytes, first_paragraph)
            }
        }
    }
}

/// A compact excerpt of `text` within the limits; `…` marks a cut.
pub open spec fn memory_excerpt_seq(
    text: Seq<char>,
    max_codepoints: Option<usize>,
    max_bytes: Option<usize>,
    first_paragraph: bool,
) -> Seq<char> {
    if max_codepoints == Some(0usize) || max_bytes == Some(0usize) {
        Seq::empty()
    } else {
        let scanned = excerpt_scan(text, 0, Seq::empty(), false, 0, max_codepoints, max_bytes, first_paragraph);
        truncate_seq(humanize_seq(py_strip_seq(scanned)), max_codepoints, max_bytes, seq!['…'])
    }
}

/// The compacting scan over `chars`.
fn scan_excerpt(
    chars: &[char],
    max_codepoints: Option<usize>,
    max_bytes: Option<usize>,
    first_paragraph: bool,
) -> (r: Vec<char>)
    ensures
        r@ == excerpt_scan(chars@, 0, Seq::empty(), false, 0, max_codepoints, max_bytes, first_paragraph),
{
    let mut out: Vec<char> = Vec::new();
    let mut used_bytes: usize = 0;
    let mut pending_space = false;
    let mut newline_count: usize = 0;
    let mut index: usize = 0;
    while index < chars.len() && index < EXCERPT_MAX_SCAN_CODEPOINTS
        invariant
            index <= chars.len() + 1,
            out.len() <= 2 * index,
            index <= EXCERPT_MAX_SCAN_CODEPOINTS + 1,
            newline_count <= index,
            used_bytes == utf8_len(out@),
            excerpt_scan(chars@, 0, Seq::empty(), false, 0, max_codepoints, max_bytes, first_paragraph)
                == excerpt_scan(chars@, index as int, out@, pending_space, newline_count as nat, max_codepoints, max_bytes, first_paragraph),
        decreases chars.len() + 1 - index,
    {
        let ch = chars[index];
        let saw_text = out.len() > 0;
        let ghost index0 = index as int;
        let ghost out0 = out@;
        let ghost pend0 = pending_space;
        let ghost nl0 = newline_count as nat;
        if ch == '\r' {
            let consumed: usize = if index + 1 < chars.len() && chars[index + 1] == '\n' { 2 } else { 1 };
            newline_count = newline_count + 1;
            if first_paragraph && saw_text && newline_count >= 2 {
                assert(excerpt_scan(chars@, index0, out0, pend0, nl0, max_codepoints, max_bytes, first_paragraph) == out0);
                return out;
            }
            index = index + consumed;
            pending_space = saw_text;
            continue;
        }
        if is_py_space(ch) {
            if ch == '\n' {
                newline_count = newline_count + 1;
                if first_paragraph && saw_text && newline_count >= 2 {
                    assert(excerpt_scan(chars@, index0, out0, pend0, nl0, max_codepoints, max_bytes, first_paragraph) == out0);
                    return out;
                }
            }
            index = index + 1;
            pending_space = saw_text;
            continue;
        }
        if unsafe_display_character(ch) {
            index = index + 1;
            pending_space = saw_text;
            continue;
        }
        let ghost before = out@;
        proof {
            lemma_utf8_len_bounds(out@);
        }
        if pending_space && saw_text {
            out.push(' ');
            proof { lemma_utf8_len_push(before, ' '); }
            used_bytes = used_bytes + 1;
        }
        let ghost mid = out@;
        out.push(ch);
        proof { lemma_utf8_len_push(mid, ch); }
        used_bytes = used_bytes + char_len_utf8(ch);
        index = index + 1;
        newline_count = 0;
        pending_space = false;
        let over_codepoints = match max_codepoints {
            Some(limit) => out.len() > limit,
            None => false,
        };
        let over_bytes = match max_bytes {
            Some(limit) => used_bytes > limit,
            None => false,
        };
        if over_codepoints || over_bytes {
            assert(excerpt_scan(chars@, index0, out0, pend0, nl0, max_codepoints, max_bytes, first_paragraph) == out@);
            return out;
        }
    }
    out
}

/// A compact single-line excerpt of `text`: whitespace runs and unsafe
/// characters collapse to one space, memory references are humanized, and
/// the result stays within both limits, ending with `…` when cut. With
/// `first_paragraph`, text after the first blank line is ignored.
pub fn memory_excerpt(
    text: &str,
    max_codepoints: Option<usize>,
    max_bytes: Option<usize>,
    first_paragraph: bool,
) -> (r: String)
    ensures
        r@ == memory_excerpt_seq(text@, max_codepoints, max_bytes, first_paragraph),
        fits_limits(r@, max_codepoints, max_bytes),
{
    let zero_codepoints = match max_codepoints {
        Some(limit) => limit == 0,
        None => false,
    };
    let zero_bytes = match max_bytes {
        Some(limit) => limit == 0,
        None => false,
    };
    if zero_codepoints || zero_bytes {
        return String::new();
    }
    let chars = to_chars(text);
    let scanned = scan_excerpt(&chars, max_codepoints, max_bytes, first_paragraph);
    let scanned_text = from_chars(&scanned);
    let compact = py_strip(scanned_text.as_str());
    let humanized = humanize_memory_text(compact);
    proof {
        reveal_strlit("…");
        assert("…"@ =~= seq!['…']);
    }
    truncate_text(humanized.as_str(), max_codepoints, max_bytes, "…")
}

} // verus!
