//! Host configuration text: managed blocks delimited by marker lines.

use vstd::prelude::*;

pub mod codex;
pub mod codex_config;
pub mod edits;
pub mod hooks_file;

use crate::chars::{extend_chars, extend_str, find_from, from_chars, occurs_at, slice_chars, to_chars};
use crate::Error;

verus! {

broadcast use vstd::string::group_string_axioms;

/// Unicode `White_Space`, the set `str::trim_end` removes.
pub open spec fn rust_space(c: char) -> bool {
    c == '\t' || c == '\n' || c == '\u{b}' || c == '\u{c}' || c == '\r' || c == ' ' || c == '\u{85}' || c
        == '\u{a0}' || c == '\u{1680}' || ('\u{2000}' <= c && c <= '\u{200a}') || c == '\u{2028}' || c == '\u{2029}'
        || c == '\u{202f}' || c == '\u{205f}' || c == '\u{3000}'
}

/// `s` without trailing white space.
pub open spec fn trim_end_ws(s: Seq<char>) -> Seq<char>
    decreases s.len(),
{
    if s.len() > 0 && rust_space(s.last()) {
        trim_end_ws(s.drop_last())
    } else {
        s
    }
}

/// `s` without leading white space.
pub open spec fn trim_start_ws(s: Seq<char>) -> Seq<char>
    decreases s.len(),
{
    if s.len() > 0 && rust_space(s[0]) {
        trim_start_ws(s.drop_first())
    } else {
        s
    }
}

/// `s` without leading and trailing white space (`str::trim`).
pub open spec fn trim_ws(s: Seq<char>) -> Seq<char> {
    trim_end_ws(trim_start_ws(s))
}

/// `k` is the first position at or after `from` where `p` occurs.
pub open spec fn is_first(s: Seq<char>, p: Seq<char>, from: int, k: int) -> bool {
    from <= k && occurs_at(s, p, k) && forall|j: int| from <= j < k ==> !occurs_at(s, p, j)
}

/// The first position at or after `from` where `p` occurs.
pub open spec fn first_at(s: Seq<char>, p: Seq<char>, from: int) -> int {
    choose|k: int| is_first(s, p, from, k)
}

/// `p` occurs at or after `from`.
pub open spec fn occurs_from(s: Seq<char>, p: Seq<char>, from: int) -> bool {
    exists|k: int| from <= k && occurs_at(s, p, k)
}

/// `str::matches(p).count()` is zero.
pub open spec fn matched_never(s: Seq<char>, p: Seq<char>) -> bool {
    !occurs_from(s, p, 0)
}

/// `str::matches(p).count()` is one: the empty pattern matches once per
/// boundary; another pattern once when nothing occurs past its first
/// occurrence.
pub open spec fn matched_once(s: Seq<char>, p: Seq<char>) -> bool {
    if p.len() == 0 {
        s.len() == 0
    } else {
        occurs_from(s, p, 0) && !occurs_from(s, p, first_at(s, p, 0) + p.len())
    }
}

/// The error for unbalanced or repeated markers.
pub open spec fn marker_error_text(begin: Seq<char>) -> Seq<char> {
    "\u{2}配置中的 Engramark 标记不完整或重复："@ + begin
}

/// The text with the one marked block cut out, joined by a newline.
pub open spec fn cut_block(t: Seq<char>, begin: Seq<char>, end: Seq<char>) -> Seq<char> {
    let b = first_at(t, begin, 0);
    let end_at = first_at(t, end, b) + end.len();
    let start = if b > 0 && t[b - 1] == '\n' {
        b - 1
    } else {
        b
    };
    let finish = if end_at < t.len() && t[end_at] == '\n' {
        end_at + 1
    } else {
        end_at
    };
    t.take(start) + seq!['\n'] + t.skip(finish)
}

/// The text kept outside the managed block, trailing white space trimmed.
pub open spec fn kept_text(t: Seq<char>, begin: Seq<char>, end: Seq<char>) -> Seq<char> {
    if matched_once(t, begin) {
        trim_end_ws(cut_block(t, begin, end))
    } else {
        trim_end_ws(t)
    }
}

/// The managed-block replacement of `text`: the old block removed, the new
/// one (if any) appended after a blank line, a final newline.
pub open spec fn replaced_block(t: Seq<char>, begin: Seq<char>, end: Seq<char>, body: Option<Seq<char>>) -> Seq<char> {
    let kept = kept_text(t, begin, end);
    let full = match body {
        Some(b) => {
            let block = begin + seq!['\n'] + trim_end_ws(b) + seq!['\n'] + end;
            if kept.len() == 0 {
                block
            } else {
                kept + seq!['\n', '\n'] + block
            }
        },
        None => kept,
    };
    trim_end_ws(full) + seq!['\n']
}

/// Whether the markers are balanced: both absent, or each once.
pub open spec fn markers_balanced(t: Seq<char>, begin: Seq<char>, end: Seq<char>) -> bool {
    (matched_never(t, begin) && matched_never(t, end)) || (matched_once(t, begin) && matched_once(t, end))
}

/// The plain value of an optional text.
pub open spec fn opt_text(o: Option<&str>) -> Option<Seq<char>> {
    match o {
        Some(b) => Some(b@),
        None => None,
    }
}

pub(crate) fn is_rust_space(c: char) -> (r: bool)
    ensures
        r == rust_space(c),
{
    c == '\t' || c == '\n' || c == '\u{b}' || c == '\u{c}' || c == '\r' || c == ' ' || c == '\u{85}' || c
        == '\u{a0}' || c == '\u{1680}' || ('\u{2000}' <= c && c <= '\u{200a}') || c == '\u{2028}' || c == '\u{2029}'
        || c == '\u{202f}' || c == '\u{205f}' || c == '\u{3000}'
}

/// Trailing white space removed from a prefix leaves the trim of it.
proof fn lemma_trim_end_ws_at(s: Seq<char>, k: int)
    requires
        0 <= k <= s.len(),
        forall|i: int| k <= i < s.len() ==> rust_space(#[trigger] s[i]),
        k == 0 || !rust_space(s[k - 1]),
    ensures
        trim_end_ws(s) == s.take(k),
    decreases s.len(),
{
    if s.len() > k {
        assert(s.drop_last().take(k) =~= s.take(k));
        lemma_trim_end_ws_at(s.drop_last(), k);
    } else {
        assert(s.take(k) =~= s);
        if s.len() > 0 {
            assert(s.last() == s[k - 1]);
        }
    }
}

/// `v` without trailing white space.
pub(crate) fn trim_end_chars(v: &[char]) -> (r: Vec<char>)
    ensures
        r@ == trim_end_ws(v@),
{
    let mut k: usize = v.len();
    while k > 0 && is_rust_space(v[k - 1])
        invariant
            k <= v.len(),
            forall|i: int| k <= i < v.len() ==> rust_space(#[trigger] v@[i]),
        decreases k,
    {
        k = k - 1;
    }
    proof {
        lemma_trim_end_ws_at(v@, k as int);
    }
    assert(v@.take(k as int) =~= v@.subrange(0, k as int));
    slice_chars(v, 0, k)
}

/// Whether `p` matches zero times in `s`, and whether exactly once.
pub(crate) fn match_count_class(s: &[char], p: &[char]) -> (r: (bool, bool))
    ensures
        r.0 == matched_never(s@, p@),
        r.1 == matched_once(s@, p@),
{
    match find_from(s, p, 0) {
        None => {
            proof {
                if p@.len() == 0 {
                    assert(s@.subrange(0, 0) =~= p@);
                    assert(occurs_at(s@, p@, 0));
                }
            }
            (true, false)
        },
        Some(k) => {
            proof {
                assert(is_first(s@, p@, 0, k as int));
                let c = first_at(s@, p@, 0);
                assert(is_first(s@, p@, 0, c));
                if c < k {
                    assert(!occurs_at(s@, p@, c));
                } else if c > k {
                    assert(!occurs_at(s@, p@, k as int));
                }
            }
            if p.len() == 0 {
                let once = s.len() == 0;
                return (false, once);
            }
            if k > s.len() - p.len() {
                return (false, true);
            }
            match find_from(s, p, k + p.len()) {
                None => (false, true),
                Some(_) => (false, false),
            }
        },
    }
}

/// Replaces the managed block between `begin` and `end` markers: the old
/// block and the newline on each side of it are removed, trailing white
/// space trimmed, and the new block (if any) appended after a blank line;
/// the result ends with one newline. Unbalanced or repeated markers are an
/// error.
pub fn replace_block(text: &str, begin: &str, end: &str, body: Option<&str>) -> (r: Result<String, Error>)
    requires
        matched_once(text@, begin@) && matched_once(text@, end@) ==> occurs_from(
            text@,
            end@,
            first_at(text@, begin@, 0),
        ),
    ensures
        markers_balanced(text@, begin@, end@) <==> r is Ok,
        r matches Ok(s) ==> s@ == replaced_block(text@, begin@, end@, opt_text(body)),
        r matches Err(e) ==> e matches Error::Core(m) && m@ == marker_error_text(begin@),
{
    let t = to_chars(text);
    let b = to_chars(begin);
    let e = to_chars(end);
    let (b_never, b_once) = match_count_class(&t, &b);
    let (e_never, e_once) = match_count_class(&t, &e);
    if !((b_never && e_never) || (b_once && e_once)) {
        let mut msg: Vec<char> = Vec::new();
        extend_str(&mut msg, "\u{2}配置中的 Engramark 标记不完整或重复：");
        extend_str(&mut msg, begin);
        return Err(Error::Core(from_chars(&msg)));
    }
    let tl = t.len();
    let kept = if b_once {
        let begin_at = match find_from(&t, &b, 0) {
            Some(k) => k,
            None => {
                proof {
                    if b@.len() == 0 {
                        assert(t@.subrange(0, 0) =~= b@);
                        assert(occurs_at(t@, b@, 0));
                    } else {
                        let w = choose|k: int| 0 <= k && occurs_at(t@, b@, k);
                        assert(occurs_at(t@, b@, w));
                    }
                    assert(false);
                }
                0
            },
        };
        proof {
            let c = first_at(t@, b@, 0);
            assert(is_first(t@, b@, 0, begin_at as int));
            assert(is_first(t@, b@, 0, c));
            if c < begin_at {
                assert(!occurs_at(t@, b@, c));
            } else if c > begin_at {
                assert(!occurs_at(t@, b@, begin_at as int));
            }
            assert(c == begin_at);
        }
        let end_start = match find_from(&t, &e, begin_at) {
            Some(k) => k,
            None => {
                proof {
                    let w = choose|k: int| begin_at <= k && occurs_at(t@, e@, k);
                    assert(occurs_at(t@, e@, w));
                    assert(false);
                }
                begin_at
            },
        };
        proof {
            let c = first_at(t@, e@, begin_at as int);
            assert(is_first(t@, e@, begin_at as int, end_start as int));
            assert(is_first(t@, e@, begin_at as int, c));
            if c < end_start {
                assert(!occurs_at(t@, e@, c));
            } else if c > end_start {
                assert(!occurs_at(t@, e@, end_start as int));
            }
            assert(c == end_start);
            assert(occurs_at(t@, e@, end_start as int));
            assert(end_start + e@.len() <= tl);
        }
        let end_at = end_start + e.len();
        let mut start = begin_at;
        if start > 0 && t[start - 1] == '\n' {
            start = start - 1;
        }
        let mut finish = end_at;
        if finish < t.len() && t[finish] == '\n' {
            finish = finish + 1;
        }
        let mut joined = slice_chars(&t, 0, start);
        joined.push('\n');
        let tail = slice_chars(&t, finish, t.len());
        extend_chars(&mut joined, &tail);
        assert(joined@ =~= cut_block(t@, b@, e@));
        trim_end_chars(&joined)
    } else {
        trim_end_chars(&t)
    };
    let full = match body {
        Some(bd) => {
            let mut block = b.clone();
            block.push('\n');
            let bt = trim_end_chars(&to_chars(bd));
            extend_chars(&mut block, &bt);
            block.push('\n');
            extend_chars(&mut block, &e);
            assert(block@ =~= b@ + seq!['\n'] + trim_end_ws(bd@) + seq!['\n'] + e@);
            if kept.len() == 0 {
                block
            } else {
                let mut out = kept.clone();
                out.push('\n');
                out.push('\n');
                extend_chars(&mut out, &block);
                assert(out@ =~= kept@ + seq!['\n', '\n'] + block@);
                out
            }
        },
        None => kept,
    };
    let mut result = trim_end_chars(&full);
    result.push('\n');
    assert(result@ =~= replaced_block(text@, begin@, end@, opt_text(body)));
    Ok(from_chars(&result))
}


/// Leading white space removed up to `k` leaves the trim of it.
proof fn lemma_trim_start_ws_at(s: Seq<char>, k: int)
    requires
        0 <= k <= s.len(),
        forall|i: int| 0 <= i < k ==> rust_space(#[trigger] s[i]),
        k == s.len() || !rust_space(s[k]),
    ensures
        trim_start_ws(s) == s.skip(k),
    decreases k,
{
    if k > 0 {
        assert(s.drop_first().skip(k - 1) =~= s.skip(k));
        assert forall|i: int| 0 <= i < k - 1 implies rust_space(#[trigger] s.drop_first()[i]) by {
            assert(s.drop_first()[i] == s[i + 1]);
        }
        if k < s.len() {
            assert(s.drop_first()[k - 1] == s[k]);
        }
        lemma_trim_start_ws_at(s.drop_first(), k - 1);
    } else {
        assert(s.skip(0) =~= s);
    }
}

/// `v` without leading and trailing white space.
pub(crate) fn trim_chars(v: &[char]) -> (r: Vec<char>)
    ensures
        r@ == trim_ws(v@),
{
    let mut a: usize = 0;
    while a < v.len() && is_rust_space(v[a])
        invariant
            a <= v.len(),
            forall|i: int| 0 <= i < a ==> rust_space(#[trigger] v@[i]),
        decreases v.len() - a,
    {
        a = a + 1;
    }
    proof {
        lemma_trim_start_ws_at(v@, a as int);
    }
    let rest = slice_chars(v, a, v.len());
    assert(rest@ =~= v@.skip(a as int));
    trim_end_chars(&rest)
}

/// `p` holds no newline.
pub open spec fn one_line(p: Seq<char>) -> bool {
    forall|i: int| 0 <= i < p.len() ==> p[i] != '\n'
}

/// An occurrence of a one-line pattern in `x + "\n" + y` lies in `x` or in
/// `y`.
proof fn lemma_occurs_split(x: Seq<char>, y: Seq<char>, p: Seq<char>, k: int)
    requires
        one_line(p),
        p.len() > 0,
        occurs_at(x + seq!['\n'] + y, p, k),
    ensures
        (k + p.len() <= x.len() && occurs_at(x, p, k)) || (k >= x.len() + 1 && occurs_at(y, p, k - x.len() - 1)),
{
    let s = x + seq!['\n'] + y;
    if k + p.len() <= x.len() {
        assert(s.subrange(k, k + p.len()) =~= x.subrange(k, k + p.len()));
    } else if k >= x.len() + 1 {
        assert(s.subrange(k, k + p.len()) =~= y.subrange(k - x.len() - 1, k - x.len() - 1 + p.len()));
    } else {
        assert(s[x.len() as int] == '\n');
        assert(s.subrange(k, k + p.len())[x.len() - k] == '\n');
        assert(p[x.len() - k] == '\n');
    }
}

proof fn lemma_occurs_in_right(x: Seq<char>, y: Seq<char>, p: Seq<char>, k: int)
    requires
        occurs_at(y, p, k),
    ensures
        occurs_at(x + seq!['\n'] + y, p, k + x.len() + 1),
{
    let s = x + seq!['\n'] + y;
    let o = k + x.len() + 1;
    assert(s.subrange(o, o + p.len()) =~= y.subrange(k, k + p.len()));
}

/// The occurrences of a one-line pattern in `x + "\n" + y` when `x` holds
/// none: those of `y`, shifted.
proof fn lemma_occurs_shift(x: Seq<char>, y: Seq<char>, p: Seq<char>)
    requires
        one_line(p),
        p.len() > 0,
        !crate::chars::contains_seq(x, p),
    ensures
        forall|k: int| #[trigger] occurs_at(x + seq!['\n'] + y, p, k) <==> (k >= x.len() + 1 && occurs_at(y, p, k - x.len() - 1)),
{
    assert forall|k: int| #[trigger] occurs_at(x + seq!['\n'] + y, p, k) <==> (k >= x.len() + 1 && occurs_at(y, p, k - x.len() - 1)) by {
        if occurs_at(x + seq!['\n'] + y, p, k) {
            lemma_occurs_split(x, y, p, k);
        }
        if k >= x.len() + 1 && occurs_at(y, p, k - x.len() - 1) {
            lemma_occurs_in_right(x, y, p, k - x.len() - 1);
        }
    }
}

/// A pattern equal in length to the line it occurs in occurs only at its
/// start.
proof fn lemma_occurs_only_at_start(x: Seq<char>, y: Seq<char>, p: Seq<char>)
    requires
        one_line(p),
        p.len() > 0,
        x == p,
        forall|k: int| !occurs_at(y, p, k),
    ensures
        forall|k: int| #[trigger] occurs_at(x + seq!['\n'] + y, p, k) <==> k == 0,
{
    assert forall|k: int| #[trigger] occurs_at(x + seq!['\n'] + y, p, k) <==> k == 0 by {
        if occurs_at(x + seq!['\n'] + y, p, k) {
            lemma_occurs_split(x, y, p, k);
        }
        if k == 0 {
            assert((x + seq!['\n'] + y).subrange(0, p.len() as int) =~= p);
        }
    }
}

proof fn lemma_trim_end_ws_shape(s: Seq<char>)
    ensures
        trim_end_ws(s).len() <= s.len(),
        trim_end_ws(s) == s.take(trim_end_ws(s).len() as int),
        trim_end_ws(s).len() > 0 ==> !rust_space(trim_end_ws(s).last()),
        forall|i: int| trim_end_ws(s).len() <= i < s.len() ==> rust_space(#[trigger] s[i]),
    decreases s.len(),
{
    if s.len() > 0 && rust_space(s.last()) {
        lemma_trim_end_ws_shape(s.drop_last());
        let t = trim_end_ws(s.drop_last());
        assert(s.drop_last().take(t.len() as int) =~= s.take(t.len() as int));
        assert forall|i: int| t.len() <= i < s.len() implies rust_space(#[trigger] s[i]) by {
            if i < s.len() - 1 {
                assert(s.drop_last()[i] == s[i]);
            }
        }
    } else {
        assert(s.take(s.len() as int) =~= s);
    }
}

/// Trimming a trimmed text, or a trimmed text followed by white space,
/// gives it back.
proof fn lemma_trim_end_ws_of_trimmed(k: Seq<char>, w: Seq<char>)
    requires
        k.len() == 0 || !rust_space(k.last()),
        forall|i: int| 0 <= i < w.len() ==> rust_space(#[trigger] w[i]),
    ensures
        trim_end_ws(k + w) == k,
{
    let s = k + w;
    assert forall|i: int| k.len() <= i < s.len() implies rust_space(#[trigger] s[i]) by {
        assert(s[i] == w[i - k.len()]);
    }
    if k.len() > 0 {
        assert(s[k.len() - 1] == k.last());
    }
    lemma_trim_end_ws_at(s, k.len() as int);
    assert(s.take(k.len() as int) =~= k);
}

/// The first occurrence when it is the only one.
proof fn lemma_only_occurrence(s: Seq<char>, p: Seq<char>, at: int, from: int)
    requires
        forall|k: int| #[trigger] occurs_at(s, p, k) <==> k == at,
        from <= at,
    ensures
        first_at(s, p, from) == at,
        occurs_from(s, p, from),
{
    assert(occurs_at(s, p, at));
    assert(is_first(s, p, from, at));
    let c = first_at(s, p, from);
    assert(is_first(s, p, from, c));
}

/// Idempotence of the managed block: when the markers are one-line texts
/// that do not contain each other, the end marker does not end in white
/// space, and neither marker occurs in the new body or in the text kept
/// outside the block, replacing the block again with the same body leaves
/// the text unchanged, and the text kept outside the block is the same.
pub proof fn law_replace_block_idempotent(t: Seq<char>, begin: Seq<char>, end: Seq<char>, body: Seq<char>)
    requires
        begin.len() > 0,
        end.len() > 0,
        one_line(begin),
        one_line(end),
        !rust_space(end.last()),
        !crate::chars::contains_seq(begin, end),
        !crate::chars::contains_seq(end, begin),
        !crate::chars::contains_seq(trim_end_ws(body), begin),
        !crate::chars::contains_seq(trim_end_ws(body), end),
        !crate::chars::contains_seq(kept_text(t, begin, end), begin),
        !crate::chars::contains_seq(kept_text(t, begin, end), end),
    ensures
        ({
            let r1 = replaced_block(t, begin, end, Some(body));
            &&& markers_balanced(r1, begin, end)
            &&& occurs_from(r1, end, first_at(r1, begin, 0))
            &&& replaced_block(r1, begin, end, Some(body)) == r1
            &&& kept_text(r1, begin, end) == kept_text(t, begin, end)
        }),
{
    let kept = kept_text(t, begin, end);
    let tb = trim_end_ws(body);
    let block = begin + seq!['\n'] + tb + seq!['\n'] + end;
    let full = if kept.len() == 0 {
        block
    } else {
        kept + seq!['\n', '\n'] + block
    };
    let r1 = replaced_block(t, begin, end, Some(body));
    // the block's tail and the whole text
    assert(full.last() == end.last()) by {
        assert(block.last() == end.last());
    }
    lemma_trim_end_ws_of_trimmed(full, Seq::empty());
    assert(full + Seq::<char>::empty() =~= full);
    assert(r1 == full + seq!['\n']);
    let empty = Seq::<char>::empty();
    let s4 = end + seq!['\n'] + empty;
    let s3 = tb + seq!['\n'] + s4;
    let s2 = begin + seq!['\n'] + s3;
    assert(block + seq!['\n'] =~= s2);
    // occurrences of the markers in each suffix
    assert forall|k: int| !occurs_at(empty, begin, k) && !occurs_at(empty, end, k) by {}
    lemma_occurs_shift(end, empty, begin);
    assert forall|k: int| !occurs_at(s4, begin, k) by {}
    lemma_occurs_only_at_start(end, empty, end);
    lemma_occurs_shift(tb, s4, begin);
    lemma_occurs_shift(tb, s4, end);
    assert forall|k: int| !occurs_at(s3, begin, k) by {}
    lemma_occurs_only_at_start(begin, s3, begin);
    lemma_occurs_shift(begin, s3, end);
    let pos_e2: int = begin.len() as int + 1 + tb.len() as int + 1;
    assert forall|k: int| #[trigger] occurs_at(s2, end, k) <==> k == pos_e2 by {
        if occurs_at(s2, end, k) {
            assert(occurs_at(s3, end, k - begin.len() - 1));
            assert(occurs_at(s4, end, k - begin.len() - 1 - tb.len() - 1));
        }
        if k == pos_e2 {
            assert(occurs_at(s4, end, 0));
            assert(occurs_at(s3, end, tb.len() as int + 1));
        }
    }
    let (pos_b, pos_e) = if kept.len() == 0 {
        (0int, pos_e2)
    } else {
        let s1 = empty + seq!['\n'] + s2;
        lemma_occurs_shift(empty, s2, begin);
        lemma_occurs_shift(empty, s2, end);
        lemma_occurs_shift(kept, s1, begin);
        lemma_occurs_shift(kept, s1, end);
        assert(r1 =~= kept + seq!['\n'] + s1);
        (kept.len() as int + 2, kept.len() as int + 2 + pos_e2)
    };
    assert(r1 =~= if kept.len() == 0 {
        s2
    } else {
        kept + seq!['\n'] + (empty + seq!['\n'] + s2)
    });
    assert forall|k: int| #[trigger] occurs_at(r1, begin, k) <==> k == pos_b by {
        if kept.len() > 0 {
            let s1 = empty + seq!['\n'] + s2;
            if occurs_at(r1, begin, k) {
                assert(occurs_at(s1, begin, k - kept.len() - 1));
                assert(occurs_at(s2, begin, k - kept.len() - 2));
            }
            if k == pos_b {
                assert(occurs_at(s2, begin, 0));
                assert(occurs_at(s1, begin, 1));
            }
        }
    }
    assert forall|k: int| #[trigger] occurs_at(r1, end, k) <==> k == pos_e by {
        if kept.len() > 0 {
            let s1 = empty + seq!['\n'] + s2;
            if occurs_at(r1, end, k) {
                assert(occurs_at(s1, end, k - kept.len() - 1));
                assert(occurs_at(s2, end, k - kept.len() - 2));
            }
            if k == pos_e {
                assert(occurs_at(s2, end, pos_e2));
                assert(occurs_at(s1, end, pos_e2 + 1));
            }
        }
    }
    // both markers occur once
    lemma_only_occurrence(r1, begin, pos_b, 0);
    lemma_only_occurrence(r1, end, pos_e, 0);
    lemma_only_occurrence(r1, end, pos_e, pos_b);
    assert(!occurs_from(r1, begin, pos_b + begin.len()));
    assert(!occurs_from(r1, end, pos_e + end.len()));
    assert(matched_once(r1, begin));
    assert(matched_once(r1, end));
    // the cut
    assert(r1.len() == pos_e + end.len() + 1);
    assert(r1[pos_e + end.len()] == '\n');
    let cut = cut_block(r1, begin, end);
    if kept.len() == 0 {
        assert(cut =~= seq!['\n']);
        lemma_trim_end_ws_of_trimmed(Seq::<char>::empty(), seq!['\n']);
        assert(Seq::<char>::empty() + seq!['\n'] =~= seq!['\n']);
    } else {
        assert(r1[pos_b - 1] == '\n');
        assert(r1.take(pos_b - 1) =~= kept + seq!['\n']);
        assert(cut =~= kept + seq!['\n', '\n']);
        lemma_trim_end_ws_shape(cut_block(t, begin, end));
        lemma_trim_end_ws_shape(t);
        lemma_trim_end_ws_of_trimmed(kept, seq!['\n', '\n']);
    }
    assert(kept_text(r1, begin, end) == kept);
}

/// The managed block on balanced markers: for one-line markers that do not
/// contain each other, an end marker that does not end in white space and
/// a body that holds neither marker, replacing the block of a text whose
/// markers are absent or stand once each in order succeeds; the result is
/// trimmed with one final newline, holds each marker once (exactly the new
/// block) and replacing again with the same body changes nothing; replacing
/// with no body leaves neither marker.
pub proof fn law_replace_block(t: Seq<char>, begin: Seq<char>, end: Seq<char>, body: Seq<char>)
    requires
        begin.len() > 0,
        end.len() > 0,
        one_line(begin),
        one_line(end),
        !rust_space(end.last()),
        !crate::chars::contains_seq(begin, end),
        !crate::chars::contains_seq(end, begin),
        !crate::chars::contains_seq(trim_end_ws(body), begin),
        !crate::chars::contains_seq(trim_end_ws(body), end),
        markers_balanced(t, begin, end),
        matched_once(t, begin) && matched_once(t, end) ==> occurs_from(t, end, first_at(t, begin, 0)),
    ensures
        ({
            let r = replaced_block(t, begin, end, Some(body));
            let k = replaced_block(t, begin, end, None);
            &&& markers_balanced(r, begin, end)
            &&& matched_once(r, begin) && matched_once(r, end)
            &&& replaced_block(r, begin, end, Some(body)) == r
            &&& r == trim_end_ws(r) + seq!['\n']
            &&& !occurs_from(k, begin, 0) && !occurs_from(k, end, 0)
        }),
{
    crate::host_setup::codex::lemma_no_marker_left(t, begin, end);
    let kept = kept_text(t, begin, end);
    let k = replaced_block(t, begin, end, None);
    lemma_trim_end_ws_shape(if matched_once(t, begin) {
        cut_block(t, begin, end)
    } else {
        t
    });
    lemma_trim_end_ws_of_trimmed(kept, Seq::empty());
    assert(kept + Seq::<char>::empty() =~= kept);
    assert(k == kept + seq!['\n']);
    assert forall|at: int| !occurs_at(kept, begin, at) && !occurs_at(kept, end, at) by {
        if occurs_at(kept, begin, at) {
            assert(kept.subrange(at, at + begin.len()) =~= k.subrange(at, at + begin.len()));
            assert(occurs_at(k, begin, at));
        }
        if occurs_at(kept, end, at) {
            assert(kept.subrange(at, at + end.len()) =~= k.subrange(at, at + end.len()));
            assert(occurs_at(k, end, at));
        }
    }
    law_replace_block_idempotent(t, begin, end, body);
    let r = replaced_block(t, begin, end, Some(body));
    let tb = trim_end_ws(body);
    let block = begin + seq!['\n'] + tb + seq!['\n'] + end;
    let full = if kept.len() == 0 {
        block
    } else {
        kept + seq!['\n', '\n'] + block
    };
    assert(full.last() == end.last()) by {
        assert(block.last() == end.last());
    }
    lemma_trim_end_ws_of_trimmed(full, Seq::empty());
    assert(full + Seq::<char>::empty() =~= full);
    assert(r == full + seq!['\n']);
    lemma_trim_end_ws_of_trimmed(full, seq!['\n']);
}

} // verus!
