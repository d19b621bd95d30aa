//! Pattern finders with CPython `\s`/`\w`/`\b` semantics: each finder scans
//! leftmost-first, takes the longest core match and checks the boundaries
//! around it (a code token backs off to its last word boundary, as the
//! CPython engine does); on failure it advances one scalar.

use vstd::prelude::*;

use regex::Regex;

use crate::chars::{char_len_utf8, char_utf8_len, lemma_utf8_len_push, matches_at, occurs_at, str_byte_len, to_chars, utf8_len};
use crate::normalize::{is_word_char, word_char};

verus! {

broadcast use vstd::string::group_string_axioms;

/// ASCII letters, digits and underscore.
pub open spec fn ascii_word(c: char) -> bool {
    ('a' <= c && c <= 'z') || ('A' <= c && c <= 'Z') || ('0' <= c && c <= '9') || c == '_'
}

fn is_ascii_word(c: char) -> (r: bool)
    ensures
        r == ascii_word(c),
{
    ('a' <= c && c <= 'z') || ('A' <= c && c <= 'Z') || ('0' <= c && c <= '9') || c == '_'
}

/// `anchor` occurs in `text` at `at` with no ASCII word character directly
/// before or after it.
pub open spec fn ascii_bounded_at(anchor: Seq<char>, text: Seq<char>, at: int) -> bool {
    &&& occurs_at(text, anchor, at)
    &&& (at == 0 || !ascii_word(text[at - 1]))
    &&& (at + anchor.len() == text.len() || !ascii_word(text[at + anchor.len()]))
}

/// `re.search(r"(?<![A-Za-z0-9_])ANCHOR(?![A-Za-z0-9_])", text)`.
pub open spec fn ascii_anchor_seq(anchor: Seq<char>, text: Seq<char>) -> bool {
    exists|at: int| ascii_bounded_at(anchor, text, at)
}

/// Whether `anchor` occurs in `text` delimited by non-ASCII-word characters.
/// An empty anchor is only asked for where a delimited position exists (the
/// search for one runs off the end of the text otherwise).
pub fn ascii_anchor_present(anchor: &str, text: &str) -> (r: bool)
    requires
        anchor@.len() > 0 || ascii_anchor_seq(anchor@, text@),
    ensures
        r == ascii_anchor_seq(anchor@, text@),
{
    if anchor.unicode_len() == 0 {
        return true;
    }
    let a = to_chars(anchor);
    let t = to_chars(text);
    let mut at: usize = 0;
    while at < t.len()
        invariant
            a@ == anchor@,
            t@ == text@,
            forall|k: int| 0 <= k < at ==> !ascii_bounded_at(a@, t@, k),
        decreases t.len() - at,
    {
        if matches_at(&t, &a, at) {
            let end = at + a.len();
            let before_ok = at == 0 || !is_ascii_word(t[at - 1]);
            let after_ok = end == t.len() || !is_ascii_word(t[end]);
            if before_ok && after_ok {
                assert(ascii_bounded_at(a@, t@, at as int));
                return true;
            }
        }
        at = at + 1;
    }
    assert forall|k: int| !ascii_bounded_at(a@, t@, k) by {
        if k >= at {
            if occurs_at(t@, a@, k) {
                assert(k + a@.len() <= t@.len());
            }
        }
    }
    false
}


/// URLs: `https?://` and a run of characters other than CPython whitespace,
/// `<`, `>`, `"` and `'`, case-insensitively.
pub const URL_PATTERN: &'static str = "(?i)https?://[^\\s\\x{1c}\\x{1d}\\x{1e}\\x{1f}<>\"']+";

/// The core of a domain: dot-terminated labels and an alphabetic top label.
pub const DOMAIN_PATTERN: &'static str = "(?:[A-Za-z0-9-]+\\.)+[A-Za-z]{2,}";

/// The core of a path: `~` or `/`, slash-terminated segments and a last
/// segment, none holding whitespace or `，。；;`.
pub const PATH_PATTERN: &'static str = "(?:~|/)(?:[^\\s\\x{1c}\\x{1d}\\x{1e}\\x{1f}，。；;]+/)*[^\\s\\x{1c}\\x{1d}\\x{1e}\\x{1f}，。；;]*";

/// The core of a code token: a letter and 1 to 63 letters, digits, `_`, `.`, `-`.
pub const CODE_TOKEN_PATTERN: &'static str = "[A-Za-z][A-Za-z0-9_.-]{1,63}";

/// Query tokens: URLs, domains, ASCII identifiers and paths, CJK runs and
/// dotted numbers.
pub const QUERY_TOKEN_PATTERN: &'static str = "https?://[^\\s\\x{1c}\\x{1d}\\x{1e}\\x{1f}<>\"']+|(?:[A-Za-z0-9-]+\\.)+[A-Za-z]{2,}|[A-Za-z][A-Za-z0-9_.:/-]*|[\\u{3400}-\\u{9fff}]{2,}|[0-9]+(?:\\.[0-9]+)*";

/// Whether byte offset `b` of the UTF-8 encoding of `t` falls between two
/// scalars (or at either end).
pub open spec fn byte_boundary(t: Seq<char>, b: int) -> bool {
    exists|k: int| 0 <= k <= t.len() && #[trigger] utf8_len(t.take(k)) == b
}

/// What `regex::Regex::find_at` returns for `pattern` (compiled by
/// `Regex::new`, nothing when it does not compile) on `text` from byte
/// offset `start`, as byte offsets.
pub uninterp spec fn regex_find_at(pattern: Seq<char>, text: Seq<char>, start: usize) -> Option<(usize, usize)>;

/// What `regex::Regex::find_iter` yields for `pattern` (compiled by
/// `Regex::new`, nothing when it does not compile) on `text`, as byte
/// offsets.
pub uninterp spec fn regex_find_iter(pattern: Seq<char>, text: Seq<char>) -> Seq<(usize, usize)>;

/// Compiles `pattern` with `regex::Regex::new` and calls `Regex::find_at`
/// on `text` from `start`. Claimed of the result: it is the named result,
/// and a match lies within `start..=text.len()` with both ends on scalar
/// boundaries (the crate documents matches on `&str` as falling on UTF-8
/// boundaries, and searches the span from `start` to the end).
#[verifier::external_body]
fn find_at(pattern: &str, text: &str, start: usize) -> (r: Option<(usize, usize)>)
    requires
        start <= utf8_len(text@),
    ensures
        r == regex_find_at(pattern@, text@, start),
        r matches Some((s, e)) ==> start <= s <= e <= utf8_len(text@) && byte_boundary(text@, s as int)
            && byte_boundary(text@, e as int),
{
    match Regex::new(pattern) {
        Ok(re) => re.find_at(text, start).map(|m| (m.start(), m.end())),
        Err(_) => None,
    }
}

/// Compiles `pattern` with `regex::Regex::new` and collects
/// `Regex::find_iter` on `text` as byte offsets. Claimed of the result: it
/// is the named result, and each match lies within the text with both ends
/// on scalar boundaries (the crate documents matches on `&str` as falling
/// on UTF-8 boundaries).
#[verifier::external_body]
fn find_iter(pattern: &str, text: &str) -> (r: Vec<(usize, usize)>)
    ensures
        r@ == regex_find_iter(pattern@, text@),
        forall|k: int| 0 <= k < r@.len() ==> (#[trigger] r@[k]).0 <= r@[k].1 <= utf8_len(text@) && byte_boundary(text@, r@[k].0 as int)
            && byte_boundary(text@, r@[k].1 as int),
{
    match Regex::new(pattern) {
        Ok(re) => re.find_iter(text).map(|m| (m.start(), m.end())).collect(),
        Err(_) => Vec::new(),
    }
}

/// The index of the scalar that starts at byte offset `b`, for a boundary.
pub open spec fn index_at_byte(t: Seq<char>, b: int) -> int {
    choose|k: int| 0 <= k <= t.len() && #[trigger] utf8_len(t.take(k)) == b
}

/// The scalar starting at byte offset `b`, if `b` is not the end.
pub open spec fn char_at_byte(t: Seq<char>, b: int) -> Option<char> {
    let k = index_at_byte(t, b);
    if k < t.len() {
        Some(t[k])
    } else {
        None
    }
}

/// The scalar ending at byte offset `b`, if `b` is not the start.
pub open spec fn char_before_byte(t: Seq<char>, b: int) -> Option<char> {
    let k = index_at_byte(t, b);
    if k > 0 {
        Some(t[k - 1])
    } else {
        None
    }
}

/// The byte offset one scalar past `b` (one byte past the end at the end).
pub open spec fn advance_byte(t: Seq<char>, b: int) -> int {
    match char_at_byte(t, b) {
        Some(c) => b + char_utf8_len(c),
        None => b + 1,
    }
}

/// The finders that check boundaries around a core match.
pub enum Finder {
    Domain,
    Path,
    CodeToken,
}

/// The core pattern of a finder.
pub open spec fn finder_pattern(f: Finder) -> Seq<char> {
    match f {
        Finder::Domain => DOMAIN_PATTERN@,
        Finder::Path => PATH_PATTERN@,
        Finder::CodeToken => CODE_TOKEN_PATTERN@,
    }
}

/// The check on the scalar before a core match.
pub open spec fn before_ok(f: Finder, before: Option<char>) -> bool {
    match before {
        None => true,
        Some(ch) => match f {
            Finder::Domain => !(ch == '@' || word_char(ch)),
            Finder::Path => !word_char(ch),
            Finder::CodeToken => !word_char(ch),
        },
    }
}

/// The check on the scalar after a domain or path match.
pub open spec fn after_ok(f: Finder, after: Option<char>) -> bool {
    match after {
        None => true,
        Some(ch) => match f {
            Finder::Domain => !(ch == '.' || ch == '-' || word_char(ch)),
            Finder::Path => true,
            Finder::CodeToken => !word_char(ch),
        },
    }
}

/// Whether scalar index `j` of `t` holds a word character (false outside).
pub open spec fn word_at(t: Seq<char>, j: int) -> bool {
    0 <= j < t.len() && word_char(t[j])
}

/// CPython `\b` at scalar index `j`: a word character on exactly one side.
pub open spec fn word_boundary_at(t: Seq<char>, j: int) -> bool {
    word_at(t, j - 1) != word_at(t, j)
}

/// The end (a scalar index) of a code token that starts at scalar `ks` and
/// whose greedy core match ends at `ke`: the largest `j` with
/// `ks + 2 <= j <= ke` at which `\b` holds, as CPython finds it by
/// backtracking; none when no such `j` exists.
pub open spec fn code_token_end(t: Seq<char>, ks: int, ke: int) -> Option<int>
    decreases ke - ks,
{
    if ke < ks + 2 {
        None
    } else if word_boundary_at(t, ke) {
        Some(ke)
    } else {
        code_token_end(t, ks, ke - 1)
    }
}

/// The end (a byte offset) of the match the full pattern makes at `s`, whose
/// core match greedily reaches `e`: none when the boundary checks reject
/// every end.
pub open spec fn accepted_end(f: Finder, t: Seq<char>, s: int, e: int) -> Option<int> {
    if !before_ok(f, char_before_byte(t, s)) {
        None
    } else {
        match f {
            Finder::CodeToken => match code_token_end(t, index_at_byte(t, s), index_at_byte(t, e)) {
                Some(j) => Some(utf8_len(t.take(j)) as int),
                None => None,
            },
            _ => if after_ok(f, char_at_byte(t, e)) {
                Some(e)
            } else {
                None
            },
        }
    }
}

/// The matches of a finder on `t` from byte offset `pos`: at the leftmost
/// core match, the full pattern's match (with its boundary checks, and for
/// code tokens the backtracking to a word boundary) is kept and the scan
/// resumes at its end; when there is none the scan resumes one scalar after
/// the match start (after the match end for an empty match).
pub open spec fn boundary_scan(f: Finder, t: Seq<char>, pos: int) -> Seq<(usize, usize)>
    decreases utf8_len(t) + 1 - pos,
{
    if pos < 0 || pos > utf8_len(t) {
        Seq::empty()
    } else {
        match regex_find_at(finder_pattern(f), t, pos as usize) {
            None => Seq::empty(),
            Some((s, e)) => if !(pos <= s <= e <= utf8_len(t)) || !byte_boundary(t, s as int) || !byte_boundary(
                t,
                e as int,
            ) {
                Seq::empty()
            } else if e == s {
                proof {
                    lemma_advance_past(t, e as int);
                }
                if advance_byte(t, e as int) > utf8_len(t) {
                    Seq::empty()
                } else {
                    boundary_scan(f, t, advance_byte(t, e as int))
                }
            } else {
                match accepted_end(f, t, s as int, e as int) {
                    Some(e2) => if s < e2 <= e {
                        seq![(s, e2 as usize)] + boundary_scan(f, t, e2)
                    } else {
                        Seq::empty()
                    },
                    None => {
                        proof {
                            lemma_advance_past(t, s as int);
                        }
                        if advance_byte(t, s as int) > utf8_len(t) {
                            Seq::empty()
                        } else {
                            boundary_scan(f, t, advance_byte(t, s as int))
                        }
                    },
                }
            },
        }
    }
}

/// What `code_token_end` picks: a word boundary in range with none after it
/// up to `ke`, or no word boundary in range at all.
pub proof fn lemma_code_token_end(t: Seq<char>, ks: int, ke: int)
    ensures
        match code_token_end(t, ks, ke) {
            Some(j) => ks + 2 <= j <= ke && word_boundary_at(t, j) && forall|i: int|
                j < i <= ke ==> !#[trigger] word_boundary_at(t, i),
            None => forall|i: int| ks + 2 <= i <= ke ==> !#[trigger] word_boundary_at(t, i),
        },
    decreases ke - ks,
{
    if ke >= ks + 2 && !word_boundary_at(t, ke) {
        lemma_code_token_end(t, ks, ke - 1);
    }
}

/// Advancing moves past `b`.
pub proof fn lemma_advance_past(t: Seq<char>, b: int)
    ensures
        advance_byte(t, b) > b,
{
    match char_at_byte(t, b) {
        Some(c) => {
            assert(char_utf8_len(c) >= 1);
        },
        None => {},
    }
}

/// Byte offsets grow strictly with scalar prefixes.
pub proof fn lemma_utf8_prefix_increasing(t: Seq<char>, i: int, j: int)
    requires
        0 <= i < j <= t.len(),
    ensures
        utf8_len(t.take(i)) < utf8_len(t.take(j)),
    decreases j - i,
{
    assert(t.take(j) =~= t.take(j - 1).push(t[j - 1]));
    lemma_utf8_len_push(t.take(j - 1), t[j - 1]);
    if i < j - 1 {
        lemma_utf8_prefix_increasing(t, i, j - 1);
    }
}

/// The scalar index of a boundary byte offset.
pub(crate) fn char_index(t: &[char], b: usize) -> (k: usize)
    requires
        byte_boundary(t@, b as int),
    ensures
        k <= t.len(),
        utf8_len(t@.take(k as int)) == b,
        k == index_at_byte(t@, b as int),
{
    let ghost w = choose|k: int| 0 <= k <= t@.len() && #[trigger] utf8_len(t@.take(k)) == b;
    let mut k: usize = 0;
    let mut acc: usize = 0;
    assert(t@.take(0) =~= Seq::<char>::empty());
    while acc < b
        invariant
            k <= t.len(),
            acc == utf8_len(t@.take(k as int)),
            0 <= w <= t@.len(),
            utf8_len(t@.take(w)) == b,
            acc <= b,
            k <= w,
        decreases b - acc,
    {
        proof {
            if w == k {
                assert(false);
            }
            lemma_utf8_len_push(t@.take(k as int), t@[k as int]);
            assert(t@.take(k + 1) =~= t@.take(k as int).push(t@[k as int]));
            if k + 1 < w {
                lemma_utf8_prefix_increasing(t@, k + 1, w);
            }
        }
        acc = acc + char_len_utf8(t[k]);
        k = k + 1;
    }
    proof {
        if k < w {
            lemma_utf8_prefix_increasing(t@, k as int, w);
        }
        let c = index_at_byte(t@, b as int);
        if c < k {
            lemma_utf8_prefix_increasing(t@, c, k as int);
        } else if c > k {
            lemma_utf8_prefix_increasing(t@, k as int, c);
        }
    }
    k
}

/// The byte offset one scalar past boundary `b`, or nothing at the end.
fn advance(t: &[char], b: usize) -> (r: Option<usize>)
    requires
        byte_boundary(t@, b as int),
        utf8_len(t@) <= usize::MAX,
        b <= utf8_len(t@),
    ensures
        match char_at_byte(t@, b as int) {
            Some(_) => r == Some(advance_byte(t@, b as int) as usize) && advance_byte(t@, b as int) <= utf8_len(t@),
            None => r is None,
        },
{
    let k = char_index(t, b);
    if k < t.len() {
        proof {
            lemma_utf8_len_push(t@.take(k as int), t@[k as int]);
            assert(t@.take(k + 1) =~= t@.take(k as int).push(t@[k as int]));
            crate::chars::lemma_utf8_len_prefix(t@, k + 1);
        }
        Some(b + char_len_utf8(t[k]))
    } else {
        None
    }
}

/// The boundary check before a core match.
fn check_before(f: &Finder, before: Option<char>) -> (r: bool)
    ensures
        r == before_ok(*f, before),
{
    match before {
        None => true,
        Some(ch) => match f {
            Finder::Domain => !(ch == '@' || is_word_char(ch)),
            Finder::Path => !is_word_char(ch),
            Finder::CodeToken => !is_word_char(ch),
        },
    }
}

/// The boundary check after a core match.
fn check_after(f: &Finder, after: Option<char>) -> (r: bool)
    ensures
        r == after_ok(*f, after),
{
    match after {
        None => true,
        Some(ch) => match f {
            Finder::Domain => !(ch == '.' || ch == '-' || is_word_char(ch)),
            Finder::Path => true,
            Finder::CodeToken => !is_word_char(ch),
        },
    }
}

/// Whether CPython `\b` holds at scalar index `j`.
fn is_word_boundary(t: &[char], j: usize) -> (r: bool)
    requires
        j <= t.len(),
    ensures
        r == word_boundary_at(t@, j as int),
{
    let before = j > 0 && is_word_char(t[j - 1]);
    let after = j < t.len() && is_word_char(t[j]);
    before != after
}

/// Backtracks a code token's greedy end `ke` (byte offset `e`) to the
/// last word boundary at least two scalars past `ks`: its scalar index and
/// byte offset.
fn find_code_token_end(t: &[char], ks: usize, ke: usize, e: usize) -> (r: Option<(usize, usize)>)
    requires
        ks <= ke <= t.len(),
        e == utf8_len(t@.take(ke as int)),
    ensures
        match r {
            Some((j, b)) => {
                &&& code_token_end(t@, ks as int, ke as int) == Some(j as int)
                &&& ks + 2 <= j <= ke
                &&& b == utf8_len(t@.take(j as int))
                &&& utf8_len(t@.take(ks as int)) < b <= e
            },
            None => code_token_end(t@, ks as int, ke as int) is None,
        },
{
    let mut j = ke;
    let mut b = e;
    while j - ks >= 2
        invariant
            ks <= j <= ke <= t.len(),
            e == utf8_len(t@.take(ke as int)),
            b == utf8_len(t@.take(j as int)),
            code_token_end(t@, ks as int, ke as int) == code_token_end(t@, ks as int, j as int),
        decreases j,
    {
        if is_word_boundary(t, j) {
            proof {
                assert(code_token_end(t@, ks as int, j as int) == Some(j as int));
                lemma_utf8_prefix_increasing(t@, ks as int, j as int);
                if j < ke {
                    lemma_utf8_prefix_increasing(t@, j as int, ke as int);
                }
            }
            return Some((j, b));
        }
        proof {
            assert(t@.take(j as int) =~= t@.take(j - 1).push(t@[j - 1]));
            lemma_utf8_len_push(t@.take(j - 1), t@[j - 1]);
        }
        b = b - char_len_utf8(t[j - 1]);
        j = j - 1;
    }
    None
}

/// The full pattern's match at core match `(s, e)`: its end as a scalar
/// index and a byte offset, or none.
fn accept_match(f: &Finder, t: &[char], s: usize, e: usize) -> (r: Option<(usize, usize)>)
    requires
        s < e <= utf8_len(t@),
        byte_boundary(t@, s as int),
        byte_boundary(t@, e as int),
    ensures
        match r {
            Some((j, e2)) => {
                &&& accepted_end(*f, t@, s as int, e as int) == Some(e2 as int)
                &&& s < e2 <= e
                &&& j <= t@.len()
                &&& utf8_len(t@.take(j as int)) == e2
            },
            None => accepted_end(*f, t@, s as int, e as int) is None,
        },
{
    let ks = char_index(t, s);
    let ke = char_index(t, e);
    proof {
        if ke < ks {
            lemma_utf8_prefix_increasing(t@, ke as int, ks as int);
        }
    }
    let before = if ks == 0 {
        None
    } else {
        Some(t[ks - 1])
    };
    let after = if ke == t.len() {
        None
    } else {
        Some(t[ke])
    };
    if !check_before(f, before) {
        return None;
    }
    match f {
        Finder::CodeToken => find_code_token_end(t, ks, ke, e),
        _ => if check_after(f, after) {
            Some((ke, e))
        } else {
            None
        },
    }
}

/// The core pattern of a finder.
fn pattern_of(f: &Finder) -> (p: &'static str)
    ensures
        p@ == finder_pattern(*f),
{
    match f {
        Finder::Domain => DOMAIN_PATTERN,
        Finder::Path => PATH_PATTERN,
        Finder::CodeToken => CODE_TOKEN_PATTERN,
    }
}

/// Scans `text` with a finder: leftmost core matches whose surroundings
/// pass the finder's boundary checks.
pub fn find_with_boundaries(f: Finder, text: &str) -> (r: Vec<(usize, usize)>)
    ensures
        r@ == boundary_scan(f, text@, 0),
{
    let t = to_chars(text);
    let n = str_byte_len(text);
    let pattern = pattern_of(&f);
    let mut out: Vec<(usize, usize)> = Vec::new();
    let mut pos: usize = 0;
    assert(t@.take(0) =~= Seq::<char>::empty());
    assert(utf8_len(t@.take(0)) == 0);
    while pos <= n
        invariant
            t@ == text@,
            n == utf8_len(text@),
            pattern@ == finder_pattern(f),
            pos <= n,
            byte_boundary(t@, pos as int),
            out@ + boundary_scan(f, t@, pos as int) == boundary_scan(f, t@, 0),
        ensures
            out@ == boundary_scan(f, t@, 0),
        decreases n + 1 - pos,
    {
        match find_at(pattern, text, pos) {
            None => {
                assert(out@ + Seq::<(usize, usize)>::empty() =~= out@);
                break;
            },
            Some((s, e)) => {
                if e == s {
                    match advance(&t, e) {
                        Some(next) => {
                            pos = next;
                            proof {
                                let k = index_at_byte(t@, e as int);
                                assert(t@.take(k + 1) =~= t@.take(k).push(t@[k]));
                                lemma_utf8_len_push(t@.take(k), t@[k]);
                                assert(utf8_len(t@.take(k + 1)) == pos);
                            }
                        },
                        None => {
                            assert(t@.take(t@.len() as int) =~= t@);
                            assert(boundary_scan(f, t@, advance_byte(t@, e as int)) == Seq::<(usize, usize)>::empty());
                            assert(out@ + Seq::<(usize, usize)>::empty() =~= out@);
                            break;
                        },
                    }
                } else {
                    let accepted = accept_match(&f, &t, s, e);
                    if let Some((j2, e2)) = accepted {
                        let ghost old_out = out@;
                        out.push((s, e2));
                        assert(out@ + boundary_scan(f, t@, e2 as int) =~= old_out + (seq![(s, e2)] + boundary_scan(f, t@, e2 as int)));
                        pos = e2;
                    } else {
                        match advance(&t, s) {
                            Some(next) => {
                                pos = next;
                                proof {
                                    let k = index_at_byte(t@, s as int);
                                    assert(t@.take(k + 1) =~= t@.take(k).push(t@[k]));
                                    lemma_utf8_len_push(t@.take(k), t@[k]);
                                    assert(utf8_len(t@.take(k + 1)) == pos);
                                }
                            },
                            None => {
                                assert(t@.take(t@.len() as int) =~= t@);
                                assert(boundary_scan(f, t@, advance_byte(t@, s as int)) == Seq::<(usize, usize)>::empty());
                                assert(out@ + Seq::<(usize, usize)>::empty() =~= out@);
                                break;
                            },
                        }
                    }
                }
            },
        }
    }
    out
}

/// URL matches, as byte offsets.
pub fn find_urls(text: &str) -> (r: Vec<(usize, usize)>)
    ensures
        r@ == regex_find_iter(URL_PATTERN@, text@),
        forall|k: int| 0 <= k < r@.len() ==> (#[trigger] r@[k]).0 <= r@[k].1 <= utf8_len(text@) && byte_boundary(text@, r@[k].0 as int)
            && byte_boundary(text@, r@[k].1 as int),
{
    find_iter(URL_PATTERN, text)
}

/// Whether the first URL match of `value` spans all of it.
pub fn is_url_full(value: &str) -> (r: bool)
    ensures
        r == (regex_find_at(URL_PATTERN@, value@, 0) == Some((0usize, utf8_len(value@) as usize))),
{
    let n = str_byte_len(value);
    match find_at(URL_PATTERN, value, 0) {
        Some((s, e)) => s == 0 && e == n,
        None => false,
    }
}

/// Domain names not preceded by `@` or a word character and not followed by
/// `.`, `-` or a word character.
pub fn find_domains(text: &str) -> (r: Vec<(usize, usize)>)
    ensures
        r@ == boundary_scan(Finder::Domain, text@, 0),
{
    find_with_boundaries(Finder::Domain, text)
}

/// Whether `value` is exactly one domain.
pub fn is_domain_full(value: &str) -> (r: bool)
    ensures
        r == (boundary_scan(Finder::Domain, value@, 0) =~= seq![(0usize, utf8_len(value@) as usize)]),
{
    let hits = find_domains(value);
    let n = str_byte_len(value);
    let r = hits.len() == 1 && hits[0].0 == 0 && hits[0].1 == n;
    assert(r ==> hits@ =~= seq![(0usize, n)]);
    r
}

/// Paths not preceded by a word character.
pub fn find_paths(text: &str) -> (r: Vec<(usize, usize)>)
    ensures
        r@ == boundary_scan(Finder::Path, text@, 0),
{
    find_with_boundaries(Finder::Path, text)
}

/// Whether `value` is exactly one path.
pub fn is_path_full(value: &str) -> (r: bool)
    ensures
        r == (boundary_scan(Finder::Path, value@, 0) =~= seq![(0usize, utf8_len(value@) as usize)]),
{
    let hits = find_paths(value);
    let n = str_byte_len(value);
    let r = hits.len() == 1 && hits[0].0 == 0 && hits[0].1 == n;
    assert(r ==> hits@ =~= seq![(0usize, n)]);
    r
}

/// Code tokens delimited by non-word characters.
pub fn find_code_tokens(text: &str) -> (r: Vec<(usize, usize)>)
    ensures
        r@ == boundary_scan(Finder::CodeToken, text@, 0),
{
    find_with_boundaries(Finder::CodeToken, text)
}

/// Query token matches, as byte offsets.
pub fn find_query_tokens(text: &str) -> (r: Vec<(usize, usize)>)
    ensures
        r@ == regex_find_iter(QUERY_TOKEN_PATTERN@, text@),
{
    find_iter(QUERY_TOKEN_PATTERN, text)
}


/// What `regex::Regex::is_match` answers for `pattern` (compiled by
/// `Regex::new`, false when it does not compile) on `text`.
pub uninterp spec fn regex_is_match(pattern: Seq<char>, text: Seq<char>) -> bool;

/// Compiles `pattern` with `regex::Regex::new` and calls
/// `Regex::is_match` on `text`. Claimed of the result: it is the named
/// answer.
#[verifier::external_body]
pub(crate) fn is_match(pattern: &str, text: &str) -> (r: bool)
    ensures
        r == regex_is_match(pattern@, text@),
{
    match Regex::new(pattern) {
        Ok(re) => re.is_match(text),
        Err(_) => false,
    }
}

/// An upper-case identifier of 2 to 16 characters: `[A-Z][A-Z0-9_.-]{1,15}`.
pub const CAPS_IDENTIFIER_PATTERN: &'static str = "^[A-Z][A-Z0-9_.-]{1,15}$";

/// An upper-case acronym of 2 to 16 characters: `[A-Z][A-Z0-9]{1,15}`.
pub const CAPS_ACRONYM_PATTERN: &'static str = "^[A-Z][A-Z0-9]{1,15}$";

/// Whether `value` is wholly an upper-case identifier.
pub fn is_caps_identifier(value: &str) -> (r: bool)
    ensures
        r == regex_is_match(CAPS_IDENTIFIER_PATTERN@, value@),
{
    is_match(CAPS_IDENTIFIER_PATTERN, value)
}

/// Whether `value` is wholly an upper-case acronym.
pub fn is_caps_acronym(value: &str) -> (r: bool)
    ensures
        r == regex_is_match(CAPS_ACRONYM_PATTERN@, value@),
{
    is_match(CAPS_ACRONYM_PATTERN, value)
}


/// An accepted end lies between scalars.
pub proof fn lemma_accepted_end_boundary(f: Finder, t: Seq<char>, s: int, e: int)
    requires
        byte_boundary(t, e),
        accepted_end(f, t, s, e) is Some,
    ensures
        byte_boundary(t, accepted_end(f, t, s, e)->0),
{
    if f is CodeToken {
        let ks = index_at_byte(t, s);
        let ke = index_at_byte(t, e);
        let j = code_token_end(t, ks, ke)->0;
        lemma_code_token_end(t, ks, ke);
        assert(0 <= ke <= t.len());
        assert(utf8_len(t.take(j)) == accepted_end(f, t, s, e)->0);
    }
}

/// Every match of a boundary scan is a non-empty span between scalar
/// boundaries within the text, from `pos` on.
pub proof fn lemma_boundary_scan_spans(f: Finder, t: Seq<char>, pos: int)
    ensures
        forall|k: int| 0 <= k < boundary_scan(f, t, pos).len() ==> {
            let m = #[trigger] boundary_scan(f, t, pos)[k];
            &&& pos <= m.0 < m.1 <= utf8_len(t)
            &&& byte_boundary(t, m.0 as int)
            &&& byte_boundary(t, m.1 as int)
        },
    decreases utf8_len(t) + 1 - pos,
{
    if !(pos < 0 || pos > utf8_len(t)) {
        match regex_find_at(finder_pattern(f), t, pos as usize) {
            None => {
                assert(boundary_scan(f, t, pos) == Seq::<(usize, usize)>::empty());
            },
            Some((s, e)) => {
                if !(pos <= s <= e <= utf8_len(t)) || !byte_boundary(t, s as int) || !byte_boundary(t, e as int) {
                    assert(boundary_scan(f, t, pos) == Seq::<(usize, usize)>::empty());
                }
                if !(!(pos <= s <= e <= utf8_len(t)) || !byte_boundary(t, s as int) || !byte_boundary(t, e as int)) {
                    if e == s {
                        lemma_advance_past(t, e as int);
                        if advance_byte(t, e as int) <= utf8_len(t) {
                            lemma_boundary_scan_spans(f, t, advance_byte(t, e as int));
                            assert(boundary_scan(f, t, pos) == boundary_scan(f, t, advance_byte(t, e as int)));
                        } else {
                            assert(boundary_scan(f, t, pos) == Seq::<(usize, usize)>::empty());
                        }
                    } else if accepted_end(f, t, s as int, e as int) is Some {
                        let e2 = accepted_end(f, t, s as int, e as int)->0;
                        if s < e2 <= e {
                            lemma_accepted_end_boundary(f, t, s as int, e as int);
                            lemma_boundary_scan_spans(f, t, e2);
                            let rest = boundary_scan(f, t, e2);
                            assert(boundary_scan(f, t, pos) == seq![(s, e2 as usize)] + rest);
                            assert forall|k: int| 0 <= k < boundary_scan(f, t, pos).len() implies {
                                let m = #[trigger] boundary_scan(f, t, pos)[k];
                                &&& pos <= m.0 < m.1 <= utf8_len(t)
                                &&& byte_boundary(t, m.0 as int)
                                &&& byte_boundary(t, m.1 as int)
                            } by {
                                if k > 0 {
                                    assert(boundary_scan(f, t, pos)[k] == rest[k - 1]);
                                }
                            }
                        } else {
                            assert(boundary_scan(f, t, pos) == Seq::<(usize, usize)>::empty());
                        }
                    } else {
                        lemma_advance_past(t, s as int);
                        if advance_byte(t, s as int) <= utf8_len(t) {
                            lemma_boundary_scan_spans(f, t, advance_byte(t, s as int));
                            assert(boundary_scan(f, t, pos) == boundary_scan(f, t, advance_byte(t, s as int)));
                        } else {
                            assert(boundary_scan(f, t, pos) == Seq::<(usize, usize)>::empty());
                        }
                    }
                }
            },
        }
    }
}

} // verus!
