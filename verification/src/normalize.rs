//! Unicode 16.0.0 normalization: NFKC, then full non-Turkic casefold, then
//! collapse Python `\s` runs to one space and strip. Character counts are
//! Unicode scalar values; byte counts are UTF-8.

use unicode_normalization::UnicodeNormalization;
use vstd::prelude::*;

use crate::casefold_table::{CASEFOLD, CASEFOLD_LEN};
use crate::chars::{contains_char, extend_chars, from_chars, hex2, push_char, push_hex2, to_chars};

verus! {

broadcast use vstd::string::group_string_axioms;

/// Python 3.x `\s` / `str.strip()` whitespace set (includes U+001C..U+001F).
pub open spec fn py_space(c: char) -> bool {
    let v = c as u32;
    ||| v == 0x20
    ||| 0x09 <= v <= 0x0d
    ||| 0x1c <= v <= 0x1f
    ||| v == 0x85
    ||| v == 0xa0
    ||| v == 0x1680
    ||| 0x2000 <= v <= 0x200a
    ||| v == 0x2028
    ||| v == 0x2029
    ||| v == 0x202f
    ||| v == 0x205f
    ||| v == 0x3000
}

/// Python whitespace membership (`\s`, `str.isspace`).
pub fn is_py_space(ch: char) -> (r: bool)
    ensures
        r == py_space(ch),
{
    let v = ch as u32;
    v == 0x20 || (0x09 <= v && v <= 0x0d) || (0x1c <= v && v <= 0x1f) || v == 0x85 || v == 0xa0
        || v == 0x1680 || (0x2000 <= v && v <= 0x200a) || v == 0x2028 || v == 0x2029 || v
        == 0x202f || v == 0x205f || v == 0x3000
}

/// The scalars an entry of the folding table maps to.
pub open spec fn fold_entry_chars(e: (char, char, char, char)) -> Seq<char> {
    if e.1 == '\0' {
        Seq::empty()
    } else if e.2 == '\0' {
        seq![e.1]
    } else if e.3 == '\0' {
        seq![e.1, e.2]
    } else {
        seq![e.1, e.2, e.3]
    }
}

/// Folding of `c` by the first table entry at or after `i` whose source is `c`.
pub closed spec fn fold_from(c: char, i: int) -> Seq<char>
    decreases CASEFOLD_LEN - i,
{
    if i < 0 || i >= CASEFOLD_LEN {
        seq![c]
    } else if CASEFOLD[i].0 == c {
        fold_entry_chars(CASEFOLD[i])
    } else {
        fold_from(c, i + 1)
    }
}

/// Full case folding of one scalar: its table mapping, or itself.
pub closed spec fn casefold_of(c: char) -> Seq<char> {
    fold_from(c, 0)
}

/// Full case folding of a sequence: each scalar replaced by its folding.
pub open spec fn casefold_seq(s: Seq<char>) -> Seq<char>
    decreases s.len(),
{
    if s.len() == 0 {
        Seq::empty()
    } else {
        casefold_seq(s.drop_last()) + casefold_of(s.last())
    }
}

/// Case folding distributes over concatenation: folding a text is folding
/// its parts and joining them.
pub proof fn law_casefold_concat(a: Seq<char>, b: Seq<char>)
    ensures
        casefold_seq(a + b) == casefold_seq(a) + casefold_seq(b),
    decreases b.len(),
{
    if b.len() == 0 {
        assert(a + b =~= a);
        assert(casefold_seq(a) + casefold_seq(b) =~= casefold_seq(a));
    } else {
        law_casefold_concat(a, b.drop_last());
        assert((a + b).drop_last() =~= a + b.drop_last());
        assert((a + b).last() == b.last());
        assert(casefold_seq(a + b) =~= casefold_seq(a) + casefold_seq(b));
    }
}

/// Whether `s` holds a scalar that is not whitespace.
pub open spec fn has_text(s: Seq<char>) -> bool {
    exists|i: int| 0 <= i < s.len() && !py_space(#[trigger] s[i])
}

/// Whitespace collapse: text scalars are kept in order; a run of whitespace
/// between two pieces of text becomes one space; leading and trailing
/// whitespace is dropped (`re.sub(r"\s+", " ", s).strip()`).
pub open spec fn collapse_ws(s: Seq<char>) -> Seq<char>
    decreases s.len(),
{
    if s.len() == 0 {
        Seq::empty()
    } else {
        let p = s.drop_last();
        let c = s.last();
        if py_space(c) {
            collapse_ws(p)
        } else if has_text(p) && py_space(p.last()) {
            collapse_ws(p).push(' ').push(c)
        } else {
            collapse_ws(p).push(c)
        }
    }
}

/// Leading characters satisfying `pred` removed.
pub open spec fn trim_start_by(s: Seq<char>, pred: spec_fn(char) -> bool) -> Seq<char>
    decreases s.len(),
{
    if s.len() > 0 && pred(s[0]) {
        trim_start_by(s.drop_first(), pred)
    } else {
        s
    }
}

/// Trailing characters satisfying `pred` removed.
pub open spec fn trim_end_by(s: Seq<char>, pred: spec_fn(char) -> bool) -> Seq<char>
    decreases s.len(),
{
    if s.len() > 0 && pred(s.last()) {
        trim_end_by(s.drop_last(), pred)
    } else {
        s
    }
}

/// The whitespace predicate as a value.
pub open spec fn space_pred() -> spec_fn(char) -> bool {
    |c: char| py_space(c)
}

/// Python `str.strip()`.
pub open spec fn py_strip_seq(s: Seq<char>) -> Seq<char> {
    trim_end_by(trim_start_by(s, space_pred()), space_pred())
}

/// Python `str.rstrip()`.
pub open spec fn py_rstrip_seq(s: Seq<char>) -> Seq<char> {
    trim_end_by(s, space_pred())
}

/// The text produced by NFKC normalization (`unicode_normalization`).
pub uninterp spec fn nfkc_of(s: Seq<char>) -> Seq<char>;

/// The normalization key of a text: NFKC, casefold, collapse.
pub open spec fn normalize_seq(s: Seq<char>) -> Seq<char> {
    collapse_ws(casefold_seq(nfkc_of(s)))
}

/// Removing leading characters that satisfy `pred` up to position `k`.
pub proof fn lemma_trim_start_at(s: Seq<char>, pred: spec_fn(char) -> bool, k: int)
    requires
        0 <= k <= s.len(),
        forall|i: int| 0 <= i < k ==> pred(#[trigger] s[i]),
        k == s.len() || !pred(s[k]),
    ensures
        trim_start_by(s, pred) == s.skip(k),
    decreases k,
{
    if k == 0 {
        assert(s.skip(0) =~= s);
    } else {
        assert(pred(s[0]));
        lemma_trim_start_at(s.drop_first(), pred, k - 1);
        assert(s.drop_first().skip(k - 1) =~= s.skip(k));
    }
}

/// Removing trailing characters that satisfy `pred` down to position `k`.
pub proof fn lemma_trim_end_at(s: Seq<char>, pred: spec_fn(char) -> bool, k: int)
    requires
        0 <= k <= s.len(),
        forall|i: int| k <= i < s.len() ==> pred(#[trigger] s[i]),
        k == 0 || !pred(s[k - 1]),
    ensures
        trim_end_by(s, pred) == s.take(k),
    decreases s.len() - k,
{
    if k == s.len() {
        assert(s.take(k) =~= s);
    } else {
        assert(pred(s.last()));
        lemma_trim_end_at(s.drop_last(), pred, k);
        assert(s.drop_last().take(k) =~= s.take(k));
    }
}

/// NFKC normalization by `unicode_normalization`.
#[verifier::external_body]
fn nfkc(text: &str) -> (r: String)
    ensures
        r@ == nfkc_of(text@),
{
    text.nfkc().collect()
}

/// Appends the full case folding of `ch` to `out`.
pub fn casefold_char(ch: char, out: &mut String)
    ensures
        final(out)@ == old(out)@ + casefold_of(ch),
{
    let mut i: usize = 0;
    while i < CASEFOLD_LEN
        invariant
            0 <= i <= CASEFOLD_LEN,
            fold_from(ch, 0) == fold_from(ch, i as int),
            out@ == old(out)@,
        decreases CASEFOLD_LEN - i,
    {
        let entry = CASEFOLD[i];
        if entry.0 == ch {
            if entry.1 != '\0' {
                push_char(out, entry.1);
                if entry.2 != '\0' {
                    push_char(out, entry.2);
                    if entry.3 != '\0' {
                        push_char(out, entry.3);
                    }
                }
            }
            assert(out@ =~= old(out)@ + fold_entry_chars(entry));
            return;
        }
        i = i + 1;
    }
    push_char(out, ch);
    assert(out@ =~= old(out)@ + seq![ch]);
}

/// Full case folding of a text.
pub fn casefold(text: &str) -> (r: String)
    ensures
        r@ == casefold_seq(text@),
{
    let chars = to_chars(text);
    let mut out = String::new();
    let mut i: usize = 0;
    while i < chars.len()
        invariant
            0 <= i <= chars.len(),
            chars@ == text@,
            out@ == casefold_seq(chars@.take(i as int)),
        decreases chars.len() - i,
    {
        casefold_char(chars[i], &mut out);
        assert(chars@.take(i + 1).drop_last() =~= chars@.take(i as int));
        i = i + 1;
    }
    assert(chars@.take(chars.len() as int) =~= chars@);
    out
}

/// `has_text` of a one-longer prefix.
pub proof fn lemma_has_text_push(s: Seq<char>, c: char)
    ensures
        has_text(s.push(c)) == (has_text(s) || !py_space(c)),
{
    if has_text(s) {
        let i = choose|i: int| 0 <= i < s.len() && !py_space(#[trigger] s[i]);
        assert(s.push(c)[i] == s[i]);
    }
    if !py_space(c) {
        assert(s.push(c)[s.len() as int] == c);
    }
    if has_text(s.push(c)) {
        let i = choose|i: int| 0 <= i < s.push(c).len() && !py_space(#[trigger] s.push(c)[i]);
        if i < s.len() {
            assert(s[i] == s.push(c)[i]);
        }
    }
}

/// Collapses Python whitespace runs to one space, dropping leading and
/// trailing whitespace.
pub fn collapse_whitespace(chars: &[char]) -> (r: Vec<char>)
    ensures
        r@ == collapse_ws(chars@),
{
    let mut out: Vec<char> = Vec::new();
    let mut pending_space = false;
    let mut saw_text = false;
    let mut i: usize = 0;
    while i < chars.len()
        invariant
            0 <= i <= chars.len(),
            out@ == collapse_ws(chars@.take(i as int)),
            saw_text == has_text(chars@.take(i as int)),
            pending_space == (saw_text && i > 0 && py_space(chars@[i - 1])),
        decreases chars.len() - i,
    {
        let ch = chars[i];
        let ghost p = chars@.take(i as int);
        assert(chars@.take(i + 1).drop_last() =~= p);
        assert(chars@.take(i + 1) =~= p.push(ch));
        proof {
            lemma_has_text_push(p, ch);
        }
        if is_py_space(ch) {
            pending_space = saw_text;
        } else {
            if pending_space {
                out.push(' ');
            }
            pending_space = false;
            saw_text = true;
            out.push(ch);
        }
        i = i + 1;
    }
    assert(chars@.take(chars.len() as int) =~= chars@);
    out
}

/// The case-folded, whitespace-collapsed form of an NFKC-normalized text.
pub fn normalize_nfkc_text(nfkc_text: &str) -> (r: String)
    ensures
        r@ == collapse_ws(casefold_seq(nfkc_text@)),
{
    let folded = casefold(nfkc_text);
    let chars = to_chars(folded.as_str());
    let collapsed = collapse_whitespace(&chars);
    from_chars(&collapsed)
}

/// `unicodedata.normalize("NFKC", text).casefold()` with `\s+` collapsed to
/// one space and stripped.
pub fn normalize_text(text: &str) -> (r: String)
    ensures
        r@ == normalize_seq(text@),
{
    let nfkc_text = nfkc(text);
    normalize_nfkc_text(nfkc_text.as_str())
}

/// Position of the first non-whitespace scalar, or the length.
fn first_text_index(v: &[char]) -> (k: usize)
    ensures
        k <= v.len(),
        forall|i: int| 0 <= i < k ==> py_space(#[trigger] v@[i]),
        k == v.len() || !py_space(v@[k as int]),
{
    let mut k: usize = 0;
    while k < v.len() && is_py_space(v[k])
        invariant
            k <= v.len(),
            forall|i: int| 0 <= i < k ==> py_space(#[trigger] v@[i]),
        decreases v.len() - k,
    {
        k = k + 1;
    }
    k
}

/// One past the last non-whitespace scalar at or after `lo`, or `lo`.
fn last_text_end(v: &[char], lo: usize) -> (k: usize)
    requires
        lo <= v.len(),
    ensures
        lo <= k <= v.len(),
        forall|i: int| k <= i < v.len() ==> py_space(#[trigger] v@[i]),
        k == lo || !py_space(v@[k - 1]),
{
    let mut k: usize = v.len();
    while k > lo && is_py_space(v[k - 1])
        invariant
            lo <= k <= v.len(),
            forall|i: int| k <= i < v.len() ==> py_space(#[trigger] v@[i]),
        decreases k,
    {
        k = k - 1;
    }
    k
}

/// Python `str.strip()` with the CPython whitespace set.
pub fn py_strip(text: &str) -> (r: &str)
    ensures
        r@ == py_strip_seq(text@),
{
    let v = to_chars(text);
    let a = first_text_index(&v);
    let b = last_text_end(&v, a);
    proof {
        let pred = space_pred();
        lemma_trim_start_at(v@, pred, a as int);
        let t = v@.skip(a as int);
        assert forall|i: int| (b - a) <= i < t.len() implies pred(#[trigger] t[i]) by {
            assert(t[i] == v@[i + a]);
        }
        if b > a {
            assert(t[b - a - 1] == v@[b - 1]);
        }
        lemma_trim_end_at(t, pred, b - a);
        assert(t.take(b - a) =~= v@.subrange(a as int, b as int));
    }
    text.substring_char(a, b)
}

/// Python `str.rstrip()`.
pub fn py_rstrip(text: &str) -> (r: &str)
    ensures
        r@ == py_rstrip_seq(text@),
{
    let v = to_chars(text);
    let b = last_text_end(&v, 0);
    proof {
        lemma_trim_end_at(v@, space_pred(), b as int);
        assert(v@.take(b as int) =~= v@.subrange(0, b as int));
    }
    text.substring_char(0, b)
}

/// Whether `c` lies in U+3400..=U+9FFF.
pub open spec fn cjk(c: char) -> bool {
    0x3400 <= (c as u32) <= 0x9fff
}

/// Whether the text holds a scalar in U+3400..=U+9FFF.
pub fn contains_cjk(text: &str) -> (r: bool)
    ensures
        r == exists|i: int| 0 <= i < text@.len() && cjk(#[trigger] text@[i]),
{
    let v = to_chars(text);
    let mut i: usize = 0;
    while i < v.len()
        invariant
            0 <= i <= v.len(),
            v@ == text@,
            forall|k: int| 0 <= k < i ==> !cjk(#[trigger] v@[k]),
        decreases v.len() - i,
    {
        let c = v[i] as u32;
        if 0x3400 <= c && c <= 0x9fff {
            return true;
        }
        i = i + 1;
    }
    false
}

/// Python `len(str)`: the number of scalar values.
pub fn py_len(text: &str) -> (r: usize)
    ensures
        r == text@.len(),
{
    text.unicode_len()
}

/// Whether `char::is_alphanumeric` holds.
pub uninterp spec fn alphanumeric(c: char) -> bool;

/// Whether `char::is_uppercase` holds.
pub uninterp spec fn uppercase(c: char) -> bool;

/// `char::is_alphanumeric`.
#[verifier::external_body]
fn char_is_alphanumeric(c: char) -> (r: bool)
    ensures
        r == alphanumeric(c),
{
    c.is_alphanumeric()
}

/// `char::is_uppercase`.
#[verifier::external_body]
fn char_is_uppercase(c: char) -> (r: bool)
    ensures
        r == uppercase(c),
{
    c.is_uppercase()
}

/// Whether `char::is_numeric` holds.
pub uninterp spec fn numeric(c: char) -> bool;

/// `char::is_numeric`.
#[verifier::external_body]
pub(crate) fn char_is_numeric(c: char) -> (r: bool)
    ensures
        r == numeric(c),
{
    c.is_numeric()
}

/// Python `\w` membership: underscore plus Unicode alphanumerics.
pub open spec fn word_char(c: char) -> bool {
    c == '_' || alphanumeric(c)
}

/// Python `\w` membership: underscore plus Unicode alphanumerics.
pub fn is_word_char(ch: char) -> (r: bool)
    ensures
        r == word_char(ch),
{
    ch == '_' || char_is_alphanumeric(ch)
}

/// CPython `str.isupper()` for a single scalar.
pub fn is_upper(ch: char) -> (r: bool)
    ensures
        r == uppercase(ch),
{
    char_is_uppercase(ch)
}

/// The quote `repr()` chooses: `"` when the text holds `'` but no `"`.
pub open spec fn repr_quote(s: Seq<char>) -> char {
    if s.contains('\'') && !s.contains('"') {
        '"'
    } else {
        '\''
    }
}

/// `repr()` escape of one scalar inside quotes `q`.
pub open spec fn repr_char(c: char, q: char) -> Seq<char> {
    let v = c as u32;
    if c == '\\' {
        seq!['\\', '\\']
    } else if c == '\n' {
        seq!['\\', 'n']
    } else if c == '\r' {
        seq!['\\', 'r']
    } else if c == '\t' {
        seq!['\\', 't']
    } else if c == q {
        seq!['\\', c]
    } else if v < 0x20 || (0x7f <= v && v <= 0xa0) {
        seq!['\\', 'x'] + hex2(v as nat)
    } else {
        seq![c]
    }
}

/// Escaped scalars of a text inside quotes `q`.
pub open spec fn repr_body(s: Seq<char>, q: char) -> Seq<char>
    decreases s.len(),
{
    if s.len() == 0 {
        Seq::empty()
    } else {
        repr_body(s.drop_last(), q) + repr_char(s.last(), q)
    }
}

/// Python `repr()` of a string.
pub open spec fn py_repr_seq(s: Seq<char>) -> Seq<char> {
    let q = repr_quote(s);
    seq![q] + repr_body(s, q) + seq![q]
}

/// Python `repr()` of a string: single quotes preferred, double quotes when
/// the string contains a single quote only, backslash escapes for control
/// characters.
pub fn py_repr_str(text: &str) -> (r: String)
    ensures
        r@ == py_repr_seq(text@),
{
    let chars = to_chars(text);
    let quote = if contains_char(&chars, '\'') && !contains_char(&chars, '"') {
        '"'
    } else {
        '\''
    };
    let mut out: Vec<char> = Vec::new();
    out.push(quote);
    let mut i: usize = 0;
    while i < chars.len()
        invariant
            0 <= i <= chars.len(),
            chars@ == text@,
            quote == repr_quote(text@),
            out@ == seq![quote] + repr_body(chars@.take(i as int), quote),
        decreases chars.len() - i,
    {
        let c = chars[i];
        let v = c as u32;
        let ghost before = out@;
        if c == '\\' {
            out.push('\\');
            out.push('\\');
        } else if c == '\n' {
            out.push('\\');
            out.push('n');
        } else if c == '\r' {
            out.push('\\');
            out.push('r');
        } else if c == '\t' {
            out.push('\\');
            out.push('t');
        } else if c == quote {
            out.push('\\');
            out.push(c);
        } else if v < 0x20 || (0x7f <= v && v <= 0xa0) {
            out.push('\\');
            out.push('x');
            push_hex2(&mut out, v);
        } else {
            out.push(c);
        }
        assert(out@ =~= before + repr_char(c, quote));
        assert(chars@.take(i + 1).drop_last() =~= chars@.take(i as int));
        i = i + 1;
    }
    out.push(quote);
    assert(chars@.take(chars.len() as int) =~= chars@);
    from_chars(&out)
}

/// `", "`-joined `repr()` of each item.
pub open spec fn repr_join(items: Seq<Seq<char>>) -> Seq<char>
    decreases items.len(),
{
    if items.len() == 0 {
        Seq::empty()
    } else if items.len() == 1 {
        py_repr_seq(items[0])
    } else {
        repr_join(items.drop_last()) + seq![',', ' '] + py_repr_seq(items.last())
    }
}

/// Python `repr()` of a list of strings: `['a', 'b']`.
pub fn py_repr_str_list(items: &[&str]) -> (r: String)
    ensures
        r@ == seq!['['] + repr_join(items@.map_values(|t: &str| t@)) + seq![']'],
{
    let ghost views = items@.map_values(|t: &str| t@);
    let mut out: Vec<char> = Vec::new();
    out.push('[');
    let mut i: usize = 0;
    while i < items.len()
        invariant
            0 <= i <= items.len(),
            views == items@.map_values(|t: &str| t@),
            out@ == seq!['['] + repr_join(views.take(i as int)),
        decreases items.len() - i,
    {
        let ghost before = out@;
        if i > 0 {
            out.push(',');
            out.push(' ');
        }
        let item = py_repr_str(items[i]);
        let item_chars = to_chars(item.as_str());
        extend_chars(&mut out, &item_chars);
        assert(views.take(i + 1).drop_last() =~= views.take(i as int));
        assert(views.take(i + 1).last() == items@[i as int]@);
        if i == 0 {
            assert(out@ =~= seq!['['] + repr_join(views.take(i + 1)));
        } else {
            assert(out@ =~= seq!['['] + repr_join(views.take(i + 1)));
        }
        i = i + 1;
    }
    out.push(']');
    assert(views.take(items.len() as int) =~= views);
    from_chars(&out)
}

} // verus!
