//! Anchors, character grams and anchor presence checks.

use vstd::prelude::*;

use crate::chars::{chars_eq, contains_char, contains_chars, contains_seq, from_chars, to_chars};
use crate::normalize::{cjk, contains_cjk, is_py_space, normalize_seq, normalize_text, py_space};
use crate::pyregex::{ascii_anchor_present, ascii_anchor_seq};

pub mod derive;

verus! {

broadcast use vstd::string::group_string_axioms;

/// A derived or manual anchor of a card.
#[derive(Clone, Debug, PartialEq)]
pub struct Anchor {
    pub value: String,
    pub norm: String,
    pub kind: String,
    pub strong: bool,
    pub manual: bool,
}

impl Anchor {
    /// `"strong"` or `"weak"`.
    pub fn strength(&self) -> (r: &'static str)
        ensures
            self.strong ==> r@ == "strong"@,
            !self.strong ==> r@ == "weak"@,
    {
        if self.strong {
            "strong"
        } else {
            "weak"
        }
    }
}

/// The normalized text with all whitespace removed.
pub open spec fn gram_source(text: Seq<char>) -> Seq<char> {
    normalize_seq(text).filter(|c: char| !py_space(c))
}

/// Sliding three-scalar windows of `s`; a shorter non-empty `s` is its own
/// only gram.
pub open spec fn is_gram(s: Seq<char>, g: Seq<char>) -> bool {
    if s.len() < 3 {
        s.len() > 0 && g == s
    } else {
        exists|i: int| 0 <= i && i + 3 <= s.len() && g == #[trigger] s.subrange(i, i + 3)
    }
}

/// Whether `g` is a window of `s` starting before `at`.
pub open spec fn window_before(s: Seq<char>, at: int, g: Seq<char>) -> bool {
    exists|j: int| 0 <= j && j < at && j + 3 <= s.len() && g == #[trigger] s.subrange(j, j + 3)
}

/// Whether some string of `v` holds `g`.
pub open spec fn listed(v: Seq<String>, g: Seq<char>) -> bool {
    exists|k: int| 0 <= k < v.len() && #[trigger] v[k]@ == g
}

/// The distinct character 3-grams of the normalized, whitespace-free text.
pub fn char_grams(text: &str) -> (r: Vec<String>)
    ensures
        forall|g: Seq<char>| #![trigger is_gram(gram_source(text@), g)] #![trigger listed(r@, g)]
            is_gram(gram_source(text@), g) <==> listed(r@, g),
        forall|a: int, b: int| 0 <= a < b < r.len() ==> r@[a]@ != r@[b]@,
{
    let normalized = normalize_text(text);
    let nv = to_chars(normalized.as_str());
    let mut compact: Vec<char> = Vec::new();
    let mut i: usize = 0;
    while i < nv.len()
        invariant
            i <= nv.len(),
            nv@ == normalize_seq(text@),
            compact@ == nv@.take(i as int).filter(|c: char| !py_space(c)),
        decreases nv.len() - i,
    {
        let ghost prefix = nv@.take(i as int);
        assert(nv@.take(i + 1).drop_last() =~= prefix);
        proof {
            reveal(Seq::filter);
            assert(nv@.take(i + 1) =~= prefix.push(nv@[i as int]));
            assert(nv@.take(i + 1).drop_last() =~= prefix);
        }
        if !is_py_space(nv[i]) {
            compact.push(nv[i]);
        }
        i = i + 1;
    }
    assert(nv@.take(nv.len() as int) =~= nv@);
    let ghost src = gram_source(text@);
    assert(compact@ == src);
    let mut out: Vec<String> = Vec::new();
    let mut grams: Vec<Vec<char>> = Vec::new();
    if compact.len() < 3 {
        if compact.len() > 0 {
            out.push(from_chars(&compact));
        }
        assert forall|g: Seq<char>| #![trigger is_gram(gram_source(text@), g)] #![trigger listed(out@, g)]
            is_gram(gram_source(text@), g) <==> listed(out@, g) by {
            if listed(out@, g) {
                let k = choose|k: int| 0 <= k < out@.len() && #[trigger] out@[k]@ == g;
                assert(k == 0);
            }
            if is_gram(gram_source(text@), g) {
                assert(out@[0]@ == g);
            }
        }
        return out;
    }
    let mut at: usize = 0;
    while at < compact.len() - 2
        invariant
            compact@ == src,
            src.len() >= 3,
            at + 2 <= src.len(),
            out.len() == grams.len(),
            forall|k: int| 0 <= k < out.len() ==> #[trigger] out@[k]@ == grams@[k]@,
            forall|a: int, b: int| 0 <= a < b < out.len() ==> out@[a]@ != out@[b]@,
            forall|g: Seq<char>| #![trigger window_before(src, at as int, g)] #![trigger listed(out@, g)]
                window_before(src, at as int, g) <==> listed(out@, g),
        decreases compact.len() - at,
    {
        let gram = vec![compact[at], compact[at + 1], compact[at + 2]];
        assert(gram@ =~= src.subrange(at as int, at + 3));
        let mut seen = false;
        let mut k: usize = 0;
        while k < grams.len()
            invariant
                k <= grams.len(),
                out.len() == grams.len(),
                forall|j: int| 0 <= j < out.len() ==> #[trigger] out@[j]@ == grams@[j]@,
                seen ==> exists|j: int| 0 <= j < out.len() && #[trigger] out@[j]@ == gram@,
                !seen ==> forall|j: int| 0 <= j < k ==> #[trigger] out@[j]@ != gram@,
            decreases grams.len() - k,
        {
            if !seen && chars_eq(&grams[k], &gram) {
                seen = true;
                assert(out@[k as int]@ == gram@);
            }
            k = k + 1;
        }
        let ghost out_before = out@;
        if !seen {
            out.push(from_chars(&gram));
            grams.push(gram);
        }
        proof {
            assert forall|g: Seq<char>| #![trigger window_before(src, at + 1, g)] #![trigger listed(out@, g)]
                window_before(src, at + 1, g) <==> listed(out@, g) by {
                if window_before(src, at + 1, g) {
                    let j = choose|j: int| 0 <= j && j < at + 1 && j + 3 <= src.len() && g == #[trigger] src.subrange(j, j + 3);
                    if j < at {
                        assert(window_before(src, at as int, g));
                        assert(listed(out_before, g));
                        let k = choose|k: int| 0 <= k < out_before.len() && #[trigger] out_before[k]@ == g;
                        assert(out@[k]@ == g);
                    } else {
                        if !seen {
                            assert(out@[out.len() - 1]@ == g);
                        }
                    }
                }
                if listed(out@, g) {
                    let k = choose|k: int| 0 <= k < out@.len() && #[trigger] out@[k]@ == g;
                    if k < out_before.len() {
                        assert(out_before[k]@ == g);
                        assert(listed(out_before, g));
                        assert(window_before(src, at as int, g));
                        let j = choose|j: int| 0 <= j && j < at && j + 3 <= src.len() && g == #[trigger] src.subrange(j, j + 3);
                        assert(src.subrange(j, j + 3) == g);
                    } else {
                        assert(src.subrange(at as int, at + 3) == g);
                    }
                }
            }
        }
        at = at + 1;
    }
    assert forall|g: Seq<char>| #![trigger is_gram(gram_source(text@), g)] #![trigger listed(out@, g)]
        is_gram(gram_source(text@), g) <==> listed(out@, g) by {
        if is_gram(src, g) {
            let i = choose|i: int| 0 <= i && i + 3 <= src.len() && g == #[trigger] src.subrange(i, i + 3);
            assert(window_before(src, at as int, g));
        }
        if listed(out@, g) {
            assert(window_before(src, at as int, g));
            let j = choose|j: int| 0 <= j && j < at && j + 3 <= src.len() && g == #[trigger] src.subrange(j, j + 3);
            assert(is_gram(src, g));
        }
    }
    out
}

/// Whether `anchor` is present in `text`: as a substring when it holds CJK
/// or one of `/._:-`, otherwise with ASCII word boundaries.
pub open spec fn anchor_present_seq(anchor: Seq<char>, text: Seq<char>) -> bool {
    if (exists|i: int| 0 <= i < anchor.len() && cjk(#[trigger] anchor[i])) || (exists|i: int|
        0 <= i < anchor.len() && "/._:-"@.contains(#[trigger] anchor[i])) {
        contains_seq(text, anchor)
    } else {
        ascii_anchor_seq(anchor, text)
    }
}

/// Anchor presence: substring for CJK or punctuated anchors, ASCII word
/// boundaries otherwise.
pub fn anchor_present(anchor: &str, text: &str) -> (r: bool)
    requires
        anchor@.len() > 0 || ascii_anchor_seq(anchor@, text@),
    ensures
        r == anchor_present_seq(anchor@, text@),
{
    let a = to_chars(anchor);
    let t = to_chars(text);
    let punct = to_chars("/._:-");
    let mut has_punct = false;
    let mut i: usize = 0;
    while i < a.len()
        invariant
            i <= a.len(),
            a@ == anchor@,
            punct@ == "/._:-"@,
            has_punct == exists|j: int| 0 <= j < i && "/._:-"@.contains(#[trigger] a@[j]),
        decreases a.len() - i,
    {
        if contains_char(&punct, a[i]) {
            has_punct = true;
        }
        i = i + 1;
    }
    if contains_cjk(anchor) || has_punct {
        return contains_chars(&t, &a);
    }
    ascii_anchor_present(anchor, text)
}

} // verus!
