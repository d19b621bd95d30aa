//! Canonical text carries a card: the text written for a card reads back as
//! the same card, its entities canonical and its references sorted.

use vstd::prelude::*;

use crate::chars::{decimal, hex_digit, int_text, utf8_len};
use crate::mem::parse::{
    date_shaped, date_start, digit_pred, f_group_end, header_space, header_word, lemma_span_end_at, parse_header_seq,
    scan_line, scan_lines, space_pred_h, span_end, take_digits_seq, valid_status, word_pred, ScanState,
};
use crate::mem::parse::{after, card_error, card_lines, digit_runs_from, has_at, header_card, initial_scan, meta_line, parse_card_result, raw_text_error, saturate, start_scan};
use crate::chars::is_prefix;
use crate::freshness_table::{FRESHNESS_HUNDREDTHS, FRESHNESS_LEN};
use crate::mem::{freshness_days_seq, parse_iso_date_seq, seq_lt, crlf_to_lf, opt_directive, entity_line_seq, meta_lines_seq, supersedes_line_seq, directives_seq, serialize_seq, header_seq, views, Card, freshness_seq, sorted_unique, strictly_increasing, lemma_sorted_unique_eq, ascii_digit, canonical_entities_of, entity_candidates, lemma_canonical_unique, join_comma, ref_items, body_block, canonical_entities_seq, digits_value, hundredths_text, split_on, valid_type, CardModel};
use crate::normalize::{py_space, py_strip_seq, space_pred, trim_end_by, trim_start_by};
use crate::{trunc_div, trust_text_seq, MAX_PUBLIC_ID};

verus! {

/// A decimal digit character and its value.
pub proof fn lemma_digit_char(d: nat)
    requires
        d < 10,
    ensures
        ascii_digit(hex_digit(d)),
        (hex_digit(d) as u32) - ('0' as u32) == d,
{
    assert(hex_digit(d) == ((('0' as u32) + d) as char));
    assert((((('0' as u32) + d) as char) as u32) == ('0' as u32) + d);
}

/// The decimal text of `n` is a run of ASCII digits whose value is `n`.
pub proof fn lemma_decimal(n: nat)
    ensures
        decimal(n).len() >= 1,
        forall|k: int| 0 <= k < decimal(n).len() ==> ascii_digit(#[trigger] decimal(n)[k]),
        digits_value(decimal(n)) == n,
    decreases n,
{
    lemma_digit_char(n % 10);
    if n < 10 {
        assert(decimal(n) == seq![hex_digit(n)]);
        assert(seq![hex_digit(n)].drop_last() =~= Seq::<char>::empty());
        assert(digits_value(decimal(n)) == digits_value(Seq::<char>::empty()) * 10 + ((hex_digit(n) as u32) - ('0' as u32)));
    } else {
        lemma_decimal(n / 10);
        let d = decimal(n);
        assert(d == decimal(n / 10).push(hex_digit(n % 10)));
        assert(d.drop_last() =~= decimal(n / 10));
        assert(digits_value(d) == digits_value(decimal(n / 10)) * 10 + ((hex_digit(n % 10) as u32) - ('0' as u32)));
        assert forall|k: int| 0 <= k < d.len() implies ascii_digit(#[trigger] d[k]) by {
            if k < d.len() - 1 {
                assert(d[k] == decimal(n / 10)[k]);
            }
        }
    }
}

/// Appending text free of `sep` extends the last piece.
pub proof fn lemma_split_append_plain(a: Seq<char>, s: Seq<char>, sep: char)
    requires
        !s.contains(sep),
    ensures
        split_on(a + s, sep) == split_on(a, sep).update(
            split_on(a, sep).len() - 1,
            split_on(a, sep).last() + s,
        ),
    decreases s.len(),
{
    crate::mem::lemma_split_nonempty(a, sep);
    if s.len() == 0 {
        assert(a + s =~= a);
        let p = split_on(a, sep);
        assert(p.last() + s =~= p.last());
        assert(p.update(p.len() - 1, p.last()) =~= p);
    } else {
        let s2 = s.drop_last();
        assert(!s2.contains(sep)) by {
            if s2.contains(sep) {
                let k = choose|k: int| 0 <= k < s2.len() && s2[k] == sep;
                assert(s[k] == sep);
            }
        }
        lemma_split_append_plain(a, s2, sep);
        assert((a + s).drop_last() =~= a + s2);
        assert((a + s).last() == s.last());
        assert(s.last() != sep) by {
            assert(s[s.len() - 1] == s.last());
        }
        let p = split_on(a, sep);
        let q = split_on(a + s2, sep);
        assert(q.len() == p.len());
        assert(q.last() == p.last() + s2);
        assert(split_on(a + s, sep) == q.update(q.len() - 1, q.last().push(s.last())));
        assert(p.last() + s2 + seq![s.last()] =~= p.last() + s);
        assert(q.last().push(s.last()) =~= p.last() + s);
        assert forall|i: int| 0 <= i < p.len() - 1 implies q[i] == p[i] by {
            assert(q == p.update(p.len() - 1, p.last() + s2));
        }
        assert(q.update(q.len() - 1, q.last().push(s.last())) =~= p.update(p.len() - 1, p.last() + s));
    }
}

/// Lines free of line feeds, each followed by a line feed, split back into
/// the lines and a final empty piece.
pub proof fn lemma_split_lines(lines: Seq<Seq<char>>)
    requires
        forall|i: int| 0 <= i < lines.len() ==> !(#[trigger] lines[i]).contains('\n'),
    ensures
        split_on(body_block(lines), '\n') == lines.push(Seq::empty()),
    decreases lines.len(),
{
    if lines.len() == 0 {
        assert(body_block(lines) =~= Seq::<char>::empty());
        assert(split_on(Seq::<char>::empty(), '\n') == seq![Seq::<char>::empty()]);
        assert(lines.push(Seq::empty()) =~= seq![Seq::<char>::empty()]);
    } else {
        let init = lines.drop_last();
        lemma_split_lines(init);
        let x = body_block(init);
        let line = lines.last();
        assert(!line.contains('\n')) by {
            assert(lines[lines.len() - 1] == line);
        }
        lemma_split_append_plain(x, line, '\n');
        let p = split_on(x, '\n');
        assert(p == init.push(Seq::empty()));
        let q = split_on(x + line, '\n');
        assert(q =~= init.push(line)) by {
            assert(p.last() + line =~= line);
        }
        assert(body_block(lines) =~= (x + line).push('\n')) by {
            reveal_strlit("\n");
        }
        assert((x + line).push('\n').drop_last() =~= x + line);
        assert(split_on(body_block(lines), '\n') == q.push(Seq::empty()));
        assert(init.push(line) =~= lines);
    }
}

/// Scanning two runs of lines is scanning the first, then the second.
pub proof fn lemma_scan_concat(st: ScanState, a: Seq<Seq<char>>, b: Seq<Seq<char>>)
    ensures
        scan_lines(st, a + b) == (match scan_lines(st, a) {
            Ok(s2) => scan_lines(s2, b),
            Err(m) => Err(m),
        }),
    decreases b.len(),
{
    if b.len() == 0 {
        assert(a + b =~= a);
    } else {
        lemma_scan_concat(st, a, b.drop_last());
        assert((a + b).drop_last() =~= a + b.drop_last());
        assert((a + b).last() == b.last());
    }
}


/// A decimal text standing at `i`, followed by a non-digit or the end, is
/// read as its value.
pub proof fn lemma_digits_at(s: Seq<char>, i: int, v: nat)
    requires
        0 <= i,
        i + decimal(v).len() <= s.len(),
        s.subrange(i, i + decimal(v).len()) == decimal(v),
        i + decimal(v).len() == s.len() || !ascii_digit(s[i + decimal(v).len()]),
        v <= i64::MAX,
    ensures
        take_digits_seq(s, i) == Some((v as int, i + decimal(v).len())),
{
    let d = decimal(v);
    lemma_decimal(v);
    assert forall|k: int| i <= k < i + d.len() implies (digit_pred())(#[trigger] s[k]) by {
        assert(s[k] == s.subrange(i, i + d.len())[k - i]);
    }
    lemma_span_end_at(s, i, i + d.len(), digit_pred());
}

/// A run of `pred` characters at `i..j`, followed by a non-`pred` character
/// or the end, spans exactly to `j`.
pub proof fn lemma_run(s: Seq<char>, i: int, j: int, pred: spec_fn(char) -> bool)
    requires
        0 <= i <= j <= s.len(),
        forall|k: int| i <= k < j ==> pred(#[trigger] s[k]),
        j == s.len() || !pred(s[j]),
    ensures
        span_end(s, i, pred) == j,
{
    lemma_span_end_at(s, i, j, pred);
}

/// At most two digits have a value of at most 99.
proof fn lemma_digits_value_bound(s: Seq<char>)
    requires
        s.len() <= 2,
        forall|k: int| 0 <= k < s.len() ==> ascii_digit(#[trigger] s[k]),
    ensures
        digits_value(s) <= 99,
{
    if s.len() > 0 {
        assert(ascii_digit(s[s.len() - 1]));
        let last = ((s.last() as u32) - ('0' as u32)) as int;
        assert(last <= 9);
        assert(digits_value(s) == digits_value(s.drop_last()) * 10 + last);
        if s.len() == 2 {
            assert(ascii_digit(s[0]));
            let t = s.drop_last();
            assert(t.drop_last() =~= Seq::<char>::empty());
            assert(t.last() == s[0]);
            let first = ((s[0] as u32) - ('0' as u32)) as int;
            assert(digits_value(t) == digits_value(t.drop_last()) * 10 + first);
            assert(digits_value(t.drop_last()) == 0);
        } else {
            assert(s.drop_last() =~= Seq::<char>::empty());
            assert(digits_value(s.drop_last()) == 0);
        }
    }
}

/// The freshness text shape: `0` or `1`, a dot, and one or more digits.
pub open spec fn fresh_shaped(f: Seq<char>) -> bool {
    &&& 3 <= f.len() <= 4
    &&& (f[0] == '0' || f[0] == '1')
    &&& f[1] == '.'
    &&& forall|k: int| 2 <= k < f.len() ==> ascii_digit(#[trigger] f[k])
}

/// Every hundredths text has the freshness shape.
pub proof fn lemma_hundredths_shaped(h: nat)
    ensures
        fresh_shaped(hundredths_text(h)),
{
    reveal_strlit("1.0");
    if h < 100 {
        lemma_digit_char(h / 10);
        lemma_digit_char(h % 10);
        assert(hex_digit(0) == '0') by {
            assert(hex_digit(0) == ((('0' as u32) + 0) as char));
        }
    }
}

/// The header line of a card, without its line feed.
pub open spec fn header_text(id: int, ty: Seq<char>, st: Seq<char>, imp: int, units: int, f: Seq<char>, u: Seq<char>) -> Seq<char> {
    "@"@ + int_text(id) + " "@ + ty + " "@ + st + " I"@ + int_text(imp) + " T"@ + trust_text_seq(units) + " F"@ + f
        + " "@ + u
}

/// The card types and states are runs of word characters.
proof fn lemma_words(ty: Seq<char>, st: Seq<char>)
    requires
        valid_type(ty),
        valid_status(st),
    ensures
        ty.len() > 0,
        st.len() > 0,
        forall|k: int| 0 <= k < ty.len() ==> header_word(#[trigger] ty[k]),
        forall|k: int| 0 <= k < st.len() ==> header_word(#[trigger] st[k]),
{
    reveal_strlit("fact");
    reveal_strlit("decision");
    reveal_strlit("skill");
    reveal_strlit("candidate");
    reveal_strlit("published");
    reveal_strlit("archived");
    reveal_strlit("tombstone");
}


/// The trust text of fixed-point units: one digit, and `.5` when odd.
proof fn lemma_trust_text(units: int)
    requires
        0 <= units <= 6,
    ensures
        trust_text_seq(units) == (if units % 2 == 1 { decimal((units / 2) as nat) + seq!['.', '5'] } else { decimal(
            (units / 2) as nat,
        ) }),
        decimal((units / 2) as nat) == seq![hex_digit((units / 2) as nat)],
{
    reveal_strlit(".5");
    assert(trunc_div(units, 2) == units / 2);
}

/// Where the fields of a header line stand.
#[verifier::rlimit(100)]
#[verifier::spinoff_prover]
proof fn lemma_header_layout(a: Seq<char>, ty: Seq<char>, st: Seq<char>, b: char, c: char, odd: bool, f: Seq<char>, u: Seq<char>)
    ensures
        ({
            let tr = if odd { seq![c, '.', '5'] } else { seq![c] };
            let s = a + seq![' '] + ty + seq![' '] + st + seq![' ', 'I', b, ' ', 'T'] + tr + seq![' ', 'F'] + f + seq![' '] + u;
            let la = a.len() as int;
            let p3 = la + 1 + ty.len();
            let p5 = p3 + 1 + st.len();
            let p10 = p5 + 6 + (if odd { 2int } else { 0int });
            let fe = p10 + 2 + f.len();
            &&& s.len() == fe + 1 + u.len()
            &&& s.subrange(0, la) == a
            &&& s[la] == ' '
            &&& s.subrange(la + 1, p3) == ty
            &&& s[p3] == ' '
            &&& s.subrange(p3 + 1, p5) == st
            &&& s[p5] == ' '
            &&& s[p5 + 1] == 'I'
            &&& s[p5 + 2] == b
            &&& s[p5 + 3] == ' '
            &&& s[p5 + 4] == 'T'
            &&& s[p5 + 5] == c
            &&& (odd ==> s[p5 + 6] == '.' && s[p5 + 7] == '5')
            &&& s[p10] == ' '
            &&& s[p10 + 1] == 'F'
            &&& s.subrange(p10 + 2, fe) == f
            &&& s[fe] == ' '
            &&& s.subrange(fe + 1, s.len() as int) == u
        }),
{
    let tr = if odd { seq![c, '.', '5'] } else { seq![c] };
    let s = a + seq![' '] + ty + seq![' '] + st + seq![' ', 'I', b, ' ', 'T'] + tr + seq![' ', 'F'] + f + seq![' '] + u;
    let la = a.len() as int;
    let p3 = la + 1 + ty.len();
    let p5 = p3 + 1 + st.len();
    let p10 = p5 + 6 + (if odd { 2int } else { 0int });
    let fe = p10 + 2 + f.len();
    assert(s.subrange(0, la) =~= a);
    assert(s.subrange(la + 1, p3) =~= ty);
    assert(s.subrange(p3 + 1, p5) =~= st);
    assert(s.subrange(p10 + 2, fe) =~= f);
    assert(s.subrange(fe + 1, s.len() as int) =~= u);
}

/// A well-formed header line reads back as its fields.
#[verifier::rlimit(100)]
#[verifier::spinoff_prover]
pub proof fn lemma_header_parses(id: int, ty: Seq<char>, st: Seq<char>, imp: int, units: int, f: Seq<char>, u: Seq<char>)
    requires
        0 <= id <= MAX_PUBLIC_ID,
        valid_type(ty),
        valid_status(st),
        0 <= imp <= 3,
        0 <= units <= 6,
        fresh_shaped(f),
        date_shaped(u),
    ensures
        parse_header_seq(header_text(id, ty, st, imp, units, f, u)) == Some((id, ty, st, imp, units, u)),
{
    reveal_strlit("@");
    reveal_strlit(" ");
    reveal_strlit(" I");
    reveal_strlit(" T");
    reveal_strlit(" F");
    lemma_words(ty, st);
    let a = decimal(id as nat);
    let tw = units / 2;
    let odd = units % 2 == 1;
    lemma_decimal(id as nat);
    lemma_decimal(imp as nat);
    lemma_digit_char(imp as nat);
    lemma_digit_char(tw as nat);
    lemma_trust_text(units);
    assert(decimal(imp as nat) == seq![hex_digit(imp as nat)]);
    let bch = hex_digit(imp as nat);
    let cch = hex_digit(tw as nat);
    let tr = if odd { seq![cch, '.', '5'] } else { seq![cch] };
    assert(trust_text_seq(units) =~= tr);
    let line = header_text(id, ty, st, imp, units, f, u);
    let s1 = a + seq![' '] + ty + seq![' '] + st;
    let s2 = s1 + seq![' ', 'I', bch, ' ', 'T'] + tr;
    let s = s2 + seq![' ', 'F'] + f + seq![' '] + u;
    let l1 = "@"@ + int_text(id) + " "@ + ty + " "@ + st;
    assert(l1 =~= seq!['@'] + s1);
    let l2 = l1 + " I"@ + int_text(imp) + " T"@ + trust_text_seq(units);
    assert(l2 =~= seq!['@'] + s2);
    assert(line == l2 + " F"@ + f + " "@ + u);
    assert(line =~= seq!['@'] + s);
    lemma_header_layout(a, ty, st, bch, cch, odd, f, u);
    assert(header_laid_out(s, id, ty, st, imp, units, f, u));
    header_read(s, id, ty, st, imp, units, f, u);
}

/// The positions of a laid-out header: `s` (the line after `@`) holds the
/// id, type, status, importance, trust, freshness and date with single
/// spaces between them.
pub open spec fn header_laid_out(s: Seq<char>, id: int, ty: Seq<char>, st: Seq<char>, imp: int, units: int, f: Seq<char>, u: Seq<char>) -> bool {
    let a = decimal(id as nat);
    let odd = units % 2 == 1;
    let la = a.len() as int;
    let p3 = la + 1 + ty.len();
    let p5 = p3 + 1 + st.len();
    let p10 = p5 + 6 + (if odd { 2int } else { 0int });
    let fe = p10 + 2 + f.len();
    &&& s.len() == fe + 1 + u.len()
    &&& s.subrange(0, la) == a
    &&& s[la] == ' '
    &&& s.subrange(la + 1, p3) == ty
    &&& s[p3] == ' '
    &&& s.subrange(p3 + 1, p5) == st
    &&& s[p5] == ' '
    &&& s[p5 + 1] == 'I'
    &&& s[p5 + 2] == hex_digit(imp as nat)
    &&& s[p5 + 3] == ' '
    &&& s[p5 + 4] == 'T'
    &&& s[p5 + 5] == hex_digit((units / 2) as nat)
    &&& (odd ==> s[p5 + 6] == '.' && s[p5 + 7] == '5')
    &&& s[p10] == ' '
    &&& s[p10 + 1] == 'F'
    &&& s.subrange(p10 + 2, fe) == f
    &&& s[fe] == ' '
    &&& s.subrange(fe + 1, s.len() as int) == u
}

/// The id, type and status of a laid-out header.
#[verifier::rlimit(60)]
proof fn header_front(s: Seq<char>, id: int, ty: Seq<char>, st: Seq<char>, imp: int, units: int, f: Seq<char>, u: Seq<char>)
    requires
        0 <= id <= MAX_PUBLIC_ID,
        ty.len() > 0,
        st.len() > 0,
        forall|k: int| 0 <= k < ty.len() ==> header_word(#[trigger] ty[k]),
        forall|k: int| 0 <= k < st.len() ==> header_word(#[trigger] st[k]),
        0 <= imp <= 3,
        0 <= units <= 6,
        fresh_shaped(f),
        date_shaped(u),
        header_laid_out(s, id, ty, st, imp, units, f, u),
    ensures
        ({
            let la = decimal(id as nat).len() as int;
            let p3 = la + 1 + ty.len();
            let p5 = p3 + 1 + st.len();
            &&& take_digits_seq(s, 0) == Some((id, la))
            &&& span_end(s, la, space_pred_h()) == la + 1
            &&& span_end(s, la + 1, word_pred()) == p3
            &&& span_end(s, p3, space_pred_h()) == p3 + 1
            &&& span_end(s, p3 + 1, word_pred()) == p5
            &&& span_end(s, p5, space_pred_h()) == p5 + 1
            &&& s.subrange(la + 1, p3) == ty
            &&& s.subrange(p3 + 1, p5) == st
        }),
{
    let a = decimal(id as nat);
    let la = a.len() as int;
    let p2 = la + 1;
    let p3 = la + 1 + ty.len();
    let p4 = p3 + 1;
    let p5 = p3 + 1 + st.len();
    lemma_decimal(id as nat);
    assert forall|k: int| p2 <= k < p3 implies (word_pred())(#[trigger] s[k]) by {
        assert(s[k] == s.subrange(p2, p3)[k - p2]);
    }
    assert forall|k: int| p4 <= k < p5 implies (word_pred())(#[trigger] s[k]) by {
        assert(s[k] == s.subrange(p4, p5)[k - p4]);
    }
    assert(s[p2] == ty[0]) by {
        assert(s[p2] == s.subrange(p2, p3)[0]);
    }
    assert(s[p4] == st[0]) by {
        assert(s[p4] == s.subrange(p4, p5)[0]);
    }
    lemma_digits_at(s, 0, id as nat);
    lemma_run(s, la, p2, space_pred_h());
    lemma_run(s, p2, p3, word_pred());
    lemma_run(s, p3, p4, space_pred_h());
    lemma_run(s, p4, p5, word_pred());
    lemma_run(s, p5, p5 + 1, space_pred_h());
}

/// The importance and trust of a laid-out header.
#[verifier::rlimit(60)]
proof fn header_middle(s: Seq<char>, id: int, ty: Seq<char>, st: Seq<char>, imp: int, units: int, f: Seq<char>, u: Seq<char>)
    requires
        0 <= id <= MAX_PUBLIC_ID,
        ty.len() > 0,
        st.len() > 0,
        forall|k: int| 0 <= k < ty.len() ==> header_word(#[trigger] ty[k]),
        forall|k: int| 0 <= k < st.len() ==> header_word(#[trigger] st[k]),
        0 <= imp <= 3,
        0 <= units <= 6,
        fresh_shaped(f),
        date_shaped(u),
        header_laid_out(s, id, ty, st, imp, units, f, u),
    ensures
        ({
            let la = decimal(id as nat).len() as int;
            let p5 = la + 1 + ty.len() + 1 + st.len();
            let p9 = p5 + 6;
            &&& take_digits_seq(s, p5 + 2) == Some((imp, p5 + 3))
            &&& span_end(s, p5 + 3, space_pred_h()) == p5 + 4
            &&& take_digits_seq(s, p5 + 5) == Some((units / 2, p9))
            &&& has_at(s, p9, seq!['.', '5']) == (units % 2 == 1)
        }),
{
    let a = decimal(id as nat);
    let la = a.len() as int;
    let p5 = la + 1 + ty.len() + 1 + st.len();
    let p9 = p5 + 6;
    let tw = units / 2;
    lemma_digit_char(imp as nat);
    lemma_digit_char(tw as nat);
    lemma_decimal(imp as nat);
    lemma_decimal(tw as nat);
    assert(decimal(imp as nat) == seq![hex_digit(imp as nat)]);
    assert(decimal(tw as nat) == seq![hex_digit(tw as nat)]);
    assert(s.subrange(p5 + 2, p5 + 3) =~= decimal(imp as nat));
    lemma_digits_at(s, p5 + 2, imp as nat);
    lemma_run(s, p5 + 3, p5 + 4, space_pred_h());
    assert(s.subrange(p5 + 5, p5 + 6) =~= decimal(tw as nat));
    lemma_digits_at(s, p5 + 5, tw as nat);
    if units % 2 == 1 {
        assert(s.subrange(p9, p9 + 2) =~= seq!['.', '5']);
    } else {
        assert(s.subrange(p9, p9 + 2) != seq!['.', '5']) by {
            assert(s.subrange(p9, p9 + 2)[0] == ' ');
        }
    }
}

/// The freshness group and the date of a laid-out header.
#[verifier::rlimit(60)]
proof fn header_back(s: Seq<char>, id: int, ty: Seq<char>, st: Seq<char>, imp: int, units: int, f: Seq<char>, u: Seq<char>)
    requires
        0 <= id <= MAX_PUBLIC_ID,
        ty.len() > 0,
        st.len() > 0,
        forall|k: int| 0 <= k < ty.len() ==> header_word(#[trigger] ty[k]),
        forall|k: int| 0 <= k < st.len() ==> header_word(#[trigger] st[k]),
        0 <= imp <= 3,
        0 <= units <= 6,
        fresh_shaped(f),
        date_shaped(u),
        header_laid_out(s, id, ty, st, imp, units, f, u),
    ensures
        ({
            let la = decimal(id as nat).len() as int;
            let p5 = la + 1 + ty.len() + 1 + st.len();
            let p10 = p5 + 6 + (if units % 2 == 1 { 2int } else { 0int });
            let ds = p10 + 3 + f.len();
            &&& date_start(s, p10) == Some(ds)
            &&& ds < s.len()
            &&& s.subrange(ds, s.len() as int) == u
        }),
{
    let a = decimal(id as nat);
    let la = a.len() as int;
    let p5 = la + 1 + ty.len() + 1 + st.len();
    let p10 = p5 + 6 + (if units % 2 == 1 { 2int } else { 0int });
    let fpos = p10 + 1;
    let fe = p10 + 2 + f.len();
    let ds = fe + 1;
    lemma_run(s, p10, fpos, space_pred_h());
    let fd: nat = if f[0] == '0' { 0 } else { 1 };
    lemma_digit_char(fd);
    assert(hex_digit(fd) == f[0]) by {
        assert(hex_digit(0) == ((('0' as u32) + 0) as char));
        assert(hex_digit(1) == ((('0' as u32) + 1) as char));
    }
    assert(s[fpos + 1] == f[0]) by {
        assert(s[fpos + 1] == s.subrange(fpos + 1, fe)[0]);
    }
    assert(s[fpos + 2] == f[1]) by {
        assert(s[fpos + 2] == s.subrange(fpos + 1, fe)[1]);
    }
    assert(decimal(fd) == seq![hex_digit(fd)]);
    assert(s.subrange(fpos + 1, fpos + 2) =~= decimal(fd));
    lemma_digits_at(s, fpos + 1, fd);
    assert forall|k: int| fpos + 3 <= k < fe implies (digit_pred())(#[trigger] s[k]) by {
        assert(s[k] == s.subrange(fpos + 1, fe)[k - fpos - 1]);
    }
    lemma_run(s, fpos + 3, fe, digit_pred());
    let frac = s.subrange(fpos + 3, fe);
    assert forall|k: int| 0 <= k < frac.len() implies ascii_digit(#[trigger] frac[k]) by {
        assert(frac[k] == s[fpos + 3 + k]);
        assert((digit_pred())(s[fpos + 3 + k]));
    }
    lemma_digits_value_bound(frac);
    assert(f_group_end(s, fpos) == Some(fe));
    assert(s[ds] == u[0]) by {
        assert(s[ds] == s.subrange(ds, s.len() as int)[0]);
    }
    assert(ascii_digit(u[0]));
    lemma_run(s, fe, ds, space_pred_h());
}

/// Reading the fields of a laid-out header.
#[verifier::rlimit(60)]
proof fn header_read(s: Seq<char>, id: int, ty: Seq<char>, st: Seq<char>, imp: int, units: int, f: Seq<char>, u: Seq<char>)
    requires
        0 <= id <= MAX_PUBLIC_ID,
        ty.len() > 0,
        st.len() > 0,
        forall|k: int| 0 <= k < ty.len() ==> header_word(#[trigger] ty[k]),
        forall|k: int| 0 <= k < st.len() ==> header_word(#[trigger] st[k]),
        0 <= imp <= 3,
        0 <= units <= 6,
        fresh_shaped(f),
        date_shaped(u),
        header_laid_out(s, id, ty, st, imp, units, f, u),
    ensures
        parse_header_seq(seq!['@'] + s) == Some((id, ty, st, imp, units, u)),
{
    let line = seq!['@'] + s;
    assert(line.drop_first() =~= s);
    header_front(s, id, ty, st, imp, units, f, u);
    header_middle(s, id, ty, st, imp, units, f, u);
    header_back(s, id, ty, st, imp, units, f, u);
}


proof fn lemma_trim_start_len(s: Seq<char>, pred: spec_fn(char) -> bool)
    ensures
        trim_start_by(s, pred).len() <= s.len(),
    decreases s.len(),
{
    if s.len() > 0 && pred(s[0]) {
        lemma_trim_start_len(s.drop_first(), pred);
    }
}

proof fn lemma_trim_end_len(s: Seq<char>, pred: spec_fn(char) -> bool)
    ensures
        trim_end_by(s, pred).len() <= s.len(),
        s.len() > 0 && !pred(s[0]) ==> trim_end_by(s, pred).len() >= 1,
    decreases s.len(),
{
    if s.len() > 0 && pred(s.last()) {
        lemma_trim_end_len(s.drop_last(), pred);
        if s.len() > 1 {
            assert(s.drop_last()[0] == s[0]);
        }
    }
}

/// A text with non-blank ends is its own stripped form.
pub proof fn lemma_strip_plain(s: Seq<char>)
    requires
        s.len() > 0,
        !py_space(s[0]),
        !py_space(s.last()),
    ensures
        py_strip_seq(s) == s,
{
    assert(trim_start_by(s, space_pred()) == s);
    assert(trim_end_by(s, space_pred()) == s);
}

/// A text starting with a non-blank character strips to a non-empty text.
pub proof fn lemma_strip_nonempty(s: Seq<char>)
    requires
        s.len() > 0,
        !py_space(s[0]),
    ensures
        py_strip_seq(s).len() > 0,
{
    assert(trim_start_by(s, space_pred()) == s);
    lemma_trim_end_len(s, space_pred());
}

/// A stripped non-empty text has non-blank ends.
pub proof fn lemma_stripped_ends(v: Seq<char>)
    requires
        py_strip_seq(v) == v,
        v.len() > 0,
    ensures
        !py_space(v[0]),
        !py_space(v.last()),
{
    let t = trim_start_by(v, space_pred());
    lemma_trim_start_len(v, space_pred());
    lemma_trim_end_len(t, space_pred());
    if py_space(v[0]) {
        lemma_trim_start_len(v.drop_first(), space_pred());
        assert(false);
    }
    assert(t == v);
    if py_space(v.last()) {
        lemma_trim_end_len(v.drop_last(), space_pred());
        assert(false);
    }
}

/// `s` does not start with `p` when they differ at a position of `p`.
proof fn lemma_not_prefix(s: Seq<char>, p: Seq<char>, k: int)
    requires
        0 <= k < p.len(),
        k < s.len(),
        s[k] != p[k],
    ensures
        !is_prefix(s, p),
{
    if is_prefix(s, p) {
        assert(s.take(p.len() as int)[k] == s[k]);
    }
}

/// `p + x` starts with `p`, and what follows it is `x`.
proof fn lemma_prefix_of_sum(p: Seq<char>, x: Seq<char>)
    ensures
        is_prefix(p + x, p),
        after(p + x, p) == x,
{
    assert((p + x).take(p.len() as int) =~= p);
    assert((p + x).skip(p.len() as int) =~= x);
}

/// An entity line sets the entities.
proof fn lemma_scan_entity(st: ScanState, rest: Seq<char>)
    requires
        !st.title_set,
        !st.entity_seen,
    ensures
        scan_line(st, "= "@ + rest) == Ok::<ScanState, Seq<char>>(ScanState {
            card: CardModel { entities: canonical_entities_seq(split_on(rest, ',')), ..st.card },
            entity_seen: true,
            ..st
        }),
{
    reveal(scan_line);
    reveal_strlit("= ");
    let line = "= "@ + rest;
    assert(line[0] == '=');
    lemma_strip_nonempty(line);
    lemma_prefix_of_sum("= "@, rest);
}

/// A source line sets the source.
proof fn lemma_scan_source(st: ScanState, src: Seq<char>)
    requires
        !st.title_set,
        !st.source_seen,
        py_strip_seq(src) == src,
        src.len() > 0,
    ensures
        scan_line(st, "~ "@ + src) == Ok::<ScanState, Seq<char>>(ScanState {
            card: CardModel { source: src, ..st.card },
            source_seen: true,
            ..st
        }),
{
    reveal(scan_line);
    reveal_strlit("= ");
    reveal_strlit("~ ");
    let line = "~ "@ + src;
    assert(line[0] == '~');
    lemma_strip_nonempty(line);
    lemma_not_prefix(line, "= "@, 0);
    lemma_prefix_of_sum("~ "@, src);
}

/// A `# ` line hands its stripped rest to the directive rules.
proof fn lemma_scan_meta(st: ScanState, m: Seq<char>)
    requires
        !st.title_set,
        m.len() > 0,
        !py_space(m[0]),
        !py_space(m.last()),
    ensures
        scan_line(st, "# "@ + m) == meta_line(st, m),
{
    reveal(scan_line);
    reveal_strlit("= ");
    reveal_strlit("~ ");
    reveal_strlit("# ");
    let line = "# "@ + m;
    assert(line[0] == '#');
    lemma_strip_nonempty(line);
    lemma_not_prefix(line, "= "@, 0);
    lemma_not_prefix(line, "~ "@, 0);
    lemma_prefix_of_sum("# "@, m);
    lemma_strip_plain(m);
}

/// The title line sets the title.
proof fn lemma_scan_title(st: ScanState, t: Seq<char>)
    requires
        !st.title_set,
        py_strip_seq(t).len() > 0,
        t.len() > 0 ==> t[0] != '=' && t[0] != '~' && t[0] != '#',
    ensures
        scan_line(st, t) == Ok::<ScanState, Seq<char>>(ScanState {
            card: CardModel { title: t, ..st.card },
            title_set: true,
            ..st
        }),
{
    reveal(scan_line);
    reveal_strlit("= ");
    reveal_strlit("~ ");
    reveal_strlit("# ");
    if t.len() == 0 {
        assert(t =~= Seq::<char>::empty());
        assert(py_strip_seq(t).len() == 0);
    }
    lemma_not_prefix(t, "= "@, 0);
    lemma_not_prefix(t, "~ "@, 0);
    lemma_not_prefix(t, "# "@, 0);
}

/// After the title, every line is a body line.
proof fn lemma_scan_body(st: ScanState, b: Seq<Seq<char>>)
    requires
        st.title_set,
    ensures
        scan_lines(st, b) == Ok::<ScanState, Seq<char>>(ScanState {
            card: CardModel { body: st.card.body + b, ..st.card },
            ..st
        }),
    decreases b.len(),
{
    reveal(scan_line);
    if b.len() == 0 {
        assert(st.card.body + b =~= st.card.body);
    } else {
        lemma_scan_body(st, b.drop_last());
        assert(st.card.body + b.drop_last() + seq![b.last()] =~= st.card.body + b);
        assert((st.card.body + b.drop_last()).push(b.last()) =~= st.card.body + b);
    }
}

/// `# format 1` marks the format once.
proof fn lemma_meta_format(st: ScanState)
    requires
        !st.format_seen,
    ensures
        meta_line(st, "format 1"@) == Ok::<ScanState, Seq<char>>(ScanState { format_seen: true, ..st }),
{
    lemma_meta_labels();
    assert("format 1"@ != "lock"@) by {
        assert("format 1"@.len() != "lock"@.len());
    }
}

/// `# lock` locks the card.
proof fn lemma_meta_lock(st: ScanState)
    ensures
        meta_line(st, "lock"@) == Ok::<ScanState, Seq<char>>(ScanState { card: CardModel { lock: true, ..st.card }, ..st }),
{
}

/// The labelled directives, told apart by their first characters.
proof fn lemma_meta_labels()
    ensures
        "lock"@ == seq!['l', 'o', 'c', 'k'],
        "format 1"@ == seq!['f', 'o', 'r', 'm', 'a', 't', ' ', '1'],
        "scope "@ == seq!['s', 'c', 'o', 'p', 'e', ' '],
        "last-used "@ == seq!['l', 'a', 's', 't', '-', 'u', 's', 'e', 'd', ' '],
        "valid-from "@ == seq!['v', 'a', 'l', 'i', 'd', '-', 'f', 'r', 'o', 'm', ' '],
        "valid-to "@ == seq!['v', 'a', 'l', 'i', 'd', '-', 't', 'o', ' '],
        "supersedes "@ == seq!['s', 'u', 'p', 'e', 'r', 's', 'e', 'd', 'e', 's', ' '],
{
    reveal_strlit("lock");
    reveal_strlit("format 1");
    reveal_strlit("scope ");
    reveal_strlit("last-used ");
    reveal_strlit("valid-from ");
    reveal_strlit("valid-to ");
    reveal_strlit("supersedes ");
}

/// `# scope <v>` sets the scope.
proof fn lemma_meta_scope(st: ScanState, v: Seq<char>)
    requires
        py_strip_seq(v) == v,
    ensures
        meta_line(st, "scope "@ + v) == Ok::<ScanState, Seq<char>>(ScanState { card: CardModel { scope: v, ..st.card }, ..st }),
{
    lemma_meta_labels();
    let m = "scope "@ + v;
    assert(m != "lock"@) by {
        assert(m[0] != "lock"@[0]);
    }
    assert(m != "format 1"@) by {
        assert(m[0] != "format 1"@[0]);
    }
    lemma_prefix_of_sum("scope "@, v);
}

/// `# last-used <v>` sets the last-use date.
proof fn lemma_meta_last_used(st: ScanState, v: Seq<char>)
    requires
        py_strip_seq(v) == v,
    ensures
        meta_line(st, "last-used "@ + v) == Ok::<ScanState, Seq<char>>(ScanState { card: CardModel { last_used: v, ..st.card }, ..st }),
{
    lemma_meta_labels();
    let m = "last-used "@ + v;
    assert(m != "lock"@) by {
        assert(m[1] != "lock"@[1]);
    }
    assert(m != "format 1"@) by {
        assert(m[0] != "format 1"@[0]);
    }
    lemma_not_prefix(m, "scope "@, 0);
    lemma_prefix_of_sum("last-used "@, v);
}

/// `# valid-from <v>` sets the start of validity.
proof fn lemma_meta_valid_from(st: ScanState, v: Seq<char>)
    requires
        py_strip_seq(v) == v,
    ensures
        meta_line(st, "valid-from "@ + v) == Ok::<ScanState, Seq<char>>(ScanState { card: CardModel { valid_from: v, ..st.card }, ..st }),
{
    lemma_meta_labels();
    let m = "valid-from "@ + v;
    assert(m != "lock"@) by {
        assert(m[0] != "lock"@[0]);
    }
    assert(m != "format 1"@) by {
        assert(m[0] != "format 1"@[0]);
    }
    lemma_not_prefix(m, "scope "@, 0);
    lemma_not_prefix(m, "last-used "@, 0);
    lemma_prefix_of_sum("valid-from "@, v);
}

/// `# valid-to <v>` sets the end of validity.
proof fn lemma_meta_valid_to(st: ScanState, v: Seq<char>)
    requires
        py_strip_seq(v) == v,
    ensures
        meta_line(st, "valid-to "@ + v) == Ok::<ScanState, Seq<char>>(ScanState { card: CardModel { valid_to: v, ..st.card }, ..st }),
{
    lemma_meta_labels();
    let m = "valid-to "@ + v;
    assert(m != "lock"@) by {
        assert(m[0] != "lock"@[0]);
    }
    assert(m != "format 1"@) by {
        assert(m[0] != "format 1"@[0]);
    }
    lemma_not_prefix(m, "scope "@, 0);
    lemma_not_prefix(m, "last-used "@, 0);
    lemma_not_prefix(m, "valid-from "@, 6);
    lemma_prefix_of_sum("valid-to "@, v);
}

/// `# supersedes <text>` sets the references read from the text.
proof fn lemma_meta_supersedes(st: ScanState, t: Seq<char>)
    ensures
        meta_line(st, "supersedes "@ + t) == Ok::<ScanState, Seq<char>>(ScanState {
            card: CardModel { supersedes: digit_runs_from(t, 0), ..st.card },
            ..st
        }),
{
    lemma_meta_labels();
    let m = "supersedes "@ + t;
    assert(m != "lock"@) by {
        assert(m[0] != "lock"@[0]);
    }
    assert(m != "format 1"@) by {
        assert(m[0] != "format 1"@[0]);
    }
    lemma_not_prefix(m, "scope "@, 1);
    lemma_not_prefix(m, "last-used "@, 0);
    lemma_not_prefix(m, "valid-from "@, 0);
    lemma_not_prefix(m, "valid-to "@, 0);
    lemma_prefix_of_sum("supersedes "@, t);
}


/// Runs in `a + b` that start in `a` end where they end in `a`, when `b`
/// does not continue them.
proof fn lemma_span_in_prefix(a: Seq<char>, b: Seq<char>, i: int, pred: spec_fn(char) -> bool)
    requires
        0 <= i <= a.len(),
        span_end(a, i, pred) < a.len() || b.len() == 0 || !pred(b[0]),
    ensures
        span_end(a + b, i, pred) == span_end(a, i, pred),
    decreases a.len() - i,
{
    if i < a.len() && pred(a[i]) {
        assert((a + b)[i] == a[i]);
        lemma_span_in_prefix(a, b, i + 1, pred);
    } else if i < a.len() {
        assert((a + b)[i] == a[i]);
    } else {
        if b.len() > 0 {
            assert((a + b)[i] == b[0]);
        } else {
            assert(a + b =~= a);
        }
    }
}

/// Runs in the `q` part of `p + q` are the runs of `q`, shifted.
proof fn lemma_span_shift(p: Seq<char>, q: Seq<char>, j: int, pred: spec_fn(char) -> bool)
    requires
        0 <= j <= q.len(),
    ensures
        span_end(p + q, p.len() + j, pred) == p.len() + span_end(q, j, pred),
    decreases q.len() - j,
{
    if j < q.len() {
        assert((p + q)[p.len() + j] == q[j]);
        if pred(q[j]) {
            lemma_span_shift(p, q, j + 1, pred);
        }
    }
}

/// The digit runs of the `q` part of `p + q` are those of `q`.
proof fn lemma_runs_shift(p: Seq<char>, q: Seq<char>, j: int)
    requires
        0 <= j <= q.len(),
    ensures
        digit_runs_from(p + q, p.len() + j) == digit_runs_from(q, j),
    decreases q.len() - j,
{
    if j < q.len() {
        assert((p + q)[p.len() + j] == q[j]);
        if ascii_digit(q[j]) {
            lemma_span_shift(p, q, j + 1, digit_pred());
            crate::mem::parse::lemma_span_end_bounds(q, j + 1, digit_pred());
            let e = span_end(q, j + 1, digit_pred());
            assert((p + q).subrange(p.len() + j, p.len() + e) =~= q.subrange(j, e));
            lemma_runs_shift(p, q, e);
        } else {
            lemma_runs_shift(p, q, j + 1);
        }
    }
}

/// Digit runs of a concatenation whose halves are not joined by a run.
proof fn lemma_runs_concat(a: Seq<char>, b: Seq<char>, i: int)
    requires
        0 <= i <= a.len(),
        (a.len() > 0 && !ascii_digit(a.last())) || b.len() == 0 || !ascii_digit(b[0]),
    ensures
        digit_runs_from(a + b, i) == digit_runs_from(a, i) + digit_runs_from(b, 0),
    decreases a.len() - i,
{
    if i == a.len() {
        lemma_runs_shift(a, b, 0);
        assert(digit_runs_from(a, i) =~= Seq::<i64>::empty());
        assert(Seq::<i64>::empty() + digit_runs_from(b, 0) =~= digit_runs_from(b, 0));
    } else {
        assert((a + b)[i] == a[i]);
        if ascii_digit(a[i]) {
            crate::mem::parse::lemma_span_end_bounds(a, i + 1, digit_pred());
            let e = span_end(a, i + 1, digit_pred());
            if a.len() > 0 && !ascii_digit(a.last()) && e == a.len() {
                assert(a[a.len() - 1] == a.last());
                assert(i + 1 <= a.len() - 1);
                assert((digit_pred())(a[a.len() - 1]));
            }
            lemma_span_in_prefix(a, b, i + 1, digit_pred());
            assert((a + b).subrange(i, e) =~= a.subrange(i, e));
            lemma_runs_concat(a, b, e);
            let v = saturate(digits_value(a.subrange(i, e)));
            assert(seq![v] + digit_runs_from(a, e) + digit_runs_from(b, 0) =~= seq![v] + (digit_runs_from(a, e)
                + digit_runs_from(b, 0)));
        } else {
            lemma_runs_concat(a, b, i + 1);
        }
    }
}

/// The digit runs of a text without digits: none.
proof fn lemma_runs_none(t: Seq<char>, i: int)
    requires
        0 <= i <= t.len(),
        forall|k: int| 0 <= k < t.len() ==> !ascii_digit(#[trigger] t[k]),
    ensures
        digit_runs_from(t, i) == Seq::<i64>::empty(),
    decreases t.len() - i,
{
    if i < t.len() {
        lemma_runs_none(t, i + 1);
    }
}

/// The digit runs of the decimal text of `v`: `v` alone.
proof fn lemma_runs_decimal(v: nat)
    requires
        v <= i64::MAX,
    ensures
        digit_runs_from(decimal(v), 0) == seq![v as i64],
{
    let d = decimal(v);
    lemma_decimal(v);
    assert forall|k: int| 1 <= k < d.len() implies (digit_pred())(#[trigger] d[k]) by {}
    lemma_span_end_at(d, 1, d.len() as int, digit_pred());
    assert(d.subrange(0, d.len() as int) =~= d);
    assert(digit_runs_from(d, d.len() as int) =~= Seq::<i64>::empty());
    assert(seq![saturate(v as int)] + Seq::<i64>::empty() =~= seq![v as i64]);
}

/// `@id, @id, ...` reads back as the ids.
pub proof fn lemma_runs_refs(ids: Seq<i64>)
    requires
        forall|k: int| 0 <= k < ids.len() ==> #[trigger] ids[k] > 0,
    ensures
        digit_runs_from(join_comma(ref_items(ids)), 0) == ids,
    decreases ids.len(),
{
    reveal_strlit("@");
    reveal_strlit(", ");
    if ids.len() == 0 {
        assert(join_comma(ref_items(ids)) =~= Seq::<char>::empty());
        assert(ids =~= Seq::<i64>::empty());
    } else {
        let x = ids.last();
        assert(x == ids[ids.len() - 1]);
        assert(x > 0);
        let item = "@"@ + int_text(x as int);
        assert(item =~= seq!['@'] + decimal(x as nat));
        lemma_runs_decimal(x as nat);
        lemma_runs_none(seq!['@'], 0);
        lemma_runs_concat(seq!['@'], decimal(x as nat), 0);
        assert(digit_runs_from(item, 0) =~= seq![x]);
        assert(ref_items(ids).last() == item);
        if ids.len() == 1 {
            assert(join_comma(ref_items(ids)) == item);
            assert(ids =~= seq![x]);
        } else {
            let init = ids.drop_last();
            assert(ref_items(ids).drop_last() =~= ref_items(init));
            assert forall|k: int| 0 <= k < init.len() implies #[trigger] init[k] > 0 by {
                assert(init[k] == ids[k]);
            }
            lemma_runs_refs(init);
            let j = join_comma(ref_items(init));
            assert(join_comma(ref_items(ids)) == j + ", "@ + item);
            let tail = seq![',', ' '] + item;
            assert(j + ", "@ + item =~= j + tail);
            lemma_runs_concat(j, tail, 0);
            lemma_runs_none(seq![',', ' '], 0);
            lemma_runs_concat(seq![',', ' '], item, 0);
            assert(digit_runs_from(tail, 0) =~= seq![x]);
            assert(init.push(x) =~= ids);
        }
    }
}


/// The pieces of a comma-joined list split on commas: the first item, then
/// each later item behind its space.
pub open spec fn comma_pieces(k: Seq<Seq<char>>) -> Seq<Seq<char>> {
    Seq::new(k.len(), |i: int| if i == 0 { k[0] } else { seq![' '] + k[i] })
}

/// Splitting a comma-joined list of comma-free items gives its pieces.
proof fn lemma_split_join(k: Seq<Seq<char>>)
    requires
        k.len() > 0,
        forall|i: int| 0 <= i < k.len() ==> !(#[trigger] k[i]).contains(','),
    ensures
        split_on(join_comma(k), ',') == comma_pieces(k),
    decreases k.len(),
{
    reveal_strlit(", ");
    if k.len() == 1 {
        lemma_split_append_plain(Seq::empty(), k[0], ',');
        assert(Seq::<char>::empty() + k[0] =~= k[0]);
        assert(split_on(Seq::<char>::empty(), ',') == seq![Seq::<char>::empty()]);
        assert(join_comma(k) == k[0]);
        assert(comma_pieces(k) =~= seq![k[0]]);
        assert(seq![Seq::<char>::empty()].update(0, Seq::<char>::empty() + k[0]) =~= seq![k[0]]);
    } else {
        let init = k.drop_last();
        assert forall|i: int| 0 <= i < init.len() implies !(#[trigger] init[i]).contains(',') by {
            assert(init[i] == k[i]);
        }
        lemma_split_join(init);
        let j = join_comma(init);
        let last = k.last();
        assert(!last.contains(',')) by {
            assert(k[k.len() - 1] == last);
        }
        let t = seq![' '] + last;
        assert(!t.contains(',')) by {
            if t.contains(',') {
                let x = choose|x: int| 0 <= x < t.len() && t[x] == ',';
                assert(last[x - 1] == ',');
            }
        }
        let a = j.push(',');
        assert(join_comma(k) =~= a + t);
        assert(a.drop_last() =~= j);
        crate::mem::lemma_split_nonempty(j, ',');
        assert(split_on(a, ',') == split_on(j, ',').push(Seq::empty()));
        lemma_split_append_plain(a, t, ',');
        let p = split_on(a, ',');
        assert(p.last() + t =~= t);
        assert(comma_pieces(k) =~= comma_pieces(init).push(t));
        assert(p.update(p.len() - 1, p.last() + t) =~= comma_pieces(init).push(t));
    }
}

/// Candidates depend on the values only through their stripped forms.
proof fn lemma_candidates_by_strip(v1: Seq<Seq<char>>, v2: Seq<Seq<char>>)
    requires
        v1.len() == v2.len(),
        forall|i: int| 0 <= i < v1.len() ==> py_strip_seq(#[trigger] v1[i]) == py_strip_seq(v2[i]),
    ensures
        entity_candidates(v1) == entity_candidates(v2),
    decreases v1.len(),
{
    if v1.len() > 0 {
        assert forall|i: int| 0 <= i < v1.len() - 1 implies py_strip_seq(#[trigger] v1.drop_last()[i]) == py_strip_seq(
            v2.drop_last()[i],
        ) by {
            assert(v1.drop_last()[i] == v1[i]);
            assert(v2.drop_last()[i] == v2[i]);
        }
        lemma_candidates_by_strip(v1.drop_last(), v2.drop_last());
        assert(py_strip_seq(v1.last()) == py_strip_seq(v2.last())) by {
            assert(v1.last() == v1[v1.len() - 1]);
            assert(v2.last() == v2[v2.len() - 1]);
        }
    }
}

/// A space in front does not change the stripped form.
proof fn lemma_strip_space_front(x: Seq<char>)
    ensures
        py_strip_seq(seq![' '] + x) == py_strip_seq(x),
{
    let s = seq![' '] + x;
    assert(s.drop_first() =~= x);
    assert(py_space(' '));
    assert(trim_start_by(s, space_pred()) == trim_start_by(x, space_pred()));
}

/// A canonical entity list of comma-free entities, written joined by
/// commas and read back, is itself.
pub proof fn lemma_entities_round_trip(k: Seq<Seq<char>>)
    requires
        canonical_entities_of(k, k),
        forall|i: int| 0 <= i < k.len() ==> !(#[trigger] k[i]).contains(','),
    ensures
        canonical_entities_seq(split_on(join_comma(k), ',')) == k,
{
    let pieces = split_on(join_comma(k), ',');
    if k.len() == 0 {
        assert(join_comma(k) =~= Seq::<char>::empty());
        assert(pieces == seq![Seq::<char>::empty()]);
        assert(seq![Seq::<char>::empty()].drop_last() =~= Seq::<Seq<char>>::empty());
        assert(py_strip_seq(Seq::<char>::empty()).len() == 0) by {
            assert(trim_start_by(Seq::<char>::empty(), space_pred()) =~= Seq::<char>::empty());
        }
        assert(pieces.drop_last() =~= Seq::<Seq<char>>::empty());
        assert(pieces.last() == Seq::<char>::empty());
        assert(entity_candidates(Seq::<Seq<char>>::empty()).len() == 0);
        assert(py_strip_seq(pieces.last()).len() == 0);
        assert(entity_candidates(pieces) == entity_candidates(pieces.drop_last()));
        assert(entity_candidates(pieces).len() == 0);
        assert(canonical_entities_of(pieces, k));
    } else {
        lemma_split_join(k);
        assert forall|i: int| 0 <= i < pieces.len() implies py_strip_seq(#[trigger] pieces[i]) == py_strip_seq(k[i]) by {
            if i > 0 {
                lemma_strip_space_front(k[i]);
            }
        }
        lemma_candidates_by_strip(pieces, k);
        assert(canonical_entities_of(pieces, k));
    }
    let r = canonical_entities_seq(pieces);
    assert(canonical_entities_of(pieces, r));
    lemma_canonical_unique(pieces, r, k);
}


/// One line scanned alone.
proof fn lemma_scan_one(st: ScanState, line: Seq<char>)
    ensures
        scan_lines(st, seq![line]) == scan_line(st, line),
        scan_lines(st, Seq::<Seq<char>>::empty()) == Ok::<ScanState, Seq<char>>(st),
{
    assert(seq![line].drop_last() =~= Seq::<Seq<char>>::empty());
}

/// An optional directive line: none for an empty value.
pub open spec fn opt_line(label: Seq<char>, v: Seq<char>) -> Seq<Seq<char>> {
    if v.len() == 0 {
        Seq::empty()
    } else {
        seq![label + v]
    }
}

/// The directive lines written for a card.
pub open spec fn directive_lines(m: CardModel) -> Seq<Seq<char>> {
    (if m.entities.len() == 0 {
        Seq::empty()
    } else {
        seq!["= "@ + join_comma(m.entities)]
    }) + seq!["~ "@ + m.source, "# format 1"@] + (if m.lock {
        seq!["# lock"@]
    } else {
        Seq::empty()
    }) + opt_line("# scope "@, m.scope) + opt_line("# last-used "@, m.last_used) + opt_line(
        "# valid-from "@,
        m.valid_from,
    ) + opt_line("# valid-to "@, m.valid_to) + (if m.supersedes.len() == 0 {
        Seq::empty()
    } else {
        seq!["# supersedes "@ + join_comma(ref_items(m.supersedes))]
    })
}

/// The scan state after the directive lines of `m`, from a state that
/// holds a header alone.
pub open spec fn after_directives(st: ScanState, m: CardModel) -> ScanState {
    ScanState {
        card: CardModel {
            entities: m.entities,
            source: m.source,
            lock: m.lock,
            scope: m.scope,
            last_used: m.last_used,
            valid_from: m.valid_from,
            valid_to: m.valid_to,
            supersedes: m.supersedes,
            ..st.card
        },
        entity_seen: m.entities.len() > 0,
        source_seen: true,
        format_seen: true,
        ..st
    }
}

/// Labels split into `# ` and the directive name.
proof fn lemma_labels()
    ensures
        "# scope "@ == "# "@ + "scope "@,
        "# last-used "@ == "# "@ + "last-used "@,
        "# valid-from "@ == "# "@ + "valid-from "@,
        "# valid-to "@ == "# "@ + "valid-to "@,
        "# supersedes "@ == "# "@ + "supersedes "@,
        "# format 1"@ == "# "@ + "format 1"@,
        "# lock"@ == "# "@ + "lock"@,
{
    reveal_strlit("# scope ");
    reveal_strlit("# last-used ");
    reveal_strlit("# valid-from ");
    reveal_strlit("# valid-to ");
    reveal_strlit("# supersedes ");
    reveal_strlit("# format 1");
    reveal_strlit("# lock");
    reveal_strlit("# ");
    lemma_meta_labels();
    assert("# scope "@ =~= "# "@ + "scope "@);
    assert("# last-used "@ =~= "# "@ + "last-used "@);
    assert("# valid-from "@ =~= "# "@ + "valid-from "@);
    assert("# valid-to "@ =~= "# "@ + "valid-to "@);
    assert("# supersedes "@ =~= "# "@ + "supersedes "@);
    assert("# format 1"@ =~= "# "@ + "format 1"@);
    assert("# lock"@ =~= "# "@ + "lock"@);
}

/// A labelled value line `# <name> <v>` for a stripped non-empty value.
proof fn lemma_meta_text_ends(name: Seq<char>, v: Seq<char>)
    requires
        name.len() > 0,
        !py_space(name[0]),
        py_strip_seq(v) == v,
        v.len() > 0,
    ensures
        (name + v).len() > 0,
        !py_space((name + v)[0]),
        !py_space((name + v).last()),
{
    lemma_stripped_ends(v);
    assert((name + v).last() == v.last());
    assert((name + v)[0] == name[0]);
}

/// Scanning an optional labelled directive sets its field to the value.
proof fn lemma_scan_opt(st: ScanState, which: int, v: Seq<char>)
    requires
        !st.title_set,
        0 <= which < 4,
        py_strip_seq(v) == v,
    ensures
        scan_lines(
            st,
            opt_line(
                if which == 0 { "# scope "@ } else if which == 1 { "# last-used "@ } else if which == 2 { "# valid-from "@ } else { "# valid-to "@ },
                v,
            ),
        ) == Ok::<ScanState, Seq<char>>(
            if v.len() == 0 {
                st
            } else if which == 0 {
                ScanState { card: CardModel { scope: v, ..st.card }, ..st }
            } else if which == 1 {
                ScanState { card: CardModel { last_used: v, ..st.card }, ..st }
            } else if which == 2 {
                ScanState { card: CardModel { valid_from: v, ..st.card }, ..st }
            } else {
                ScanState { card: CardModel { valid_to: v, ..st.card }, ..st }
            },
        ),
{
    lemma_labels();
    lemma_meta_labels();
    let label = if which == 0 { "# scope "@ } else if which == 1 { "# last-used "@ } else if which == 2 { "# valid-from "@ } else { "# valid-to "@ };
    let name = if which == 0 { "scope "@ } else if which == 1 { "last-used "@ } else if which == 2 { "valid-from "@ } else { "valid-to "@ };
    if v.len() == 0 {
        lemma_scan_one(st, Seq::empty());
    } else {
        assert(label + v =~= "# "@ + (name + v));
        lemma_scan_one(st, label + v);
        lemma_meta_text_ends(name, v);
        lemma_scan_meta(st, name + v);
        if which == 0 {
            lemma_meta_scope(st, v);
        } else if which == 1 {
            lemma_meta_last_used(st, v);
        } else if which == 2 {
            lemma_meta_valid_from(st, v);
        } else {
            lemma_meta_valid_to(st, v);
        }
    }
}


/// A scan state that holds a header alone: no directive seen yet.
pub open spec fn fresh_state(st: ScanState) -> bool {
    &&& !st.title_set
    &&& !st.entity_seen
    &&& !st.source_seen
    &&& !st.format_seen
    &&& st.card.entities.len() == 0
    &&& !st.card.lock
    &&& st.card.scope.len() == 0
    &&& st.card.last_used.len() == 0
    &&& st.card.valid_from.len() == 0
    &&& st.card.valid_to.len() == 0
    &&& st.card.supersedes.len() == 0
}

/// The directive fields of a card that its directive lines carry.
pub open spec fn directives_carried(m: CardModel) -> bool {
    &&& canonical_entities_of(m.entities, m.entities)
    &&& forall|i: int| 0 <= i < m.entities.len() ==> !(#[trigger] m.entities[i]).contains(',')
    &&& py_strip_seq(m.source) == m.source
    &&& m.source.len() > 0
    &&& py_strip_seq(m.scope) == m.scope
    &&& py_strip_seq(m.last_used) == m.last_used
    &&& py_strip_seq(m.valid_from) == m.valid_from
    &&& py_strip_seq(m.valid_to) == m.valid_to
    &&& forall|i: int| 0 <= i < m.supersedes.len() ==> #[trigger] m.supersedes[i] > 0
}

/// The entity line, if any, sets the entities.
proof fn lemma_scan_entity_piece(st: ScanState, m: CardModel)
    requires
        fresh_state(st),
        directives_carried(m),
    ensures
        scan_lines(
            st,
            if m.entities.len() == 0 {
                Seq::<Seq<char>>::empty()
            } else {
                seq!["= "@ + join_comma(m.entities)]
            },
        ) == Ok::<ScanState, Seq<char>>(ScanState {
            card: CardModel { entities: m.entities, ..st.card },
            entity_seen: m.entities.len() > 0,
            ..st
        }),
{
    if m.entities.len() == 0 {
        lemma_scan_one(st, Seq::empty());
        assert(st.card.entities =~= m.entities);
    } else {
        lemma_scan_one(st, "= "@ + join_comma(m.entities));
        lemma_scan_entity(st, join_comma(m.entities));
        lemma_entities_round_trip(m.entities);
    }
}

/// The source and format lines.
proof fn lemma_scan_source_format(st: ScanState, src: Seq<char>)
    requires
        !st.title_set,
        !st.source_seen,
        !st.format_seen,
        py_strip_seq(src) == src,
        src.len() > 0,
    ensures
        scan_lines(st, seq!["~ "@ + src, "# format 1"@]) == Ok::<ScanState, Seq<char>>(ScanState {
            card: CardModel { source: src, ..st.card },
            source_seen: true,
            format_seen: true,
            ..st
        }),
{
    lemma_labels();
    lemma_meta_labels();
    let l1 = "~ "@ + src;
    let l2 = "# format 1"@;
    assert(seq![l1, l2] =~= seq![l1] + seq![l2]);
    lemma_scan_concat(st, seq![l1], seq![l2]);
    lemma_scan_one(st, l1);
    lemma_scan_source(st, src);
    let s1 = ScanState { card: CardModel { source: src, ..st.card }, source_seen: true, ..st };
    lemma_scan_one(s1, l2);
    assert(!py_space('f'));
    assert(!py_space('1'));
    lemma_scan_meta(s1, "format 1"@);
    lemma_meta_format(s1);
}

/// The lock line, if any, locks the card.
proof fn lemma_scan_lock_piece(st: ScanState, lock: bool)
    requires
        !st.title_set,
        !st.card.lock,
    ensures
        scan_lines(st, if lock { seq!["# lock"@] } else { Seq::<Seq<char>>::empty() }) == Ok::<ScanState, Seq<char>>(
            ScanState { card: CardModel { lock: lock, ..st.card }, ..st },
        ),
{
    lemma_labels();
    lemma_meta_labels();
    if lock {
        lemma_scan_one(st, "# lock"@);
        assert(!py_space('l'));
        assert(!py_space('k'));
        lemma_scan_meta(st, "lock"@);
        lemma_meta_lock(st);
    } else {
        lemma_scan_one(st, Seq::empty());
    }
}

/// The supersedes line, if any, sets the references.
proof fn lemma_scan_refs_piece(st: ScanState, refs: Seq<i64>)
    requires
        !st.title_set,
        st.card.supersedes.len() == 0,
        forall|i: int| 0 <= i < refs.len() ==> #[trigger] refs[i] > 0,
    ensures
        scan_lines(
            st,
            if refs.len() == 0 {
                Seq::<Seq<char>>::empty()
            } else {
                seq!["# supersedes "@ + join_comma(ref_items(refs))]
            },
        ) == Ok::<ScanState, Seq<char>>(ScanState { card: CardModel { supersedes: refs, ..st.card }, ..st }),
{
    lemma_labels();
    lemma_meta_labels();
    if refs.len() == 0 {
        lemma_scan_one(st, Seq::empty());
        assert(st.card.supersedes =~= refs);
    } else {
        let t = join_comma(ref_items(refs));
        let m = "supersedes "@ + t;
        assert("# supersedes "@ + t =~= "# "@ + m);
        lemma_scan_one(st, "# supersedes "@ + t);
        lemma_join_refs_ends(refs);
        assert(m.last() == t.last());
        assert(!py_space('s'));
        lemma_scan_meta(st, m);
        lemma_meta_supersedes(st, t);
        lemma_runs_refs(refs);
    }
}

/// A non-empty reference list ends with a digit.
proof fn lemma_join_refs_ends(refs: Seq<i64>)
    requires
        refs.len() > 0,
        forall|i: int| 0 <= i < refs.len() ==> #[trigger] refs[i] > 0,
    ensures
        join_comma(ref_items(refs)).len() > 0,
        !py_space(join_comma(ref_items(refs)).last()),
{
    reveal_strlit("@");
    reveal_strlit(", ");
    let x = refs.last();
    assert(x == refs[refs.len() - 1]);
    let item = "@"@ + int_text(x as int);
    lemma_decimal(x as nat);
    assert(item =~= seq!['@'] + decimal(x as nat));
    assert(item.last() == decimal(x as nat).last());
    assert(ascii_digit(decimal(x as nat)[decimal(x as nat).len() - 1]));
    assert(ref_items(refs).last() == item);
    if refs.len() > 1 {
        let j = join_comma(ref_items(refs.drop_last()));
        assert(ref_items(refs).drop_last() =~= ref_items(refs.drop_last()));
        assert(join_comma(ref_items(refs)) == j + ", "@ + item);
        assert((j + ", "@ + item).last() == item.last());
    }
}

/// The directive lines carry the directive fields.
#[verifier::rlimit(60)]
pub proof fn lemma_scan_directives(st: ScanState, m: CardModel)
    requires
        fresh_state(st),
        directives_carried(m),
    ensures
        scan_lines(st, directive_lines(m)) == Ok::<ScanState, Seq<char>>(after_directives(st, m)),
{
    let e = if m.entities.len() == 0 { Seq::<Seq<char>>::empty() } else { seq!["= "@ + join_comma(m.entities)] };
    let sf = seq!["~ "@ + m.source, "# format 1"@];
    let lk = if m.lock { seq!["# lock"@] } else { Seq::<Seq<char>>::empty() };
    let o1 = opt_line("# scope "@, m.scope);
    let o2 = opt_line("# last-used "@, m.last_used);
    let o3 = opt_line("# valid-from "@, m.valid_from);
    let o4 = opt_line("# valid-to "@, m.valid_to);
    let r = if m.supersedes.len() == 0 { Seq::<Seq<char>>::empty() } else { seq!["# supersedes "@ + join_comma(ref_items(m.supersedes))] };
    assert(directive_lines(m) == e + sf + lk + o1 + o2 + o3 + o4 + r);
    lemma_scan_entity_piece(st, m);
    let s1 = ScanState { card: CardModel { entities: m.entities, ..st.card }, entity_seen: m.entities.len() > 0, ..st };
    lemma_scan_source_format(s1, m.source);
    let s2 = ScanState { card: CardModel { source: m.source, ..s1.card }, source_seen: true, format_seen: true, ..s1 };
    lemma_scan_lock_piece(s2, m.lock);
    let s3 = ScanState { card: CardModel { lock: m.lock, ..s2.card }, ..s2 };
    lemma_scan_opt(s3, 0, m.scope);
    let s4 = ScanState { card: CardModel { scope: m.scope, ..s3.card }, ..s3 };
    assert(m.scope.len() == 0 ==> s3 == s4) by {
        if m.scope.len() == 0 {
            assert(s3.card.scope =~= m.scope);
        }
    }
    lemma_scan_opt(s4, 1, m.last_used);
    let s5 = ScanState { card: CardModel { last_used: m.last_used, ..s4.card }, ..s4 };
    assert(m.last_used.len() == 0 ==> s4 == s5) by {
        if m.last_used.len() == 0 {
            assert(s4.card.last_used =~= m.last_used);
        }
    }
    lemma_scan_opt(s5, 2, m.valid_from);
    let s6 = ScanState { card: CardModel { valid_from: m.valid_from, ..s5.card }, ..s5 };
    assert(m.valid_from.len() == 0 ==> s5 == s6) by {
        if m.valid_from.len() == 0 {
            assert(s5.card.valid_from =~= m.valid_from);
        }
    }
    lemma_scan_opt(s6, 3, m.valid_to);
    let s7 = ScanState { card: CardModel { valid_to: m.valid_to, ..s6.card }, ..s6 };
    assert(m.valid_to.len() == 0 ==> s6 == s7) by {
        if m.valid_to.len() == 0 {
            assert(s6.card.valid_to =~= m.valid_to);
        }
    }
    lemma_scan_refs_piece(s7, m.supersedes);
    let s8 = ScanState { card: CardModel { supersedes: m.supersedes, ..s7.card }, ..s7 };
    lemma_scan_concat(st, e, sf);
    lemma_scan_concat(st, e + sf, lk);
    lemma_scan_concat(st, e + sf + lk, o1);
    lemma_scan_concat(st, e + sf + lk + o1, o2);
    lemma_scan_concat(st, e + sf + lk + o1 + o2, o3);
    lemma_scan_concat(st, e + sf + lk + o1 + o2 + o3, o4);
    lemma_scan_concat(st, e + sf + lk + o1 + o2 + o3 + o4, r);
    assert(s8 == after_directives(st, m));
}


/// Whether a text fits on one line of a card: no line feed, carriage return
/// or NUL.
pub open spec fn line_safe(s: Seq<char>) -> bool {
    !s.contains('\n') && !s.contains('\r') && !s.contains('\0')
}

/// Membership in a concatenation.
proof fn lemma_contains_concat(a: Seq<char>, b: Seq<char>, x: char)
    ensures
        (a + b).contains(x) == (a.contains(x) || b.contains(x)),
{
    if (a + b).contains(x) {
        let k = choose|k: int| 0 <= k < (a + b).len() && (a + b)[k] == x;
        if k < a.len() {
            assert(a[k] == x);
        } else {
            assert(b[k - a.len()] == x);
        }
    }
    if a.contains(x) {
        let k = choose|k: int| 0 <= k < a.len() && a[k] == x;
        assert((a + b)[k] == x);
    }
    if b.contains(x) {
        let k = choose|k: int| 0 <= k < b.len() && b[k] == x;
        assert((a + b)[a.len() + k] == x);
    }
}

/// Line safety of a concatenation.
proof fn lemma_safe_concat(a: Seq<char>, b: Seq<char>)
    ensures
        line_safe(a + b) == (line_safe(a) && line_safe(b)),
{
    lemma_contains_concat(a, b, '\n');
    lemma_contains_concat(a, b, '\r');
    lemma_contains_concat(a, b, '\0');
}

/// Every character at or above the space.
pub open spec fn printable(s: Seq<char>) -> bool {
    forall|k: int| 0 <= k < s.len() ==> (#[trigger] s[k] as u32) >= 32
}

/// A printable text is line safe.
proof fn lemma_printable_safe(s: Seq<char>)
    requires
        printable(s),
    ensures
        line_safe(s),
{
    if s.contains('\n') {
        let k = choose|k: int| 0 <= k < s.len() && s[k] == '\n';
        assert((s[k] as u32) >= 32);
    }
    if s.contains('\r') {
        let k = choose|k: int| 0 <= k < s.len() && s[k] == '\r';
        assert((s[k] as u32) >= 32);
    }
    if s.contains('\0') {
        let k = choose|k: int| 0 <= k < s.len() && s[k] == '\0';
        assert((s[k] as u32) >= 32);
    }
}

/// Printability of a concatenation.
proof fn lemma_printable_concat(a: Seq<char>, b: Seq<char>)
    requires
        printable(a),
        printable(b),
    ensures
        printable(a + b),
{
    assert forall|k: int| 0 <= k < (a + b).len() implies ((#[trigger] (a + b)[k]) as u32) >= 32 by {
        if k < a.len() {
            assert((a + b)[k] == a[k]);
        } else {
            assert((a + b)[k] == b[k - a.len()]);
        }
    }
}

/// A header line is printable.
proof fn lemma_header_printable(id: int, ty: Seq<char>, st: Seq<char>, imp: int, units: int, f: Seq<char>, u: Seq<char>)
    requires
        0 <= id,
        valid_type(ty),
        valid_status(st),
        0 <= imp <= 3,
        0 <= units <= 6,
        fresh_shaped(f),
        date_shaped(u),
    ensures
        line_safe(header_text(id, ty, st, imp, units, f, u)),
{
    reveal_strlit("@");
    reveal_strlit(" ");
    reveal_strlit(" I");
    reveal_strlit(" T");
    reveal_strlit(" F");
    lemma_words(ty, st);
    lemma_decimal(id as nat);
    lemma_decimal(imp as nat);
    lemma_trust_text(units);
    lemma_decimal((units / 2) as nat);
    let a = int_text(id);
    let b = int_text(imp);
    let tr = trust_text_seq(units);
    assert(printable("@"@));
    assert(printable(" "@));
    assert(printable(" I"@));
    assert(printable(" T"@));
    assert(printable(" F"@));
    assert(printable(a));
    assert(printable(b));
    assert(printable(tr)) by {
        assert forall|k: int| 0 <= k < tr.len() implies (#[trigger] tr[k] as u32) >= 32 by {
            if k == 0 {
                assert(ascii_digit(decimal((units / 2) as nat)[0]));
            }
        }
    }
    assert(printable(ty));
    assert(printable(st));
    assert(printable(f)) by {
        assert forall|k: int| 0 <= k < f.len() implies (#[trigger] f[k] as u32) >= 32 by {
            if k >= 2 {
                assert(ascii_digit(f[k]));
            }
        }
    }
    assert(printable(u)) by {
        assert forall|k: int| 0 <= k < u.len() implies (#[trigger] u[k] as u32) >= 32 by {
            if k == 4 || k == 7 {
                assert(u[k] == '-');
            } else {
                assert(ascii_digit(u[k]));
            }
        }
    }
    lemma_printable_concat("@"@, a);
    lemma_printable_concat("@"@ + a, " "@);
    lemma_printable_concat("@"@ + a + " "@, ty);
    lemma_printable_concat("@"@ + a + " "@ + ty, " "@);
    lemma_printable_concat("@"@ + a + " "@ + ty + " "@, st);
    lemma_printable_concat("@"@ + a + " "@ + ty + " "@ + st, " I"@);
    lemma_printable_concat("@"@ + a + " "@ + ty + " "@ + st + " I"@, b);
    lemma_printable_concat("@"@ + a + " "@ + ty + " "@ + st + " I"@ + b, " T"@);
    lemma_printable_concat("@"@ + a + " "@ + ty + " "@ + st + " I"@ + b + " T"@, tr);
    lemma_printable_concat("@"@ + a + " "@ + ty + " "@ + st + " I"@ + b + " T"@ + tr, " F"@);
    lemma_printable_concat("@"@ + a + " "@ + ty + " "@ + st + " I"@ + b + " T"@ + tr + " F"@, f);
    lemma_printable_concat("@"@ + a + " "@ + ty + " "@ + st + " I"@ + b + " T"@ + tr + " F"@ + f, " "@);
    lemma_printable_concat("@"@ + a + " "@ + ty + " "@ + st + " I"@ + b + " T"@ + tr + " F"@ + f + " "@, u);
    lemma_printable_safe(header_text(id, ty, st, imp, units, f, u));
}

/// The lines of a concatenation of line runs.
proof fn lemma_body_block_concat(a: Seq<Seq<char>>, b: Seq<Seq<char>>)
    ensures
        body_block(a + b) == body_block(a) + body_block(b),
    decreases b.len(),
{
    if b.len() == 0 {
        assert(a + b =~= a);
        assert(body_block(a) + body_block(b) =~= body_block(a));
    } else {
        lemma_body_block_concat(a, b.drop_last());
        assert((a + b).drop_last() =~= a + b.drop_last());
        assert((a + b).last() == b.last());
        assert(body_block(a) + body_block(b.drop_last()) + b.last() + "\n"@ =~= body_block(a) + (body_block(
            b.drop_last(),
        ) + b.last() + "\n"@));
    }
}

/// One line and its line feed.
proof fn lemma_body_block_one(x: Seq<char>)
    ensures
        body_block(seq![x]) == x + "\n"@,
{
    assert(seq![x].drop_last() =~= Seq::<Seq<char>>::empty());
    assert(seq![x].last() == x);
    assert(body_block(Seq::<Seq<char>>::empty()) == Seq::<char>::empty());
    assert(body_block(seq![x]) == body_block(seq![x].drop_last()) + seq![x].last() + "\n"@);
    assert(Seq::<char>::empty() + x + "\n"@ =~= x + "\n"@);
}

/// Lines free of a character other than the line feed give a text free of it.
proof fn lemma_body_block_free(lines: Seq<Seq<char>>, x: char)
    requires
        x != '\n',
        forall|i: int| 0 <= i < lines.len() ==> !(#[trigger] lines[i]).contains(x),
    ensures
        !body_block(lines).contains(x),
    decreases lines.len(),
{
    reveal_strlit("\n");
    if lines.len() > 0 {
        let init = lines.drop_last();
        assert forall|i: int| 0 <= i < init.len() implies !(#[trigger] init[i]).contains(x) by {
            assert(init[i] == lines[i]);
        }
        lemma_body_block_free(init, x);
        assert(!lines.last().contains(x)) by {
            assert(lines[lines.len() - 1] == lines.last());
        }
        lemma_contains_concat(body_block(init), lines.last(), x);
        lemma_contains_concat(body_block(init) + lines.last(), "\n"@, x);
        assert(!"\n"@.contains(x)) by {
            if "\n"@.contains(x) {
                assert("\n"@[0] == x);
            }
        }
    }
}

/// Folding CRLF changes nothing in a text without carriage returns.
proof fn lemma_crlf_identity(s: Seq<char>)
    requires
        !s.contains('\r'),
    ensures
        crlf_to_lf(s) == s,
    decreases s.len(),
{
    if s.len() > 0 {
        assert(s[0] != '\r');
        assert(!s.drop_first().contains('\r')) by {
            if s.drop_first().contains('\r') {
                let k = choose|k: int| 0 <= k < s.drop_first().len() && s.drop_first()[k] == '\r';
                assert(s[k + 1] == '\r');
            }
        }
        lemma_crlf_identity(s.drop_first());
        assert(seq![s[0]] + s.drop_first() =~= s);
    }
}

/// A comma-joined list of items free of a character other than `,` and
/// the space is free of it.
proof fn lemma_join_free(k: Seq<Seq<char>>, x: char)
    requires
        x != ',',
        x != ' ',
        forall|i: int| 0 <= i < k.len() ==> !(#[trigger] k[i]).contains(x),
    ensures
        !join_comma(k).contains(x),
    decreases k.len(),
{
    reveal_strlit(", ");
    if k.len() == 1 {
        assert(k[0] == join_comma(k));
    } else if k.len() > 1 {
        let init = k.drop_last();
        assert forall|i: int| 0 <= i < init.len() implies !(#[trigger] init[i]).contains(x) by {
            assert(init[i] == k[i]);
        }
        lemma_join_free(init, x);
        assert(!k.last().contains(x)) by {
            assert(k[k.len() - 1] == k.last());
        }
        lemma_contains_concat(join_comma(init), ", "@, x);
        lemma_contains_concat(join_comma(init) + ", "@, k.last(), x);
        assert(!", "@.contains(x)) by {
            if ", "@.contains(x) {
                let j = choose|j: int| 0 <= j < ", "@.len() && ", "@[j] == x;
            }
        }
    }
}


/// The lines written for a card, with freshness text `f`.
pub open spec fn card_line_list(m: CardModel, f: Seq<char>) -> Seq<Seq<char>> {
    seq![header_text(m.id, m.card_type, m.status, m.importance, m.trust, f, m.updated)] + directive_lines(m)
        + seq![m.title] + m.body
}

/// An optional directive is the block of its optional line.
proof fn lemma_opt_block(label: Seq<char>, v: Seq<char>)
    ensures
        body_block(opt_line(label, v)) == opt_directive(label, v),
{
    if v.len() > 0 {
        lemma_body_block_one(label + v);
    } else {
        assert(body_block(Seq::<Seq<char>>::empty()) == Seq::<char>::empty());
    }
}

/// The canonical entity list of a canonical list is itself.
proof fn lemma_canonical_self(k: Seq<Seq<char>>)
    requires
        canonical_entities_of(k, k),
    ensures
        canonical_entities_seq(k) == k,
{
    lemma_canonical_unique(k, canonical_entities_seq(k), k);
}

/// The distinct sorted values of a strictly increasing list are itself.
proof fn lemma_sorted_self(xs: Seq<i64>)
    requires
        strictly_increasing(xs),
    ensures
        sorted_unique(xs) == xs,
{
    let r = sorted_unique(xs);
    assert(strictly_increasing(r) && r.to_set() == xs.to_set());
    lemma_sorted_unique_eq(r, xs);
}

/// The directive text of a canonical card is the block of its directive lines.
#[verifier::rlimit(60)]
proof fn lemma_directives_layout(c: Card)
    requires
        canonical_entities_of(c@.entities, c@.entities),
        strictly_increasing(c@.supersedes),
    ensures
        directives_seq(c) == body_block(directive_lines(c@)),
{
    let m = c@;
    reveal_strlit("# format 1\n");
    reveal_strlit("# format 1");
    reveal_strlit("# lock\n");
    reveal_strlit("# lock");
    reveal_strlit("\n");
    let e = if m.entities.len() == 0 { Seq::<Seq<char>>::empty() } else { seq!["= "@ + join_comma(m.entities)] };
    let sf = seq!["~ "@ + m.source, "# format 1"@];
    let lk = if m.lock { seq!["# lock"@] } else { Seq::<Seq<char>>::empty() };
    let o1 = opt_line("# scope "@, m.scope);
    let o2 = opt_line("# last-used "@, m.last_used);
    let o3 = opt_line("# valid-from "@, m.valid_from);
    let o4 = opt_line("# valid-to "@, m.valid_to);
    let r = if m.supersedes.len() == 0 { Seq::<Seq<char>>::empty() } else { seq!["# supersedes "@ + join_comma(ref_items(m.supersedes))] };
    assert(directive_lines(m) == e + sf + lk + o1 + o2 + o3 + o4 + r);
    lemma_canonical_self(m.entities);
    lemma_sorted_self(m.supersedes);
    assert(body_block(Seq::<Seq<char>>::empty()) == Seq::<char>::empty());
    // entity line
    if m.entities.len() > 0 {
        lemma_body_block_one("= "@ + join_comma(m.entities));
    }
    assert(entity_line_seq(c) == body_block(e));
    // source and format
    assert(sf == seq!["~ "@ + m.source] + seq!["# format 1"@]);
    lemma_body_block_concat(seq!["~ "@ + m.source], seq!["# format 1"@]);
    lemma_body_block_one("~ "@ + m.source);
    lemma_body_block_one("# format 1"@);
    assert("# format 1\n"@ =~= "# format 1"@ + "\n"@);
    if m.lock {
        lemma_body_block_one("# lock"@);
        assert("# lock\n"@ =~= "# lock"@ + "\n"@);
    }
    lemma_opt_block("# scope "@, m.scope);
    lemma_opt_block("# last-used "@, m.last_used);
    lemma_opt_block("# valid-from "@, m.valid_from);
    lemma_opt_block("# valid-to "@, m.valid_to);
    lemma_body_block_concat(sf, lk);
    lemma_body_block_concat(sf + lk, o1);
    lemma_body_block_concat(sf + lk + o1, o2);
    lemma_body_block_concat(sf + lk + o1 + o2, o3);
    lemma_body_block_concat(sf + lk + o1 + o2 + o3, o4);
    assert(meta_lines_seq(c) =~= body_block(sf + lk + o1 + o2 + o3 + o4));
    if m.supersedes.len() > 0 {
        lemma_body_block_one("# supersedes "@ + join_comma(ref_items(m.supersedes)));
    }
    assert(supersedes_line_seq(c) == body_block(r));
    assert(e + sf + lk + o1 + o2 + o3 + o4 + r =~= e + (sf + lk + o1 + o2 + o3 + o4) + r);
    lemma_body_block_concat(e, sf + lk + o1 + o2 + o3 + o4);
    lemma_body_block_concat(e + (sf + lk + o1 + o2 + o3 + o4), r);
}

/// The text written for a canonical card is the block of its lines.
proof fn lemma_serialize_layout(c: Card, today: Seq<char>)
    requires
        canonical_entities_of(c@.entities, c@.entities),
        strictly_increasing(c@.supersedes),
    ensures
        serialize_seq(c, today) == body_block(card_line_list(c@, freshness_seq(c.last_used@, c.updated@, today))),
{
    let m = c@;
    let f = freshness_seq(c.last_used@, c.updated@, today);
    let h = header_text(m.id, m.card_type, m.status, m.importance, m.trust, f, m.updated);
    assert(header_seq(c, today) == h + "\n"@);
    lemma_body_block_one(h);
    lemma_directives_layout(c);
    lemma_body_block_one(m.title);
    let d = directive_lines(m);
    lemma_body_block_concat(seq![h], d);
    lemma_body_block_concat(seq![h] + d, seq![m.title]);
    lemma_body_block_concat(seq![h] + d + seq![m.title], m.body);
    assert(m.body == views(c.body@));
    assert(serialize_seq(c, today) =~= body_block(seq![h]) + body_block(d) + body_block(seq![m.title]) + body_block(m.body));
}


/// A card in canonical form whose every field the text format carries:
/// header fields in range, entities canonical and comma free, stripped
/// one-line directive values, parseable dates in order, references
/// increasing and in range (never the card itself), a title line that is
/// neither blank nor a directive, and one-line body lines.
pub open spec fn canonical_card(m: CardModel) -> bool {
    &&& 0 <= m.id <= MAX_PUBLIC_ID
    &&& valid_type(m.card_type)
    &&& valid_status(m.status)
    &&& 0 <= m.importance <= 3
    &&& 0 <= m.trust <= 6
    &&& date_shaped(m.updated)
    &&& parse_iso_date_seq(m.updated) is Some
    &&& directives_carried(m)
    &&& forall|i: int| 0 <= i < m.entities.len() ==> line_safe(#[trigger] m.entities[i])
    &&& line_safe(m.source)
    &&& line_safe(m.scope)
    &&& line_safe(m.last_used)
    &&& line_safe(m.valid_from)
    &&& line_safe(m.valid_to)
    &&& (m.last_used.len() == 0 || parse_iso_date_seq(m.last_used) is Some)
    &&& (m.valid_from.len() == 0 || parse_iso_date_seq(m.valid_from) is Some)
    &&& (m.valid_to.len() == 0 || parse_iso_date_seq(m.valid_to) is Some)
    &&& !(m.valid_from.len() > 0 && m.valid_to.len() > 0 && seq_lt(m.valid_to, m.valid_from))
    &&& strictly_increasing(m.supersedes)
    &&& forall|i: int| 0 <= i < m.supersedes.len() ==> #[trigger] m.supersedes[i] <= MAX_PUBLIC_ID
    &&& (m.id != 0 ==> !m.supersedes.contains(m.id as i64))
    &&& line_safe(m.title)
    &&& py_strip_seq(m.title).len() > 0
    &&& m.title.len() > 0 && m.title[0] != '=' && m.title[0] != '~' && m.title[0] != '#'
    &&& forall|i: int| 0 <= i < m.body.len() ==> line_safe(#[trigger] m.body[i])
}

/// The directive lines of a canonical card are line safe.
proof fn lemma_directive_lines_safe(m: CardModel)
    requires
        canonical_card(m),
    ensures
        forall|i: int| 0 <= i < directive_lines(m).len() ==> line_safe(#[trigger] directive_lines(m)[i]),
{
    reveal_strlit("= ");
    reveal_strlit("~ ");
    reveal_strlit("# format 1");
    reveal_strlit("# lock");
    reveal_strlit("# scope ");
    reveal_strlit("# last-used ");
    reveal_strlit("# valid-from ");
    reveal_strlit("# valid-to ");
    reveal_strlit("# supersedes ");
    reveal_strlit("@");
    let d = directive_lines(m);
    assert forall|i: int| 0 <= i < d.len() implies line_safe(#[trigger] d[i]) by {
        let x = d[i];
        // every directive line is a printable label and a line-safe value
        if m.entities.len() > 0 && i == 0 {
            lemma_join_free(m.entities, '\n');
            lemma_join_free(m.entities, '\r');
            lemma_join_free(m.entities, '\0');
            lemma_safe_concat("= "@, join_comma(m.entities));
            assert(printable("= "@));
            lemma_printable_safe("= "@);
        } else {
            lemma_directive_tail_safe(m, i);
        }
    }
}

/// The lines after the entity line are line safe.
#[verifier::rlimit(60)]
proof fn lemma_directive_tail_safe(m: CardModel, i: int)
    requires
        canonical_card(m),
        0 <= i < directive_lines(m).len(),
        !(m.entities.len() > 0 && i == 0),
    ensures
        line_safe(directive_lines(m)[i]),
{
    reveal_strlit("~ ");
    reveal_strlit("# format 1");
    reveal_strlit("# lock");
    reveal_strlit("# scope ");
    reveal_strlit("# last-used ");
    reveal_strlit("# valid-from ");
    reveal_strlit("# valid-to ");
    reveal_strlit("# supersedes ");
    let x = directive_lines(m)[i];
    let labels = seq!["~ "@, "# format 1"@, "# lock"@, "# scope "@, "# last-used "@, "# valid-from "@, "# valid-to "@, "# supersedes "@];
    assert forall|j: int| 0 <= j < labels.len() implies printable(#[trigger] labels[j]) && line_safe(labels[j]) by {
        lemma_printable_safe(labels[j]);
    }
    lemma_refs_text_safe(m.supersedes);
    let t = join_comma(ref_items(m.supersedes));
    lemma_safe_concat("~ "@, m.source);
    lemma_safe_concat("# scope "@, m.scope);
    lemma_safe_concat("# last-used "@, m.last_used);
    lemma_safe_concat("# valid-from "@, m.valid_from);
    lemma_safe_concat("# valid-to "@, m.valid_to);
    lemma_safe_concat("# supersedes "@, t);
    assert(labels[0] == "~ "@);
    assert(labels[1] == "# format 1"@);
    assert(labels[2] == "# lock"@);
    assert(labels[3] == "# scope "@);
    assert(labels[4] == "# last-used "@);
    assert(labels[5] == "# valid-from "@);
    assert(labels[6] == "# valid-to "@);
    assert(labels[7] == "# supersedes "@);
    let e = if m.entities.len() == 0 { Seq::<Seq<char>>::empty() } else { seq!["= "@ + join_comma(m.entities)] };
    let rest = seq!["~ "@ + m.source, "# format 1"@] + (if m.lock { seq!["# lock"@] } else { Seq::<Seq<char>>::empty() })
        + opt_line("# scope "@, m.scope) + opt_line("# last-used "@, m.last_used) + opt_line("# valid-from "@, m.valid_from)
        + opt_line("# valid-to "@, m.valid_to) + (if m.supersedes.len() == 0 { Seq::<Seq<char>>::empty() } else {
        seq!["# supersedes "@ + t]
    });
    assert(directive_lines(m) =~= e + rest);
    assert(x == rest[i - e.len()]);
    let candidates = seq!["~ "@ + m.source, "# format 1"@, "# lock"@, "# scope "@ + m.scope, "# last-used "@ + m.last_used,
        "# valid-from "@ + m.valid_from, "# valid-to "@ + m.valid_to, "# supersedes "@ + t];
    assert forall|j: int| 0 <= j < candidates.len() implies line_safe(#[trigger] candidates[j]) by {}
    assert(forall|j: int| 0 <= j < rest.len() ==> candidates.contains(#[trigger] rest[j])) by {
        assert forall|j: int| 0 <= j < rest.len() implies candidates.contains(#[trigger] rest[j]) by {
            lemma_rest_from(m, t, j, rest, candidates);
        }
    }
    assert(candidates.contains(x));
    let w = choose|w: int| 0 <= w < candidates.len() && candidates[w] == x;
}

/// Each line after the entity line is one of the written directive forms.
proof fn lemma_rest_from(m: CardModel, t: Seq<char>, j: int, rest: Seq<Seq<char>>, candidates: Seq<Seq<char>>)
    requires
        rest == seq!["~ "@ + m.source, "# format 1"@] + (if m.lock { seq!["# lock"@] } else { Seq::<Seq<char>>::empty() })
            + opt_line("# scope "@, m.scope) + opt_line("# last-used "@, m.last_used) + opt_line("# valid-from "@, m.valid_from)
            + opt_line("# valid-to "@, m.valid_to) + (if m.supersedes.len() == 0 { Seq::<Seq<char>>::empty() } else {
            seq!["# supersedes "@ + t]
        }),
        candidates == seq!["~ "@ + m.source, "# format 1"@, "# lock"@, "# scope "@ + m.scope, "# last-used "@ + m.last_used,
            "# valid-from "@ + m.valid_from, "# valid-to "@ + m.valid_to, "# supersedes "@ + t],
        0 <= j < rest.len(),
    ensures
        candidates.contains(rest[j]),
{
    let x = rest[j];
    assert(candidates[0] == "~ "@ + m.source);
    assert(candidates[1] == "# format 1"@);
    assert(candidates[2] == "# lock"@);
    assert(candidates[3] == "# scope "@ + m.scope);
    assert(candidates[4] == "# last-used "@ + m.last_used);
    assert(candidates[5] == "# valid-from "@ + m.valid_from);
    assert(candidates[6] == "# valid-to "@ + m.valid_to);
    assert(candidates[7] == "# supersedes "@ + t);
    assert(x == candidates[0] || x == candidates[1] || x == candidates[2] || x == candidates[3] || x == candidates[4]
        || x == candidates[5] || x == candidates[6] || x == candidates[7]);
}

/// The reference text is printable.
proof fn lemma_refs_text_safe(refs: Seq<i64>)
    requires
        forall|i: int| 0 <= i < refs.len() ==> #[trigger] refs[i] > 0,
    ensures
        line_safe(join_comma(ref_items(refs))),
{
    reveal_strlit("@");
    let items = ref_items(refs);
    assert forall|i: int| 0 <= i < items.len() implies line_safe(#[trigger] items[i]) by {
        let x = refs[i];
        lemma_decimal(x as nat);
        assert(items[i] == "@"@ + int_text(x as int));
        assert(printable("@"@ + int_text(x as int))) by {
            assert forall|k: int| 0 <= k < ("@"@ + int_text(x as int)).len() implies (#[trigger] ("@"@ + int_text(
                x as int,
            ))[k] as u32) >= 32 by {
                if k > 0 {
                    assert(("@"@ + int_text(x as int))[k] == decimal(x as nat)[k - 1]);
                    assert(ascii_digit(decimal(x as nat)[k - 1]));
                }
            }
        }
        lemma_printable_safe(items[i]);
    }
    lemma_join_free(items, '\n');
    lemma_join_free(items, '\r');
    lemma_join_free(items, '\0');
}


/// Freshness texts have the header's freshness shape.
proof fn lemma_freshness_shaped(last_used: Seq<char>, fallback: Seq<char>, today: Seq<char>)
    ensures
        fresh_shaped(freshness_seq(last_used, fallback, today)),
{
    let days = freshness_days_seq(last_used, fallback, today);
    if days >= FRESHNESS_LEN {
        lemma_hundredths_shaped(0);
    } else {
        lemma_hundredths_shaped(FRESHNESS_HUNDREDTHS[days] as nat);
    }
}

/// The scan of the lines after the header of a canonical card.
#[verifier::rlimit(60)]
proof fn lemma_scan_card_lines(m: CardModel, h: (int, Seq<char>, Seq<char>, int, int, Seq<char>))
    requires
        canonical_card(m),
        h == (m.id, m.card_type, m.status, m.importance, m.trust, m.updated),
    ensures
        scan_lines(initial_scan(h), directive_lines(m) + seq![m.title] + m.body) == Ok::<ScanState, Seq<char>>(ScanState {
            card: CardModel { deduplicated: false, unchanged: false, ..m },
            title_set: true,
            entity_seen: m.entities.len() > 0,
            source_seen: true,
            format_seen: true,
        }),
{
    let st0 = initial_scan(h);
    reveal_strlit("user");
    assert(fresh_state(st0));
    lemma_scan_directives(st0, m);
    let s1 = after_directives(st0, m);
    lemma_scan_one(s1, m.title);
    lemma_scan_title(s1, m.title);
    let s2 = ScanState { card: CardModel { title: m.title, ..s1.card }, title_set: true, ..s1 };
    lemma_scan_body(s2, m.body);
    lemma_scan_concat(st0, directive_lines(m), seq![m.title]);
    lemma_scan_concat(st0, directive_lines(m) + seq![m.title], m.body);
    assert(s2.card.body + m.body =~= m.body);
}

/// The checks after the scan accept a canonical card.
proof fn lemma_canonical_accepted(m: CardModel)
    requires
        canonical_card(m),
    ensures
        card_error(CardModel { deduplicated: false, unchanged: false, ..m }) is None,
{
    let c = CardModel { deduplicated: false, unchanged: false, ..m };
    assert(c.supersedes.no_duplicates()) by {
        assert forall|a: int, b: int| 0 <= a < c.supersedes.len() && 0 <= b < c.supersedes.len() && a != b implies c.supersedes[a]
            != c.supersedes[b] by {
            if a < b {
                assert(c.supersedes[a] < c.supersedes[b]);
            } else {
                assert(c.supersedes[b] < c.supersedes[a]);
            }
        }
    }
    assert(!(exists|k: int| 0 <= k < c.supersedes.len() && #[trigger] c.supersedes[k] <= 0));
    assert(!(exists|k: int| 0 <= k < c.supersedes.len() && #[trigger] c.supersedes[k] > MAX_PUBLIC_ID));
}

/// Round trip: a card in canonical form, written as `.mem` text on any day
/// and read back, is the same card (read cards are never marked
/// deduplicated or unchanged). Only a text over the 2 MiB card limit is
/// refused.
#[verifier::rlimit(100)]
#[verifier::spinoff_prover]
pub proof fn law_canonical_card_round_trip(c: Card, today: Seq<char>)
    requires
        canonical_card(c@),
        utf8_len(serialize_seq(c, today)) <= 2097152,
    ensures
        parse_card_result(serialize_seq(c, today)) == Ok::<CardModel, Seq<char>>(
            CardModel { deduplicated: false, unchanged: false, ..c@ },
        ),
{
    let m = c@;
    let f = freshness_seq(c.last_used@, c.updated@, today);
    let hl = header_text(m.id, m.card_type, m.status, m.importance, m.trust, f, m.updated);
    let lines = card_line_list(m, f);
    let text = serialize_seq(c, today);
    lemma_serialize_layout(c, today);
    lemma_freshness_shaped(c.last_used@, c.updated@, today);
    lemma_header_printable(m.id, m.card_type, m.status, m.importance, m.trust, f, m.updated);
    lemma_directive_lines_safe(m);
    let d = directive_lines(m);
    assert(lines == seq![hl] + d + seq![m.title] + m.body);
    assert forall|i: int| 0 <= i < lines.len() implies line_safe(#[trigger] lines[i]) by {
        if i == 0 {
            assert(lines[i] == hl);
        } else if i < 1 + d.len() {
            assert(lines[i] == d[i - 1]);
        } else if i == 1 + d.len() {
            assert(lines[i] == m.title);
        } else {
            assert(lines[i] == m.body[i - 2 - d.len()]);
        }
    }
    lemma_split_lines(lines);
    lemma_body_block_free(lines, '\r');
    lemma_body_block_free(lines, '\0');
    lemma_crlf_identity(text);
    // the text starts with the header's `@`
    reveal_strlit("@");
    lemma_body_block_concat(seq![hl], d + seq![m.title] + m.body);
    assert(lines =~= seq![hl] + (d + seq![m.title] + m.body));
    lemma_body_block_one(hl);
    assert(hl[0] == '@');
    assert(text[0] == '@');
    assert(raw_text_error(text) is None);
    // the lines
    assert(split_on(crlf_to_lf(text), '\n') == lines.push(Seq::empty()));
    assert(lines.push(Seq::<char>::empty()).drop_last() =~= lines);
    assert(card_lines(text) == lines);
    // the header
    lemma_header_parses(m.id, m.card_type, m.status, m.importance, m.trust, f, m.updated);
    let h = (m.id, m.card_type, m.status, m.importance, m.trust, m.updated);
    assert(start_scan(lines) == Ok::<ScanState, Seq<char>>(initial_scan(h)));
    // the rest
    assert(lines.skip(1) =~= d + seq![m.title] + m.body);
    lemma_scan_card_lines(m, h);
    lemma_canonical_accepted(m);
}

/// Canonical text is a fixed point: a card read back from the text written
/// for a canonical card writes that same text again, on the same day.
pub proof fn law_canonical_text_fixed_point(c: Card, back: Card, today: Seq<char>)
    requires
        canonical_card(c@),
        utf8_len(serialize_seq(c, today)) <= 2097152,
        parse_card_result(serialize_seq(c, today)) == Ok::<CardModel, Seq<char>>(back@),
    ensures
        serialize_seq(back, today) == serialize_seq(c, today),
{
    law_canonical_card_round_trip(c, today);
    assert(back@ == CardModel { deduplicated: false, unchanged: false, ..c@ });
    assert(back.id as int == c.id as int);
    assert(back.importance as int == c.importance as int);
    assert(back.trust as int == c.trust as int);
    assert(views(back.entities@) == views(c.entities@));
    assert(back.entities@.len() == c.entities@.len());
    assert(back.supersedes@ == c.supersedes@);
    assert(views(back.body@) == views(c.body@));
    assert(header_seq(back, today) == header_seq(c, today));
    assert(entity_line_seq(back) == entity_line_seq(c));
    assert(meta_lines_seq(back) == meta_lines_seq(c));
    assert(supersedes_line_seq(back) == supersedes_line_seq(c));
}

} // verus!
