//! Reading settings out of the merged configuration: sections and their
//! values, integers as Python's `int()` reads a setting (for the values
//! that are not floating-point numbers), clamping with a default, and string
//! lists in file order.

use vstd::prelude::*;

use crate::chars::to_chars;
use crate::host_setup::{trim_chars, trim_ws};
use crate::json::{deref_opt, json_get, JsonValue};
use crate::mem::{ascii_digit, digits_field, digits_value, views};

verus! {

broadcast use vstd::string::group_string_axioms;

/// The section `name` of a configuration, when it is an object.
pub open spec fn section_of(config: JsonValue, name: Seq<char>) -> Option<JsonValue> {
    match json_get(config, name) {
        Some(v) => if v is Object {
            Some(v)
        } else {
            None
        },
        None => None,
    }
}

/// The section `name` of a configuration, when it is an object.
pub fn section<'a>(config: &'a JsonValue, name: &str) -> (r: Option<&'a JsonValue>)
    ensures
        deref_opt(r) == section_of(*config, name@),
{
    match config.get(name) {
        Some(v) => if v.is_object() {
            Some(v)
        } else {
            None
        },
        None => None,
    }
}

/// The value of `key` in a section, if the section is there.
pub fn get<'a>(section: Option<&'a JsonValue>, key: &str) -> (r: Option<&'a JsonValue>)
    ensures
        deref_opt(r) == match deref_opt(section) {
            Some(s) => json_get(s, key@),
            None => None,
        },
{
    match section {
        Some(s) => s.get(key),
        None => None,
    }
}

/// A decimal integer as `str::parse::<i64>` reads it: an optional sign and
/// at least one ASCII digit, within the 64-bit range.
pub open spec fn rust_int_seq(t: Seq<char>) -> Option<i64> {
    let signed = t.len() > 0 && (t[0] == '+' || t[0] == '-');
    let body = if signed { t.drop_first() } else { t };
    match digits_field(body) {
        Some(v) => {
            let x = if signed && t[0] == '-' { -v } else { v };
            if i64::MIN <= x <= i64::MAX {
                Some(x as i64)
            } else {
                None
            }
        },
        None => None,
    }
}

/// A setting as Python's `int()` reads it: `true`/`false` as 1/0, an
/// integer as itself, a text (trimmed) as a decimal integer; anything else
/// as nothing.
pub open spec fn py_int_seq(v: JsonValue) -> Option<i64> {
    match v {
        JsonValue::Bool(b) => Some(if b { 1 } else { 0 }),
        JsonValue::Int(n) => Some(n),
        JsonValue::Str(s) => {
            let t = trim_ws(s@);
            if t.len() == 0 {
                None
            } else {
                rust_int_seq(t)
            }
        },
        _ => None,
    }
}

/// A prefix of a run of digits is worth no more than the run.
proof fn lemma_digits_prefix(s: Seq<char>, k: int)
    requires
        0 <= k <= s.len(),
        forall|i: int| 0 <= i < s.len() ==> ascii_digit(#[trigger] s[i]),
    ensures
        digits_value(s.take(k)) <= digits_value(s),
        digits_value(s) >= 0,
    decreases s.len(),
{
    if s.len() > 0 {
        if k == s.len() {
            assert(s.take(k) =~= s);
        }
        lemma_digits_prefix(s.drop_last(), if k < s.len() { k } else { s.len() - 1 });
        if k < s.len() {
            assert(s.drop_last().take(k) =~= s.take(k));
        }
    } else {
        assert(s.take(k) =~= s);
    }
}

/// Reads a decimal integer as `str::parse::<i64>` does.
pub fn parse_rust_int(t: &[char]) -> (r: Option<i64>)
    ensures
        r == rust_int_seq(t@),
{
    let signed = t.len() > 0 && (t[0] == '+' || t[0] == '-');
    let negative = signed && t[0] == '-';
    let start: usize = if signed { 1 } else { 0 };
    let ghost body = if signed { t@.drop_first() } else { t@ };
    assert(body =~= t@.skip(start as int));
    if start >= t.len() {
        assert(body.len() == 0);
        return None;
    }
    let limit: i128 = 9223372036854775808;
    let mut acc: i128 = 0;
    let mut i: usize = start;
    assert(body.take(0) =~= Seq::<char>::empty());
    while i < t.len()
        invariant
            start <= i <= t.len(),
            signed == (t@.len() > 0 && (t@[0] == '+' || t@[0] == '-')),
            negative == (signed && t@[0] == '-'),
            start == (if signed { 1usize } else { 0usize }),
            body == (if signed { t@.drop_first() } else { t@ }),
            body == t@.skip(start as int),
            acc == digits_value(body.take(i - start)),
            0 <= acc <= limit,
            limit == 9223372036854775808,
            forall|k: int| 0 <= k < i - start ==> ascii_digit(#[trigger] body[k]),
        decreases t.len() - i,
    {
        let c = t[i];
        assert(body[i - start] == c);
        if !('0' <= c && c <= '9') {
            assert(!ascii_digit(body[i - start]));
            assert(digits_field(body) is None);
            return None;
        }
        assert(body.take(i - start + 1).drop_last() =~= body.take(i - start));
        let next = acc * 10 + ((c as u32) - ('0' as u32)) as i128;
        if next > limit {
            proof {
                if forall|k: int| 0 <= k < body.len() ==> ascii_digit(#[trigger] body[k]) {
                    lemma_digits_prefix(body, i - start + 1);
                    assert(digits_value(body) > limit);
                }
            }
            return None;
        }
        acc = next;
        i = i + 1;
    }
    assert(body.take(body.len() as int) =~= body);
    let value: i128 = if negative { -acc } else { acc };
    if value > i64::MAX as i128 {
        return None;
    }
    Some(value as i64)
}

/// A setting as Python's `int()` reads it; a floating-point setting is read
/// by the caller, which holds its value.
pub fn py_int(v: &JsonValue) -> (r: Option<i64>)
    requires
        !(*v is Float),
    ensures
        r == py_int_seq(*v),
{
    match v {
        JsonValue::Bool(b) => Some(if *b { 1 } else { 0 }),
        JsonValue::Int(n) => Some(*n),
        JsonValue::Str(s) => {
            let t = trim_chars(&to_chars(s.as_str()));
            if t.len() == 0 {
                None
            } else {
                parse_rust_int(&t)
            }
        },
        _ => None,
    }
}

/// An integer setting with a default, clamped into `minimum..=maximum`.
pub fn bounded_int(number: Option<i64>, default: i64, minimum: i64, maximum: i64) -> (r: i64)
    requires
        minimum <= maximum,
    ensures
        ({
            let x = match number {
                Some(n) => n,
                None => default,
            };
            r == if x < minimum {
                minimum
            } else if x > maximum {
                maximum
            } else {
                x
            }
        }),
{
    let x = match number {
        Some(n) => n,
        None => default,
    };
    if x < minimum {
        minimum
    } else if x > maximum {
        maximum
    } else {
        x
    }
}

/// The texts of an array setting, in order, other items left out.
pub open spec fn string_items(items: Seq<JsonValue>) -> Seq<Seq<char>>
    decreases items.len(),
{
    if items.len() == 0 {
        Seq::empty()
    } else {
        match items.last() {
            JsonValue::Str(s) => string_items(items.drop_last()).push(s@),
            _ => string_items(items.drop_last()),
        }
    }
}

/// The texts of a string-list setting in file order: nothing unless it is
/// an array.
pub fn string_list(value: Option<&JsonValue>) -> (r: Vec<String>)
    ensures
        views(r@) == match deref_opt(value) {
            Some(JsonValue::Array(items)) => string_items(items@),
            _ => Seq::empty(),
        },
{
    let mut out: Vec<String> = Vec::new();
    match value {
        Some(JsonValue::Array(items)) => {
            let mut i: usize = 0;
            assert(items@.take(0) =~= Seq::<JsonValue>::empty());
            while i < items.len()
                invariant
                    i <= items.len(),
                    views(out@) == string_items(items@.take(i as int)),
                decreases items.len() - i,
            {
                assert(items@.take(i + 1).drop_last() =~= items@.take(i as int));
                match &items[i] {
                    JsonValue::Str(s) => {
                        let ghost prev = out@;
                        out.push(String::from_str(s.as_str()));
                        assert(views(out@) =~= views(prev).push(s@));
                    },
                    _ => {},
                }
                i = i + 1;
            }
            assert(items@.take(items.len() as int) =~= items@);
        },
        _ => {
            assert(views(out@) =~= Seq::<Seq<char>>::empty());
        },
    }
    out
}

} // verus!
