//! JSON text helpers.

use vstd::prelude::*;

use crate::chars::{hex2, push_char, push_hex2, to_chars};

verus! {

broadcast use vstd::string::group_string_axioms;

/// JSON escape of one scalar inside a string literal.
pub open spec fn json_escape_char(c: char) -> Seq<char> {
    if c == '"' {
        seq!['\\', '"']
    } else if c == '\\' {
        seq!['\\', '\\']
    } else if c == '\n' {
        seq!['\\', 'n']
    } else if c == '\r' {
        seq!['\\', 'r']
    } else if c == '\t' {
        seq!['\\', 't']
    } else if c == '\u{8}' {
        seq!['\\', 'b']
    } else if c == '\u{c}' {
        seq!['\\', 'f']
    } else if (c as u32) < 0x20 {
        seq!['\\', 'u', '0', '0'] + hex2(c as u32 as nat)
    } else {
        seq![c]
    }
}

/// JSON escape of each scalar of a text.
pub open spec fn json_escape_body(s: Seq<char>) -> Seq<char>
    decreases s.len(),
{
    if s.len() == 0 {
        Seq::empty()
    } else {
        json_escape_body(s.drop_last()) + json_escape_char(s.last())
    }
}

/// A JSON string literal for a text.
pub open spec fn json_string_literal(s: Seq<char>) -> Seq<char> {
    seq!['"'] + json_escape_body(s) + seq!['"']
}

/// Appends the JSON string literal of `value` to `out`.
pub fn escape_string(value: &str, out: &mut String)
    ensures
        final(out)@ == old(out)@ + json_string_literal(value@),
{
    let v = to_chars(value);
    push_char(out, '"');
    let mut i: usize = 0;
    while i < v.len()
        invariant
            i <= v.len(),
            v@ == value@,
            out@ == old(out)@ + seq!['"'] + json_escape_body(v@.take(i as int)),
        decreases v.len() - i,
    {
        let c = v[i];
        let ghost before = out@;
        if c == '"' {
            push_char(out, '\\');
            push_char(out, '"');
        } else if c == '\\' {
            push_char(out, '\\');
            push_char(out, '\\');
        } else if c == '\n' {
            push_char(out, '\\');
            push_char(out, 'n');
        } else if c == '\r' {
            push_char(out, '\\');
            push_char(out, 'r');
        } else if c == '\t' {
            push_char(out, '\\');
            push_char(out, 't');
        } else if c == '\u{8}' {
            push_char(out, '\\');
            push_char(out, 'b');
        } else if c == '\u{c}' {
            push_char(out, '\\');
            push_char(out, 'f');
        } else if (c as u32) < 0x20 {
            push_char(out, '\\');
            push_char(out, 'u');
            push_char(out, '0');
            push_char(out, '0');
            let mut hex: Vec<char> = Vec::new();
            push_hex2(&mut hex, c as u32);
            push_char(out, hex[0]);
            push_char(out, hex[1]);
        } else {
            push_char(out, c);
        }
        assert(out@ =~= before + json_escape_char(c));
        assert(v@.take(i + 1).drop_last() =~= v@.take(i as int));
        i = i + 1;
    }
    push_char(out, '"');
    assert(v@.take(v.len() as int) =~= v@);
    assert(out@ =~= old(out)@ + json_string_literal(value@));
}


/// A parsed JSON value as plain values. A number that is not a 64-bit
/// integer is held by the one fact the kernel reads of it: whether it is a
/// whole number above the largest public id.
#[derive(Debug)]
pub enum JsonValue {
    Null,
    Bool(bool),
    Int(i64),
    Float { whole_above_max_id: bool },
    Str(String),
    Array(Vec<JsonValue>),
    Object(Vec<(String, JsonValue)>),
}

/// The value of the first pair with key `key`.
pub open spec fn first_pair(pairs: Seq<(String, JsonValue)>, key: Seq<char>) -> Option<JsonValue>
    decreases pairs.len(),
{
    if pairs.len() == 0 {
        None
    } else if pairs[0].0@ == key {
        Some(pairs[0].1)
    } else {
        first_pair(pairs.drop_first(), key)
    }
}

/// The member `key` of an object.
pub open spec fn json_get(v: JsonValue, key: Seq<char>) -> Option<JsonValue> {
    match v {
        JsonValue::Object(pairs) => first_pair(pairs@, key),
        _ => None,
    }
}

/// The keys of an object, in order.
pub open spec fn json_keys(v: JsonValue) -> Seq<Seq<char>> {
    match v {
        JsonValue::Object(pairs) => pairs@.map_values(|p: (String, JsonValue)| p.0@),
        _ => Seq::empty(),
    }
}

/// The text of a string value.
pub open spec fn json_str(v: Option<JsonValue>) -> Option<Seq<char>> {
    match v {
        Some(JsonValue::Str(s)) => Some(s@),
        _ => None,
    }
}

/// The plain value of an optional reference.
pub open spec fn deref_opt(o: Option<&JsonValue>) -> Option<JsonValue> {
    match o {
        Some(x) => Some(*x),
        None => None,
    }
}

impl JsonValue {
    /// The member `key` of an object (the first, should it repeat).
    pub fn get(&self, key: &str) -> (r: Option<&JsonValue>)
        ensures
            deref_opt(r) == json_get(*self, key@),
    {
        match self {
            JsonValue::Object(pairs) => {
                assert(json_get(*self, key@) == first_pair(pairs@, key@));
                let mut k: usize = 0;
                assert(pairs@.skip(0) =~= pairs@);
                while k < pairs.len()
                    invariant
                        k <= pairs@.len(),
                        json_get(*self, key@) == first_pair(pairs@, key@),
                        first_pair(pairs@.skip(k as int), key@) == first_pair(pairs@, key@),
                    decreases pairs.len() - k,
                {
                    assert(pairs@.skip(k as int)[0] == pairs@[k as int]);
                    if crate::chars::str_eq(pairs[k].0.as_str(), key) {
                        assert(first_pair(pairs@.skip(k as int), key@) == Some(pairs@[k as int].1));
                        return Some(&pairs[k].1);
                    }
                    assert(pairs@.skip(k as int).drop_first() =~= pairs@.skip(k + 1));
                    k = k + 1;
                }
                None
            },
            _ => None,
        }
    }

    /// Whether the value is an object.
    pub fn is_object(&self) -> (r: bool)
        ensures
            r == (*self is Object),
    {
        match self {
            JsonValue::Object(_) => true,
            _ => false,
        }
    }

    /// The keys of an object, in order; none for another value.
    pub fn keys(&self) -> (r: Vec<String>)
        ensures
            crate::mem::views(r@) == json_keys(*self),
    {
        let mut out: Vec<String> = Vec::new();
        match self {
            JsonValue::Object(pairs) => {
                let mut k: usize = 0;
                while k < pairs.len()
                    invariant
                        k <= pairs@.len(),
                        crate::mem::views(out@) == pairs@.take(k as int).map_values(|p: (String, JsonValue)| p.0@),
                    decreases pairs.len() - k,
                {
                    let ghost prev = out@;
                    let key = pairs[k].0.clone();
                    assert(key@ == pairs@[k as int].0@);
                    out.push(key);
                    assert(crate::mem::views(out@) =~= crate::mem::views(prev).push(pairs@[k as int].0@));
                    assert(pairs@.take(k + 1).map_values(|p: (String, JsonValue)| p.0@) =~= pairs@.take(
                        k as int,
                    ).map_values(|p: (String, JsonValue)| p.0@).push(pairs@[k as int].0@));
                    k = k + 1;
                }
                assert(pairs@.take(pairs.len() as int) =~= pairs@);
            },
            _ => {
                assert(crate::mem::views(out@) =~= Seq::<Seq<char>>::empty());
            },
        }
        out
    }
}
} // verus!
verus! {

/// A JSON value as mathematical values.
pub enum JsonModel {
    Null,
    Bool(bool),
    Int(int),
    Float(bool),
    Str(Seq<char>),
    Array(Seq<JsonModel>),
    Object(Seq<(Seq<char>, JsonModel)>),
}

/// The mathematical value of a JSON value.
pub open spec fn json_model(v: JsonValue) -> JsonModel
    decreases v,
{
    match v {
        JsonValue::Null => JsonModel::Null,
        JsonValue::Bool(b) => JsonModel::Bool(b),
        JsonValue::Int(n) => JsonModel::Int(n as int),
        JsonValue::Float { whole_above_max_id } => JsonModel::Float(whole_above_max_id),
        JsonValue::Str(s) => JsonModel::Str(s@),
        JsonValue::Array(items) => JsonModel::Array(
            Seq::new(
                items@.len(),
                |i: int|
                    {
                        if 0 <= i < items@.len() {
                            proof {
                                assert(decreases_to!(v => items));
                            }
                            json_model(items@[i])
                        } else {
                            JsonModel::Null
                        }
                    },
            ),
        ),
        JsonValue::Object(pairs) => JsonModel::Object(
            Seq::new(
                pairs@.len(),
                |i: int|
                    if 0 <= i < pairs@.len() {
                        (pairs@[i].0@, json_model(pairs@[i].1))
                    } else {
                        (Seq::empty(), JsonModel::Null)
                    },
            ),
        ),
    }
}

} // verus!
