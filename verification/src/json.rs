//! A JSON document as the library reads it.
//!
//! Numbers keep their printed text together with what `serde_json` reads from
//! them as an `i64` and as a binary64 float; strings keep, beside their text,
//! what parsing the text as a binary64 float gives. The hosting program fills
//! these in when it turns a decoded document into a `JsonValue`.
use vstd::prelude::*;

use crate::binary64::Binary64;
use crate::text::{parse_i64, parse_i64_spec, push_str, str_eq};

verus! {

/// A JSON number.
pub struct JsonNumber {
    /// The number as printed.
    pub text: String,
    /// The number as an `i64`, when it is an integer in range.
    pub integer: Option<i64>,
    /// The number as a binary64 float, when it has one.
    pub float: Option<Binary64>,
}

/// A JSON string.
pub struct JsonString {
    /// The characters of the string.
    pub text: String,
    /// The text read as a binary64 float, when it reads as one.
    pub float: Option<Binary64>,
}

/// A member of a JSON object.
pub struct JsonMember {
    pub key: String,
    pub value: JsonValue,
}

/// A JSON value.
pub enum JsonValue {
    Null,
    Bool(bool),
    Number(JsonNumber),
    String(JsonString),
    Array(Vec<JsonValue>),
    Object(Vec<JsonMember>),
}

/// The value of the first member named `key`.
pub open spec fn member_value(members: Seq<JsonMember>, key: Seq<char>) -> Option<JsonValue>
    decreases members.len(),
{
    if members.len() == 0 {
        None
    } else if members[0].key@ == key {
        Some(members[0].value)
    } else {
        member_value(members.drop_first(), key)
    }
}

/// `value.get(key)`: the member named `key` of an object, nothing for other values.
pub open spec fn json_get(value: JsonValue, key: Seq<char>) -> Option<JsonValue> {
    match value {
        JsonValue::Object(members) => member_value(members@, key),
        _ => None,
    }
}

/// `value.as_str()`.
pub open spec fn json_str(value: JsonValue) -> Option<Seq<char>> {
    match value {
        JsonValue::String(s) => Some(s.text@),
        _ => None,
    }
}

/// `value.as_bool()`.
pub open spec fn json_bool(value: JsonValue) -> Option<bool> {
    match value {
        JsonValue::Bool(b) => Some(b),
        _ => None,
    }
}

/// `value.as_array()`.
pub open spec fn json_array(value: JsonValue) -> Option<Seq<JsonValue>> {
    match value {
        JsonValue::Array(items) => Some(items@),
        _ => None,
    }
}

/// `value.as_i64()`: numbers only.
pub open spec fn json_i64(value: JsonValue) -> Option<i64> {
    match value {
        JsonValue::Number(n) => n.integer,
        _ => None,
    }
}

/// `value.as_f64()`: numbers only.
pub open spec fn json_f64(value: JsonValue) -> Option<Binary64> {
    match value {
        JsonValue::Number(n) => n.float,
        _ => None,
    }
}

/// A float read leniently: a number's float, or a string parsed as a float.
pub open spec fn lenient_f64(value: Option<JsonValue>) -> Option<Binary64> {
    match value {
        Some(JsonValue::Number(n)) => n.float,
        Some(JsonValue::String(s)) => s.float,
        _ => None,
    }
}

/// An integer read leniently: a number's `i64`, or a string parsed as an `i64`.
pub open spec fn lenient_i64(value: Option<JsonValue>) -> Option<i64> {
    match value {
        Some(JsonValue::Number(n)) => n.integer,
        Some(JsonValue::String(s)) => parse_i64_spec(s.text@),
        _ => None,
    }
}

/// A text read leniently: a string's characters, a number as printed, otherwise empty.
pub open spec fn lenient_text(value: Option<JsonValue>) -> Seq<char> {
    match value {
        Some(JsonValue::String(s)) => s.text@,
        Some(JsonValue::Number(n)) => n.text@,
        _ => Seq::empty(),
    }
}

/// Views an optional reference as an optional value.
pub open spec fn deref_opt(v: Option<&JsonValue>) -> Option<JsonValue> {
    match v {
        Some(x) => Some(*x),
        None => None,
    }
}

impl JsonValue {
    /// The member named `key` of an object; nothing for other values.
    pub fn get(&self, key: &str) -> (res: Option<&JsonValue>)
        ensures
            deref_opt(res) == json_get(*self, key@),
    {
        match self {
            JsonValue::Object(members) => {
                let mut i: usize = 0;
                assert(members@.subrange(0, members.len() as int) =~= members@);
                while i < members.len()
                    invariant
                        i <= members.len(),
                        json_get(*self, key@) == member_value(members@, key@),
                        member_value(members@, key@) == member_value(
                            members@.subrange(i as int, members.len() as int),
                            key@,
                        ),
                    decreases members.len() - i,
                {
                    let ghost rest = members@.subrange(i as int, members.len() as int);
                    assert(rest[0] == members@[i as int]);
                    if str_eq(members[i].key.as_str(), key) {
                        assert(member_value(rest, key@) == Some(members@[i as int].value));
                        assert(deref_opt(Some(&members[i as int].value)) == Some(members@[i as int].value));
                        return Some(&members[i].value);
                    }
                    assert(rest.drop_first() =~= members@.subrange(i + 1, members.len() as int));
                    i = i + 1;
                }
                None
            },
            _ => None,
        }
    }

    pub fn as_str(&self) -> (res: Option<&str>)
        ensures
            match res {
                Some(s) => json_str(*self) == Some(s@),
                None => json_str(*self) is None,
            },
    {
        match self {
            JsonValue::String(s) => Some(s.text.as_str()),
            _ => None,
        }
    }

    pub fn as_array(&self) -> (res: Option<&Vec<JsonValue>>)
        ensures
            match res {
                Some(items) => json_array(*self) == Some(items@),
                None => json_array(*self) is None,
            },
    {
        match self {
            JsonValue::Array(items) => Some(items),
            _ => None,
        }
    }

    pub fn as_bool(&self) -> (res: Option<bool>)
        ensures
            res == json_bool(*self),
    {
        match self {
            JsonValue::Bool(b) => Some(*b),
            _ => None,
        }
    }

    pub fn as_i64(&self) -> (res: Option<i64>)
        ensures
            res == json_i64(*self),
    {
        match self {
            JsonValue::Number(n) => n.integer,
            _ => None,
        }
    }

    pub fn as_f64(&self) -> (res: Option<Binary64>)
        ensures
            res == json_f64(*self),
    {
        match self {
            JsonValue::Number(n) => n.float,
            _ => None,
        }
    }
}

/// A float from a number, or from a string that parses as one.
pub fn lenient_float(value: Option<&JsonValue>) -> (res: Option<Binary64>)
    ensures
        res == lenient_f64(deref_opt(value)),
{
    match value {
        Some(JsonValue::Number(n)) => n.float,
        Some(JsonValue::String(s)) => s.float,
        _ => None,
    }
}

/// An integer from a number, or from a string that parses as one.
pub fn lenient_integer(value: Option<&JsonValue>) -> (res: Option<i64>)
    ensures
        res == lenient_i64(deref_opt(value)),
{
    match value {
        Some(JsonValue::Number(n)) => n.integer,
        Some(JsonValue::String(s)) => parse_i64(s.text.as_str()),
        _ => None,
    }
}

/// The text of a string or of a number as printed; empty for anything else.
pub fn lenient_string(value: Option<&JsonValue>) -> (res: String)
    ensures
        res@ == lenient_text(deref_opt(value)),
{
    match value {
        Some(JsonValue::String(s)) => s.text.clone(),
        Some(JsonValue::Number(n)) => n.text.clone(),
        _ => String::new(),
    }
}


/// The JSON string literal `serde_json` writes for a text: the text in double
/// quotes, with quotes, backslashes and control characters escaped.
pub uninterp spec fn json_quoted(text: Seq<char>) -> Seq<char>;

/// Writes a text as a JSON string literal with `serde_json::to_string`. For a
/// string, serde_json's serialiser fails only when its writer does, and it
/// writes into a `Vec`, which cannot fail.
#[verifier::external_body]
pub(crate) fn quote_json(text: &str) -> (res: String)
    ensures
        res@ == json_quoted(text@),
{
    serde_json::to_string(text).unwrap_or_default()
}

/// The texts as JSON string literals, separated by commas.
pub open spec fn quoted_list(texts: Seq<Seq<char>>) -> Seq<char>
    decreases texts.len(),
{
    if texts.len() == 0 {
        Seq::empty()
    } else if texts.len() == 1 {
        json_quoted(texts[0])
    } else {
        quoted_list(texts.drop_last()) + ","@ + json_quoted(texts.last())
    }
}

/// The characters of each string.
pub open spec fn texts_of(v: Seq<String>) -> Seq<Seq<char>> {
    Seq::new(v.len(), |i: int| v[i]@)
}

/// Appends the strings of `items` to `out` as JSON string literals separated
/// by commas.
pub fn push_quoted_list(out: &mut String, items: &Vec<String>)
    ensures
        final(out)@ == old(out)@ + quoted_list(texts_of(items@)),
{
    let mut i: usize = 0;
    while i < items.len()
        invariant
            i <= items.len(),
            out@ == old(out)@ + quoted_list(texts_of(items@.subrange(0, i as int))),
        decreases items.len() - i,
    {
        let ghost before = out@;
        let ghost done = texts_of(items@.subrange(0, i as int));
        let ghost next = texts_of(items@.subrange(0, i + 1));
        assert(next.drop_last() =~= done);
        assert(next.last() == items@[i as int]@);
        if i > 0 {
            push_str(out, ",");
        }
        let q = quote_json(items[i].as_str());
        push_str(out, q.as_str());
        proof {
            if i == 0 {
                assert(done.len() == 0);
                assert(out@ =~= old(out)@ + quoted_list(next));
            } else {
                assert(out@ =~= old(out)@ + quoted_list(next));
            }
        }
        i = i + 1;
    }
    assert(items@.subrange(0, items.len() as int) =~= items@);
}

} // verus!
