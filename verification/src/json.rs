//! What `serde_json` makes of a text.

use crate::text::{blank, opt_view};
use serde_json::Value;
use vstd::prelude::*;

verus! {

// ----------------------------------------------------------------- serde_json

/// A JSON value in memory.
#[verifier::external_type_specification]
#[verifier::external_body]
pub struct JsonValue(serde_json::Value);

/// The strings that a JSON object has, by their keys; nothing where the value is
/// not an object.
pub uninterp spec fn object_texts(value: Value) -> Option<Map<Seq<char>, Seq<char>>>;

/// What parsing a text as JSON gives: the value, or the text of the error.
pub uninterp spec fn parsed_value(text: Seq<char>) -> Result<Value, Seq<char>>;

/// `serde_json::from_str` into a `Value`: the result is a function of the text
/// alone.
#[verifier::external_body]
fn parse_value(text: &str) -> (r: Result<Value, String>)
    ensures
        match r {
            Ok(value) => parsed_value(text@) == Ok::<Value, Seq<char>>(value),
            Err(e) => parsed_value(text@) == Err::<Value, Seq<char>>(e@),
        },
{
    serde_json::from_str::<Value>(text).map_err(|e| e.to_string())
}

/// `Value::is_object`: whether the value is an object.
#[verifier::external_body]
fn is_object(value: &Value) -> (r: bool)
    ensures
        r == (object_texts(*value) is Some),
{
    value.is_object()
}

/// `Value::get` and `Value::as_str`: the string that an object has under a key,
/// if it has one there.
#[verifier::external_body]
fn get_text(value: &Value, key: &str) -> (r: Option<String>)
    ensures
        opt_view(r) == text_at(object_texts(*value), key@),
{
    value.get(key).and_then(Value::as_str).map(String::from)
}

/// The bits of the double-precision number that a JSON object has under a key,
/// if the value is an object and has a number there.
pub uninterp spec fn number_at(value: Value, key: Seq<char>) -> Option<u64>;

/// `Value::get` and `Value::as_f64`: the result is a function of the value and
/// the key.
#[verifier::external_body]
fn get_number(value: &Value, key: &str) -> (r: Option<u64>)
    ensures
        r == number_at(*value, key@),
{
    value.get(key).and_then(Value::as_f64).map(|n| n.to_bits())
}

/// A JSON object with a string put under a key.
pub uninterp spec fn value_with(value: Value, key: Seq<char>, text: Seq<char>) -> Value;

/// `Value::as_object_mut` and `Map::insert` of a string: the object has the
/// string under the key in place of what it had there, and under every other key
/// what it had.
#[verifier::external_body]
fn put_text(value: &mut Value, key: &str, text: &str)
    requires
        object_texts(*old(value)) is Some,
    ensures
        *final(value) == value_with(*old(value), key@, text@),
        object_texts(*final(value)) == Some(
            object_texts(*old(value))->Some_0.insert(key@, text@),
        ),
        forall|other: Seq<char>|
            other != key@ ==> #[trigger] number_at(*final(value), other) == number_at(
                *old(value),
                other,
            ),
        number_at(*final(value), key@) is None,
{
    value.as_object_mut().unwrap().insert(key.to_string(), Value::String(text.to_string()));
}

/// A JSON value as compact text.
pub uninterp spec fn printed_value(value: Value) -> Seq<char>;

/// `Value::to_string`: the result is a function of the value alone. The text is
/// one line, since the compact format has no line feeds and strings escape
/// theirs, and is not blank. Where it is read again, it is an object exactly
/// when the value is one, and has the same strings.
///
/// That it can always be read again is not stated: without `float_roundtrip`, a
/// number at the edge of the double-precision range may be written in digits
/// that the parser rounds out of range, and the parser limits the depth of
/// nesting.
#[verifier::external_body]
fn print_value(value: &Value) -> (r: String)
    ensures
        r@ == printed_value(*value),
        !blank(r@),
        !r@.contains('\n'),
        parsed_value(r@) is Ok ==> object_texts(parsed_value(r@)->Ok_0) == object_texts(*value),
{
    value.to_string()
}

// -------------------------------------------------------------------- reading

/// The string under a key, if there is one.
pub open spec fn text_at(
    texts: Option<Map<Seq<char>, Seq<char>>>,
    key: Seq<char>,
) -> Option<Seq<char>> {
    match texts {
        Some(m) => if m.dom().contains(key) {
            Some(m[key])
        } else {
            None
        },
        None => None,
    }
}

/// Whether a text is a JSON value.
pub open spec fn json_valid(text: Seq<char>) -> bool {
    parsed_value(text) is Ok
}

/// The strings of a JSON object, by their keys; nothing where the text is not a
/// JSON object.
pub open spec fn json_texts(text: Seq<char>) -> Option<Map<Seq<char>, Seq<char>>> {
    match parsed_value(text) {
        Ok(value) => object_texts(value),
        Err(_) => None,
    }
}

/// The bits of the double-precision number that a JSON object has under a key,
/// if the text is such an object and has one there.
pub open spec fn json_number(text: Seq<char>, key: Seq<char>) -> Option<u64> {
    match parsed_value(text) {
        Ok(value) => number_at(value, key),
        Err(_) => None,
    }
}

/// Whether a text is a JSON value.
pub fn is_json(text: &str) -> (r: bool)
    ensures
        r == json_valid(text@),
{
    parse_value(text).is_ok()
}

/// The string that a JSON object has under a key, if the text is such an object
/// and has one there.
pub fn text_field(text: &str, key: &str) -> (r: Option<String>)
    ensures
        opt_view(r) == text_at(json_texts(text@), key@),
{
    match parse_value(text) {
        Ok(value) => get_text(&value, key),
        Err(_) => None,
    }
}

/// The bits of the double-precision number that a JSON object has under a key,
/// if the text is such an object and has one there.
pub fn number_field(text: &str, key: &str) -> (r: Option<u64>)
    ensures
        r == json_number(text@, key@),
{
    match parse_value(text) {
        Ok(value) => get_number(&value, key),
        Err(_) => None,
    }
}

// ------------------------------------------------------------------- stamping

/// A JSON value with the agent and the time put into it; what is not an object
/// stays as it is.
pub open spec fn stamped(value: Value, agent: Seq<char>, at: Seq<char>) -> Value {
    if object_texts(value) is Some {
        value_with(value_with(value, "agent"@, agent), "at"@, at)
    } else {
        value
    }
}

/// The strings of a stamped value.
pub open spec fn stamped_texts(
    texts: Option<Map<Seq<char>, Seq<char>>>,
    agent: Seq<char>,
    at: Seq<char>,
) -> Option<Map<Seq<char>, Seq<char>>> {
    match texts {
        Some(m) => Some(m.insert("agent"@, agent).insert("at"@, at)),
        None => None,
    }
}

/// Puts the agent and the time into a JSON object, and leaves any other value as
/// it is.
pub fn stamp(value: &mut Value, agent: &str, at: &str)
    ensures
        *final(value) == stamped(*old(value), agent@, at@),
        object_texts(*final(value)) == stamped_texts(object_texts(*old(value)), agent@, at@),
        forall|key: Seq<char>|
            key != "agent"@ && key != "at"@ ==> #[trigger] number_at(*final(value), key)
                == number_at(*old(value), key),
{
    if is_object(value) {
        put_text(value, "agent", agent);
        put_text(value, "at", at);
    }
}

/// A JSON text with the agent and the time put into it where it is an object,
/// written anew on one line; or what the parser says is wrong with it.
pub fn stamp_text(text: &str, agent: &str, at: &str) -> (r: Result<String, String>)
    ensures
        match (parsed_value(text@), r) {
            (Ok(value), Ok(s)) => {
                &&& s@ == printed_value(stamped(value, agent@, at@))
                &&& !blank(s@)
                &&& !s@.contains('\n')
                &&& json_valid(s@) ==> json_texts(s@) == stamped_texts(
                    object_texts(value),
                    agent@,
                    at@,
                )
            },
            (Err(e), Err(msg)) => msg@ == e,
            _ => false,
        },
{
    match parse_value(text) {
        Ok(value) => {
            let mut value = value;
            stamp(&mut value, agent, at);
            Ok(print_value(&value))
        },
        Err(e) => Err(e),
    }
}

/// A stamp sets the agent and the time of an object and leaves every other string
/// as it is; what is not an object is not stamped.
pub proof fn law_stamp(
    value: Value,
    texts: Map<Seq<char>, Seq<char>>,
    agent: Seq<char>,
    at: Seq<char>,
    key: Seq<char>,
)
    ensures
        text_at(stamped_texts(Some(texts), agent, at), "agent"@) == Some(agent),
        text_at(stamped_texts(Some(texts), agent, at), "at"@) == Some(at),
        key != "agent"@ && key != "at"@ ==> text_at(stamped_texts(Some(texts), agent, at), key)
            == text_at(Some(texts), key),
        stamped_texts(None, agent, at) is None,
        object_texts(value) is None ==> stamped(value, agent, at) == value,
        object_texts(value) is Some ==> stamped(value, agent, at) == value_with(
            value_with(value, "agent"@, agent),
            "at"@,
            at,
        ),
        texts.dom().contains(key) ==> text_at(Some(texts), key) == Some(texts[key]),
        !texts.dom().contains(key) ==> text_at(Some(texts), key) is None,
        text_at(None, key) is None,
{
    reveal_strlit("agent");
    reveal_strlit("at");
    assert("agent"@.len() != "at"@.len());
}

/// What a text says is what its JSON value says, and a text that is no JSON says
/// nothing.
pub proof fn law_json(text: Seq<char>, key: Seq<char>)
    ensures
        json_valid(text) <==> parsed_value(text) is Ok,
        parsed_value(text) matches Ok(value) ==> json_texts(text) == object_texts(value)
            && json_number(text, key) == number_at(value, key),
        parsed_value(text) is Err ==> json_texts(text) is None && json_number(text, key) is None,
{
}

} // verus!
