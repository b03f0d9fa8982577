//! JSON string literals, as `serde_json` writes them.

use vstd::prelude::*;

verus! {

#[verifier::external_type_specification]
#[verifier::external_body]
pub struct ExJsonError(serde_json::Error);

/// What `serde_json::to_string` writes for a string: the JSON string
/// literal (quotes and escapes) of its characters.
pub uninterp spec fn json_string_literal(s: Seq<char>) -> Seq<char>;

/// `serde_json::to_string` on a `&str`. Claimed: it succeeds (a string is
/// written with `serialize_str` into a `Vec<u8>`, which cannot fail), and
/// the text depends on the string's characters alone (named
/// `json_string_literal`). Not claimed: how the escapes look.
#[verifier::external_body]
pub(crate) fn json_string(s: &str) -> (r: Result<String, serde_json::Error>)
    ensures
        r is Ok,
        r matches Ok(t) ==> t@ == json_string_literal(s@),
{
    serde_json::to_string(s)
}

#[verifier::external_type_specification]
#[verifier::external_body]
pub struct ExValue(serde_json::Value);

/// `serde_json::from_str::<Value>` accepts the text.
pub uninterp spec fn json_reads(t: Seq<char>) -> bool;

/// The text `serde_json::to_string` writes for the value that
/// `serde_json::from_str::<Value>` reads from `t`.
pub uninterp spec fn json_text_of(t: Seq<char>) -> Seq<char>;

/// A JSON value, kept with a text that it was read from (`null` for the
/// null value); that text is its view.
pub struct JsonValue {
    value: serde_json::Value,
    text: Ghost<Seq<char>>,
}

impl View for JsonValue {
    type V = Seq<char>;

    closed spec fn view(&self) -> Seq<char> {
        self.text@
    }
}

impl JsonValue {
    /// The `serde_json` value.
    pub fn as_value(&self) -> &serde_json::Value {
        &self.value
    }

    /// The null value.
    pub fn null() -> (v: JsonValue)
        ensures
            v@ == "null"@,
    {
        null_value()
    }

    /// The value a JSON text denotes, when it is JSON.
    pub fn read(t: &str) -> (r: Option<JsonValue>)
        ensures
            r is Some <==> json_reads(t@),
            r matches Some(v) ==> v@ == t@,
    {
        read_json_value(t)
    }
}

/// `serde_json::from_str::<Value>`: claimed to succeed exactly on the texts
/// named `json_reads`; the value keeps the text.
#[verifier::external_body]
pub(crate) fn read_json_value(t: &str) -> (r: Option<JsonValue>)
    ensures
        r is Some <==> json_reads(t@),
        r matches Some(v) ==> v@ == t@,
{
    serde_json::from_str::<serde_json::Value>(t).ok().map(|value| JsonValue { value, text: Ghost(t@) })
}

/// `serde_json::Value::Null`, which is what the text `null` reads as.
#[verifier::external_body]
pub(crate) fn null_value() -> (v: JsonValue)
    ensures
        v@ == "null"@,
{
    JsonValue { value: serde_json::Value::Null, text: Ghost("null"@) }
}

/// `Value::clone`: claimed to give back an equal value.
#[verifier::external_body]
pub(crate) fn clone_value(v: &JsonValue) -> (r: JsonValue)
    ensures
        r == *v,
{
    JsonValue { value: v.value.clone(), text: v.text }
}

/// `serde_json::to_string` on a value. Claimed: it succeeds (a `Value`
/// holds only string keys and finite numbers, written into a `Vec<u8>`),
/// and the text is named `json_text_of` of the text the value was read
/// from.
#[verifier::external_body]
pub(crate) fn value_json(v: &JsonValue) -> (r: Result<String, serde_json::Error>)
    ensures
        r is Ok,
        r matches Ok(t) ==> t@ == json_text_of(v@),
{
    serde_json::to_string(&v.value)
}

} // verus!
