use vstd::prelude::*;

verus! {

#[verifier::external_type_specification]
#[verifier::external_body]
pub struct ExValue(serde_json::Value);

/// Relies on serde_json::Value::clone, so that records holding a JSON
/// metadata value can be cloned.
pub assume_specification[ <serde_json::Value as Clone>::clone ](v: &serde_json::Value) -> serde_json::Value;

/// Whether serde_json's JSON grammar accepts `s` as a document; a function
/// of the text alone.
pub uninterp spec fn json_ok(s: Seq<char>) -> bool;

/// Relies on serde_json::from_str::<Value>: returns a parsed value exactly
/// for the documents that serde_json's JSON grammar accepts, and acceptance
/// depends on the text alone.
#[verifier::external_body]
pub(crate) fn parse_json(s: &str) -> (r: Option<serde_json::Value>)
    ensures
        r is Some <==> json_ok(s@),
{
    serde_json::from_str(s).ok()
}

/// Relies on serde_json::Value::get: the member of a JSON object under
/// `key`, or nothing when the value is no object or has no such member.
#[verifier::external_body]
pub(crate) fn json_get<'a>(v: &'a serde_json::Value, key: &str) -> (r: Option<&'a serde_json::Value>) {
    v.get(key)
}

/// Relies on serde_json::Value::as_bool: the value of a JSON boolean, or
/// nothing for any other kind of value.
#[verifier::external_body]
pub(crate) fn json_as_bool(v: &serde_json::Value) -> (r: Option<bool>) {
    v.as_bool()
}

/// Relies on serde_json::Value::as_str: the text of a JSON string, or
/// nothing for any other kind of value.
#[verifier::external_body]
pub(crate) fn json_as_string(v: &serde_json::Value) -> (r: Option<String>) {
    v.as_str().map(|s| s.to_string())
}

/// Relies on serde_json::Value::Null: the JSON null value, standing in
/// for an absent metadata member.
#[verifier::external_body]
pub(crate) fn json_null() -> (r: serde_json::Value) {
    serde_json::Value::Null
}

} // verus!
