//! The points where JSON documents meet serde_json and json-patch.

use vstd::prelude::*;

use crate::json::{json_seq_view, Json, JsonNumber, JsonValue};
use crate::strmap::StrMap;

verus! {

#[verifier::external_type_specification]
#[verifier::external_body]
pub struct ExSerdeJsonValue(serde_json::Value);

/// The compact JSON text that serde_json writes for a document
/// (`Display` of `serde_json::Value`).
pub uninterp spec fn json_text(v: Json) -> Seq<char>;

/// The operations of the JSON Patch that `json_patch::diff` computes from
/// `left` to `right`, each as the JSON object that serde writes for it
/// (`{"op": .., "path": .., "value": ..}`).
pub uninterp spec fn json_diff(left: Json, right: Json) -> Seq<Json>;

/// Builds the `serde_json::Number` value for a number. Nothing is claimed
/// of the result: it only feeds the calls below.
#[verifier::external_body]
fn number_to_serde(n: &JsonNumber) -> serde_json::Value {
    match n {
        JsonNumber::PosInt(u) => serde_json::Value::from(*u),
        JsonNumber::NegInt(i) => serde_json::Value::from(*i),
        JsonNumber::Float(s) => s.parse::<serde_json::Number>().map_or(
            serde_json::Value::Null,
            serde_json::Value::Number,
        ),
    }
}

/// Builds the `serde_json::Value` with the same content, member for member.
/// Nothing is claimed of the result: it only feeds the calls below.
#[verifier::external_body]
fn to_serde_value(v: &JsonValue) -> serde_json::Value {
    match v {
        JsonValue::Null => serde_json::Value::Null,
        JsonValue::Bool(b) => serde_json::Value::Bool(*b),
        JsonValue::Number(n) => number_to_serde(n),
        JsonValue::String(s) => serde_json::Value::String(s.clone()),
        JsonValue::Array(a) => serde_json::Value::Array(a.iter().map(to_serde_value).collect()),
        JsonValue::Object(m) => serde_json::Value::Object(
            m.entries.iter().map(|(k, x)| (k.clone(), to_serde_value(x))).collect(),
        ),
    }
}

/// Builds the `JsonNumber` for a `serde_json::Value` that is a number: an
/// unsigned integer, a negative integer, or a float kept as its text.
#[verifier::external_body]
fn number_from_serde(n: &serde_json::Value) -> JsonNumber {
    match (n.as_u64(), n.as_i64()) {
        (Some(u), _) => JsonNumber::PosInt(u),
        (None, Some(i)) => JsonNumber::NegInt(i),
        (None, None) => JsonNumber::Float(n.to_string()),
    }
}

/// Builds the `JsonValue` with the same content as a `serde_json::Value`,
/// member for member. Nothing is claimed of the result here; the callers'
/// contracts state what the whole call returns.
#[verifier::external_body]
fn from_serde_value(v: &serde_json::Value) -> JsonValue {
    match v {
        serde_json::Value::Null => JsonValue::Null,
        serde_json::Value::Bool(b) => JsonValue::Bool(*b),
        serde_json::Value::Number(_) => JsonValue::Number(number_from_serde(v)),
        serde_json::Value::String(s) => JsonValue::String(s.clone()),
        serde_json::Value::Array(a) => JsonValue::Array(a.iter().map(from_serde_value).collect()),
        serde_json::Value::Object(m) => JsonValue::Object(
            StrMap { entries: m.iter().map(|(k, x)| (k.clone(), from_serde_value(x))).collect() },
        ),
    }
}

/// `Display` of `serde_json::Value` (its compact JSON text) for the same
/// document. The contract claims only that the text depends on the document
/// alone; the text itself is named `json_text`.
#[verifier::external_body]
pub(crate) fn json_to_text(v: &JsonValue) -> (s: String)
    ensures
        s@ == json_text(v@),
{
    to_serde_value(v).to_string()
}

/// `json_patch::diff(left, right)`, each operation turned into a JSON value
/// as `serde_json::to_value` writes it. The contract claims only that the
/// operations depend on the two documents alone; they are named `json_diff`.
#[verifier::external_body]
pub(crate) fn json_patch_diff(left: &JsonValue, right: &JsonValue) -> (ops: Vec<JsonValue>)
    ensures
        json_seq_view(ops@) == json_diff(left@, right@),
{
    let patch = json_patch::diff(&to_serde_value(left), &to_serde_value(right));
    patch.0.iter().map(|op| from_serde_value(&serde_json::to_value(op).unwrap_or_default())).collect()
}

} // verus!
