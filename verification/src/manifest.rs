//! Reading the fields of an extension manifest from the text of its JSON file.

use vstd::prelude::*;
use serde_json::Value;
use crate::blocking::option_view;
use crate::extensions::Manifest;

verus! {

#[verifier::external_type_specification]
#[verifier::external_body]
pub struct ExJsonValue(serde_json::Value);

/// Whether `serde_json::from_str::<Value>` accepts a text: whether it is one
/// JSON value, which depends on the text alone.
pub uninterp spec fn is_json_text(text: Seq<char>) -> bool;

/// What `serde_json::Value::get(key)` followed by `Value::as_str` gives on the
/// value that `serde_json::from_str` parses from `text`: the string member
/// `key` of a JSON object, which depends on the text and the key alone.
pub uninterp spec fn json_string_member(text: Seq<char>, key: Seq<char>) -> Option<Seq<char>>;

/// Calls `serde_json::from_str::<serde_json::Value>`; the contract says that
/// the parse succeeds exactly on JSON texts and nothing of the value it gives.
#[verifier::external_body]
fn parse_json(text: &str) -> (r: Option<Value>)
    ensures
        r is Some <==> is_json_text(text@),
{
    serde_json::from_str::<Value>(text).ok()
}

/// Calls `serde_json::Value::get` with a string key on the value parsed from
/// `text` (the parse converts the argument, `Value::as_str` the result):
/// the text of the string member `key`, named by `json_string_member`. When
/// the text does not parse there is no member.
#[verifier::external_body]
fn string_member(text: &str, key: &str) -> (r: Option<String>)
    ensures
        option_view(r) == json_string_member(text@, key@),
        !is_json_text(text@) ==> r is None,
{
    match serde_json::from_str::<Value>(text) {
        Ok(value) => value.get(key).and_then(Value::as_str).map(str::to_string),
        Err(_) => None,
    }
}

/// The name, version and description of a manifest, each present when the
/// manifest is an object with that member as a string; `None` when the text
/// is not JSON.
pub fn manifest_from_json(text: &str) -> (r: Option<Manifest>)
    ensures
        r is Some <==> is_json_text(text@),
        r is Some ==> option_view(r->0.name) == json_string_member(text@, "name"@),
        r is Some ==> option_view(r->0.version) == json_string_member(text@, "version"@),
        r is Some ==> option_view(r->0.description) == json_string_member(
            text@,
            "description"@,
        ),
{
    match parse_json(text) {
        Some(_) => Some(
            Manifest {
                name: string_member(text, "name"),
                version: string_member(text, "version"),
                description: string_member(text, "description"),
            },
        ),
        None => None,
    }
}

} // verus!
