//! Reading of JSON documents.

use vstd::prelude::*;

verus! {

/// A JSON value of `serde_json`, opaque here.
#[verifier::external_type_specification]
#[verifier::external_body]
pub struct ExValue(serde_json::Value);

/// The value that `serde_json::from_str` reads from a text, if it is valid JSON.
pub uninterp spec fn json_document(text: Seq<char>) -> Option<serde_json::Value>;

/// The member of a value that `serde_json::Value::get` finds under a key.
pub uninterp spec fn json_member(value: serde_json::Value, key: Seq<char>) -> Option<
    serde_json::Value,
>;

/// The string that `serde_json::Value::as_str` finds in a value.
pub uninterp spec fn json_text(value: serde_json::Value) -> Option<Seq<char>>;

/// Calls `serde_json::from_str`.  The outcome, a value or a failure, depends on the
/// text alone; which value a text gives is not stated.
#[verifier::external_body]
pub(crate) fn read_document(text: &str) -> (document: Option<serde_json::Value>)
    ensures
        document == json_document(text@),
{
    serde_json::from_str::<serde_json::Value>(text).ok()
}

/// Calls `serde_json::Value::get` and copies what it finds.  The outcome depends on
/// the value and the key alone.
#[verifier::external_body]
pub(crate) fn read_member(value: &serde_json::Value, key: &str) -> (member: Option<
    serde_json::Value,
>)
    ensures
        member == json_member(*value, key@),
{
    value.get(key).cloned()
}

/// Calls `serde_json::Value::as_str` and copies what it finds.  The outcome depends
/// on the value alone.
#[verifier::external_body]
pub(crate) fn read_text(value: &serde_json::Value) -> (text: Option<String>)
    ensures
        match text {
            Some(s) => json_text(*value) == Some(s@),
            None => json_text(*value) is None,
        },
{
    value.as_str().map(|s| s.to_string())
}

/// The string under a key of a value.
pub open spec fn member_text(value: serde_json::Value, key: Seq<char>) -> Option<Seq<char>> {
    match json_member(value, key) {
        Some(member) => json_text(member),
        None => None,
    }
}

/// Reads the string under a key of a value.
pub fn read_member_text(value: &serde_json::Value, key: &str) -> (text: Option<String>)
    ensures
        match text {
            Some(s) => member_text(*value, key@) == Some(s@),
            None => member_text(*value, key@) is None,
        },
{
    match read_member(value, key) {
        Some(member) => read_text(&member),
        None => None,
    }
}

} // verus!
