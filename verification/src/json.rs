//! Lookup of members in a JSON document.
//!
//! Each lookup reads the document afresh, so that its result is a function of the document's
//! text and of the key alone.

use vstd::prelude::*;

verus! {

/// What `serde_json` finds as the text under `key` in the JSON object `document`.
pub uninterp spec fn json_text(document: Seq<char>, key: Seq<char>) -> Option<Seq<char>>;

/// The bit pattern of the double that `serde_json` finds under `key` in the JSON object
/// `document`.
pub uninterp spec fn json_number(document: Seq<char>, key: Seq<char>) -> Option<u64>;

/// Calls `serde_json::from_str`, indexes the value by `key` and takes its `as_str`.
///
/// Trusted: the result is a function of `document` and `key`, named `json_text`. It is `None`
/// where the document is no JSON object or has no text under the key; the calls do not panic.
/// What the JSON grammar makes of a text is left to `serde_json`.
#[verifier::external_body]
pub(crate) fn text_member(document: &str, key: &str) -> (r: Option<String>)
    ensures
        r is Some == json_text(document@, key@) is Some,
        r matches Some(t) ==> json_text(document@, key@) == Some(t@),
{
    let value: serde_json::Value = serde_json::from_str(document).ok()?;
    value[key].as_str().map(|t| t.to_string())
}

/// Calls `serde_json::from_str`, indexes the value by `key` and takes the bits of its
/// `as_f64`.
///
/// Trusted: the result is a function of `document` and `key`, named `json_number`. It is
/// `None` where the document is no JSON object or has no number under the key; the calls do
/// not panic. How a decimal number is rounded to a double is left to `serde_json`.
#[verifier::external_body]
pub(crate) fn number_member(document: &str, key: &str) -> (r: Option<u64>)
    ensures
        r == json_number(document@, key@),
{
    let value: serde_json::Value = serde_json::from_str(document).ok()?;
    value[key].as_f64().map(|n| n.to_bits())
}

} // verus!
