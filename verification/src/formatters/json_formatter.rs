//! The JSON format.

use vstd::prelude::*;

verus! {

/// Whether `text` is a JSON text, as `serde_json` reads it.
pub uninterp spec fn is_json_text(text: Seq<char>) -> bool;

/// `serde_json::from_str` into a `serde_json::Value`: whether the text parses
/// depends on the text alone, and the answer is given the name
/// [`is_json_text`].
#[verifier::external_body]
fn parses_as_json(val: &str) -> (valid: bool)
    ensures
        valid == is_json_text(val@),
{
    serde_json::from_str::<serde_json::Value>(val).is_ok()
}

/// The JSON format of orders and fills.
pub struct JsonFormatter {}

impl JsonFormatter {
    /// Returns whether `val` is a JSON text.
    pub fn is_valid_json(val: &str) -> (valid: bool)
        ensures
            valid == is_json_text(val@),
    {
        parses_as_json(val)
    }
}

} // verus!
