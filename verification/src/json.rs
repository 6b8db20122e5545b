//! Integers inside JSON texts, read through `serde_json`.
use vstd::prelude::*;

verus! {

/// The integer that `serde_json` finds under `key` at the top level of a JSON text.
pub uninterp spec fn json_int_member(text: Seq<char>, key: Seq<char>) -> Option<i64>;

/// `serde_json::from_str` into a `serde_json::Value`, then `Value::get` and `Value::as_i64`.
///
/// The contract only claims that the outcome is a function of the text and the key. It does
/// not say which texts are JSON, nor which number a text spells: a text that is not JSON, one
/// that is no object, one without the key, and a member that is no integer or does not fit
/// in an `i64` all give `None`.
#[verifier::external_body]
pub(crate) fn int_member(text: &str, key: &str) -> (number: Option<i64>)
    ensures
        number == json_int_member(text@, key@),
{
    serde_json::from_str::<serde_json::Value>(text).ok()?.get(key)?.as_i64()
}

} // verus!
