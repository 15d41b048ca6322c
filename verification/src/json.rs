//! JSON values written as text.
use vstd::prelude::*;
use crate::basic_types::BTToString;

verus! {

/// `serde_json::Value`, a JSON value. Nothing inside it is visible here.
#[verifier::external_type_specification]
#[verifier::external_body]
pub struct ExJsonValue(serde_json::Value);

/// The text that `serde_json` writes a JSON value as. Nothing is known of
/// it but that the same value gives the same text.
pub uninterp spec fn json_text(value: serde_json::Value) -> Seq<char>;

/// Calls the `to_string` that `serde_json::Value` has from its `Display`
/// impl, which writes the value as compact JSON. What is taken for granted
/// is that the text depends on the value alone; it is given the name
/// `json_text`, and nothing more is said of it.
#[verifier::external_body]
fn json_to_text(value: &serde_json::Value) -> (r: String)
    ensures
        r@ == json_text(*value),
{
    value.to_string()
}

impl BTToString for serde_json::Value {
    open spec fn text(&self) -> Seq<char> {
        json_text(*self)
    }

    fn bt_to_string(&self) -> (r: String) {
        json_to_text(self)
    }
}

} // verus!
