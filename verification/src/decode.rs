//! The decoders of file contents. Decoding itself is the work of outside
//! crates; what they give is handed on as a [`Datum`].

use crate::datum::{canonical, Datum, DatumModel};
use valu3::value::Value as Decoded;
use vstd::prelude::*;

verus! {

/// The value type of valu3, `valu3::value::Value`: what its decoders
/// give. Nothing of its inside is known here.
#[verifier::external_type_specification]
#[verifier::external_body]
pub struct ExDecoded(valu3::value::Value);

/// The value that a value of valu3 stands for: `valu3::value::Value` taken
/// apart by its variants, a number and a date as their `Display` text, the
/// members of an object in the order in which its `iter` gives them.
/// Nothing is claimed of the result.
#[verifier::external_body]
fn import(v: &Decoded) -> Datum {
    match v {
        Decoded::Null => Datum::Null,
        Decoded::Undefined => Datum::Undefined,
        Decoded::Boolean(b) => Datum::Bool(*b),
        Decoded::Number(n) => Datum::Number(n.to_string()),
        Decoded::String(s) => Datum::String(s.to_string()),
        Decoded::DateTime(d) => Datum::String(d.to_string()),
        Decoded::Array(a) => Datum::Array(a.into_iter().map(import).collect()),
        Decoded::Object(o) => Datum::Object(
            o.iter().map(|(k, x)| (k.to_string(), import(x))).collect(),
        ),
    }
}

/// What `serde_yaml::from_str` makes of a YAML text as a value of valu3,
/// in canonical form; nothing where it fails.
pub uninterp spec fn yaml_document(text: Seq<char>) -> Option<DatumModel>;

/// The canonical form of an optional value.
pub open spec fn canonical_outcome(outcome: Option<Datum>) -> Option<DatumModel> {
    match outcome {
        Some(v) => Some(canonical(v@)),
        None => None,
    }
}

/// Decodes JSON text with `valu3::value::Value::json_to_value`; `None`
/// where that fails. The parser behind it gives up when a budget of
/// calls that the whole process shares is used up, and when little of
/// the native stack is left, so whether a text decodes is not decided by
/// the text alone: nothing is claimed of the outcome.
#[verifier::external_body]
pub(crate) fn decode_json(content: &str) -> Option<Datum> {
    match Decoded::json_to_value(content) {
        Ok(v) => Some(import(&v)),
        Err(_) => None,
    }
}

/// Decodes YAML text with `serde_yaml::from_str` into a value of valu3;
/// `None` where that fails. The value holds the members of an object in
/// a hash map, so their order is not determined: what is claimed is that
/// the canonical form of the value is a function of the text.
#[verifier::external_body]
pub(crate) fn decode_yaml(content: &str) -> (r: Option<Datum>)
    ensures
        canonical_outcome(r) == yaml_document(content@),
{
    match serde_yaml::from_str::<Decoded>(content) {
        Ok(v) => Some(import(&v)),
        Err(_) => None,
    }
}

} // verus!
