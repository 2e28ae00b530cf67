//! Metadata payloads: opaque structured documents carried as JSON text.
//!
//! The store never looks inside a metadata payload; it only refuses
//! malformed ones at the door, so that everything it holds round-trips
//! unchanged.

use vstd::prelude::*;

verus! {

/// Whether a text is a well-formed JSON document — the set of texts the
/// JSON parser accepts.
pub uninterp spec fn json_wellformed(s: Seq<char>) -> bool;

/// Relies on serde_json::from_str::<serde_json::Value>: whether a text
/// parses as JSON is a function of the text alone.
#[verifier::external_body]
pub(crate) fn json_parses(s: &str) -> (b: bool)
    ensures
        b == json_wellformed(s@),
{
    serde_json::from_str::<serde_json::Value>(s).is_ok()
}

/// The JSON object text serializing the given key/value pairs of strings —
/// what the JSON serializer produces; it depends on the pairs alone.
pub uninterp spec fn json_object_of(pairs: Seq<(Seq<char>, Seq<char>)>) -> Seq<char>;

/// Relies on serde_json::Value::to_string over a Value::Object built from
/// the pairs: the serialized object text depends on the pairs alone.
#[verifier::external_body]
pub(crate) fn json_object_from_pairs(pairs: &Vec<(String, String)>) -> (r: String)
    ensures
        r@ == json_object_of(pairs.deep_view()),
        json_wellformed(r@),
{
    serde_json::Value::Object(
        pairs.iter().map(|p| (p.0.clone(), serde_json::Value::String(p.1.clone()))).collect(),
    ).to_string()
}

} // verus!
