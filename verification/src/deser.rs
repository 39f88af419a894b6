use vstd::prelude::*;

use crate::model::raw_node_wf;
use crate::model::RawView;
use crate::raw::RawNode;

verus! {

// The deserializer collaborators. serde_json and toml turn a document's
// text into a generic tree of string and table nodes; everything here is
// trusted, and states only what those crates' sources and documentation
// show. Both parsers are deterministic, so what they yield is named as a
// function of the text alone.

#[verifier::external_type_specification]
#[verifier::external_body]
pub struct ExJsonValue(serde_json::Value);

#[verifier::external_type_specification]
#[verifier::external_body]
pub struct ExJsonError(serde_json::Error);

#[verifier::external_type_specification]
#[verifier::external_body]
pub struct ExTomlValue(toml::Value);

#[verifier::external_type_specification]
#[verifier::external_body]
pub struct ExTomlError(toml::de::Error);

/// The tree that parsing `s` as JSON yields, if the text parses at all.
pub uninterp spec fn json_doc(s: Seq<char>) -> Option<RawView>;

/// The tree that parsing `s` as TOML yields, if the text parses at all.
pub uninterp spec fn toml_doc(s: Seq<char>) -> Option<RawView>;

/// Relies on serde_json::from_str::<serde_json::Value>: whether the text
/// parses, and to what value, depends on the text alone; and each parsed
/// object holds at most one value per key, so the tree's keys are unique.
#[verifier::external_body]
pub(crate) fn parse_json(text: &str) -> (r: Result<RawNode, serde_json::Error>)
    ensures
        r matches Ok(n) ==> json_doc(text@) == Some(n@) && raw_node_wf(n@),
        r matches Err(_) ==> json_doc(text@) is None,
{
    match serde_json::from_str::<serde_json::Value>(text) {
        Ok(v) => Ok(raw_from_json(v)),
        Err(e) => Err(e),
    }
}

/// Maps each JSON node one-for-one: an object becomes a table with its
/// entries in iteration order, a string becomes a string leaf, and null,
/// booleans, numbers and arrays become `Other`.
#[verifier::external_body]
fn raw_from_json(v: serde_json::Value) -> RawNode {
    match v {
        serde_json::Value::String(s) => RawNode::Str(s),
        serde_json::Value::Object(m) => RawNode::Table(
            m.into_iter().map(|(k, val)| (k, raw_from_json(val))).collect(),
        ),
        serde_json::Value::Null => RawNode::Other,
        serde_json::Value::Bool(_) => RawNode::Other,
        serde_json::Value::Number(_) => RawNode::Other,
        serde_json::Value::Array(_) => RawNode::Other,
    }
}

/// Relies on toml::from_str::<toml::Table>: whether the text parses, and
/// to what value, depends on the text alone; a TOML document is a table,
/// and a table holds at most one value per key, so the tree's keys are
/// unique.
#[verifier::external_body]
pub(crate) fn parse_toml(text: &str) -> (r: Result<RawNode, toml::de::Error>)
    ensures
        r matches Ok(n) ==> toml_doc(text@) == Some(n@) && raw_node_wf(n@),
        r matches Err(_) ==> toml_doc(text@) is None,
{
    match toml::from_str::<toml::Table>(text) {
        Ok(t) => Ok(RawNode::Table(t.into_iter().map(|(k, val)| (k, raw_from_toml(val))).collect())),
        Err(e) => Err(e),
    }
}

/// Maps each TOML node one-for-one: a table becomes a table with its
/// entries in iteration order, a string becomes a string leaf, and
/// integers, floats, booleans, datetimes and arrays become `Other`.
#[verifier::external_body]
fn raw_from_toml(v: toml::Value) -> RawNode {
    match v {
        toml::Value::String(s) => RawNode::Str(s),
        toml::Value::Table(t) => RawNode::Table(
            t.into_iter().map(|(k, val)| (k, raw_from_toml(val))).collect(),
        ),
        toml::Value::Integer(_) => RawNode::Other,
        toml::Value::Float(_) => RawNode::Other,
        toml::Value::Boolean(_) => RawNode::Other,
        toml::Value::Datetime(_) => RawNode::Other,
        toml::Value::Array(_) => RawNode::Other,
    }
}

} // verus!
