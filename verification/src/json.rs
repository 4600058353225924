//! JSON payloads carried through the event model.
//!
//! Opaque JSON values (tool inputs, tool-result bodies, attachments,
//! telemetry events) are held as their compact JSON text. The library
//! reads them one level at a time through [`json_parse`] and renders them
//! through [`json_pretty`]; both are backed by `serde_json`.

use serde_json::Value;
use vstd::prelude::*;

use crate::text::owned;

verus! {

/// One level of a parsed JSON value. Children are kept as compact JSON
/// text so they can be parsed again on demand.
pub enum JsonNode {
    Null,
    Bool(bool),
    /// The number as `serde_json` prints it.
    Number(String),
    Str(String),
    /// Compact JSON text of each element, in order.
    Array(Vec<String>),
    /// `(key, compact JSON text of the value)` in the map's iteration order.
    Object(Vec<(String, String)>),
}

pub ghost enum JsonNodeModel {
    Null,
    Bool(bool),
    Number(Seq<char>),
    Str(Seq<char>),
    Array(Seq<Seq<char>>),
    Object(Seq<(Seq<char>, Seq<char>)>),
}

pub open spec fn texts_view(v: Seq<String>) -> Seq<Seq<char>> {
    Seq::new(v.len(), |i: int| v[i]@)
}

pub open spec fn fields_view(v: Seq<(String, String)>) -> Seq<(Seq<char>, Seq<char>)> {
    Seq::new(v.len(), |i: int| (v[i].0@, v[i].1@))
}

impl View for JsonNode {
    type V = JsonNodeModel;

    open spec fn view(&self) -> JsonNodeModel {
        match self {
            JsonNode::Null => JsonNodeModel::Null,
            JsonNode::Bool(b) => JsonNodeModel::Bool(*b),
            JsonNode::Number(n) => JsonNodeModel::Number(n@),
            JsonNode::Str(s) => JsonNodeModel::Str(s@),
            JsonNode::Array(a) => JsonNodeModel::Array(texts_view(a@)),
            JsonNode::Object(o) => JsonNodeModel::Object(fields_view(o@)),
        }
    }
}

pub open spec fn opt_node_view(o: Option<JsonNode>) -> Option<JsonNodeModel> {
    match o {
        Some(n) => Some(n@),
        None => None,
    }
}

/// What `serde_json::from_str::<serde_json::Value>` makes of `text`, one
/// level deep (`None` when the text is not JSON).
pub uninterp spec fn spec_json_parse(text: Seq<char>) -> Option<JsonNodeModel>;

/// `serde_json::to_string_pretty` of the value that `text` denotes.
pub uninterp spec fn spec_json_pretty(text: Seq<char>) -> Seq<char>;

/// Parses `text` with `serde_json::from_str::<serde_json::Value>` and
/// returns the top level of the value; children come back as their compact
/// text (`Value::to_string`). The contract only names the result: it is
/// the same for the same text.
#[verifier::external_body]
pub(crate) fn json_parse(text: &str) -> (r: Option<JsonNode>)
    ensures
        opt_node_view(r) == spec_json_parse(text@),
{
    match serde_json::from_str::<Value>(text) {
        Ok(Value::Null) => Some(JsonNode::Null),
        Ok(Value::Bool(b)) => Some(JsonNode::Bool(b)),
        Ok(Value::Number(n)) => Some(JsonNode::Number(n.to_string())),
        Ok(Value::String(s)) => Some(JsonNode::Str(s)),
        Ok(Value::Array(a)) => Some(
            JsonNode::Array(a.iter().map(|v| v.to_string()).collect()),
        ),
        Ok(Value::Object(m)) => Some(
            JsonNode::Object(m.into_iter().map(|(k, v)| (k, v.to_string())).collect()),
        ),
        Err(_) => None,
    }
}

/// `serde_json::to_string_pretty` of the value written in `text` (the text
/// itself when it is not JSON, which the event model never holds). The
/// contract only names the result.
#[verifier::external_body]
pub(crate) fn json_pretty(text: &str) -> (r: String)
    ensures
        r@ == spec_json_pretty(text@),
{
    match serde_json::from_str::<serde_json::Value>(text) {
        Ok(v) => serde_json::to_string_pretty(&v).unwrap_or_else(|_| v.to_string()),
        Err(_) => text.to_string(),
    }
}

// ---------------------------------------------------------------------
// field access
// ---------------------------------------------------------------------

/// Value text of the first field named `key`.
pub open spec fn lookup(fields: Seq<(Seq<char>, Seq<char>)>, key: Seq<char>) -> Option<Seq<char>>
    decreases fields.len(),
{
    if fields.len() == 0 {
        None
    } else if fields[0].0 == key {
        Some(fields[0].1)
    } else {
        lookup(fields.drop_first(), key)
    }
}

/// `value.get(key).and_then(|v| v.as_str())`.
pub open spec fn field_str(text: Seq<char>, key: Seq<char>) -> Option<Seq<char>> {
    match spec_json_parse(text) {
        Some(JsonNodeModel::Object(f)) => match lookup(f, key) {
            Some(v) => match spec_json_parse(v) {
                Some(JsonNodeModel::Str(s)) => Some(s),
                _ => None,
            },
            None => None,
        },
        _ => None,
    }
}

pub open spec fn is_object(text: Seq<char>) -> bool {
    spec_json_parse(text) matches Some(JsonNodeModel::Object(_))
}

fn lookup_exec(fields: &Vec<(String, String)>, key: &str) -> (r: Option<String>)
    ensures
        match r {
            Some(v) => lookup(fields_view(fields@), key@) == Some(v@),
            None => lookup(fields_view(fields@), key@) is None,
        },
{
    let k = owned(key);
    let mut i: usize = 0;
    assert(fields_view(fields@).subrange(0, fields@.len() as int) =~= fields_view(fields@));
    while i < fields.len()
        invariant
            i <= fields.len(),
            k@ == key@,
            lookup(fields_view(fields@), key@) == lookup(
                fields_view(fields@).subrange(i as int, fields@.len() as int),
                key@,
            ),
        decreases fields.len() - i,
    {
        let ghost rest = fields_view(fields@).subrange(i as int, fields@.len() as int);
        assert(rest[0] == (fields@[i as int].0@, fields@[i as int].1@));
        if fields[i].0 == k {
            return Some(fields[i].1.clone());
        }
        assert(rest.drop_first() =~= fields_view(fields@).subrange(i + 1, fields@.len() as int));
        i += 1;
    }
    None
}

/// `value.get(key).and_then(|v| v.as_str())` on the value written in `text`.
pub fn get_field_str(text: &str, key: &str) -> (r: Option<String>)
    ensures
        match r {
            Some(s) => field_str(text@, key@) == Some(s@),
            None => field_str(text@, key@) is None,
        },
{
    match json_parse(text) {
        Some(JsonNode::Object(fields)) => match lookup_exec(&fields, key) {
            Some(v) => match json_parse(v.as_str()) {
                Some(JsonNode::Str(s)) => Some(s),
                _ => None,
            },
            None => None,
        },
        _ => None,
    }
}

} // verus!
