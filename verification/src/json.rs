//! JSON documents, as `serde_json` reads and writes them. Nothing in this file
//! is proved: it states what the library takes from the JSON parser.

use crate::transform::{views, Field, FieldView};
use vstd::prelude::*;

verus! {

/// The fields of the JSON object that `text` is, as `serde_json::from_str`
/// reads it: in the order in which the parsed map hands them out, every value
/// as the JSON text that `serde_json` writes for it. Nothing where `text` is
/// not JSON, or is not an object at its top level.
pub uninterp spec fn json_object_fields(text: Seq<char>) -> Option<Seq<FieldView>>;

/// The JSON text that `serde_json` writes for the object with these fields,
/// every value a string.
pub uninterp spec fn json_object_text(fields: Seq<FieldView>) -> Seq<char>;

/// `serde_json::from_str`, to a `serde_json::Value`; of an object, the entries
/// are handed out with `Value::to_string` for each value.
///
/// Claimed of the parser, not proved: whether it takes `text` as an object,
/// and the fields it then gives, depend on `text` alone.
#[verifier::external_body]
pub(crate) fn parse_object(text: &str) -> (parsed: Option<Vec<Field>>)
    ensures
        parsed is None ==> json_object_fields(text@) is None,
        parsed matches Some(fields) ==> json_object_fields(text@) == Some(views(fields@)),
{
    match serde_json::from_str::<serde_json::Value>(text) {
        Ok(serde_json::Value::Object(map)) => Some(
            map.iter().map(|(k, v)| Field { name: k.clone(), value: v.to_string() }).collect(),
        ),
        _ => None,
    }
}

/// `Value::to_string`, on the object whose entries are the fields, each value
/// a `Value::String`.
///
/// Claimed of the writer, not proved: the text depends on the fields alone.
#[verifier::external_body]
pub(crate) fn render_object(fields: &Vec<Field>) -> (text: String)
    ensures
        text@ == json_object_text(views(fields@)),
{
    let map: serde_json::Map<String, serde_json::Value> = fields.iter().map(
        |f| (f.name.clone(), serde_json::Value::String(f.value.clone())),
    ).collect();
    serde_json::Value::Object(map).to_string()
}

} // verus!
