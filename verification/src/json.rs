//! JSON values, as `serde_json` holds them.
//!
//! The library builds objects, carries values and compares them by their compact text; it never
//! takes a value apart.

use vstd::prelude::*;

verus! {

/// `serde_json::Value`, opaque here.
#[verifier::external_type_specification]
#[verifier::external_body]
pub struct ExValue(serde_json::Value);

/// `serde_json::Map`, a collection of named values; `object_fields` says what it holds.
#[verifier::external_type_specification]
#[verifier::external_body]
#[verifier::reject_recursive_types(K)]
#[verifier::reject_recursive_types(V)]
pub struct ExObject<K, V>(serde_json::Map<K, V>);

/// `serde_json::Error`, opaque here.
#[verifier::external_type_specification]
#[verifier::external_body]
pub struct ExJsonError(serde_json::Error);

/// `<serde_json::Value as Clone>::clone`: the copy is the same value.
pub assume_specification[ <serde_json::Value as Clone>::clone ](v: &serde_json::Value) -> (r: serde_json::Value)
    ensures
        r == v,
;

/// What the outermost node of a JSON value is.
pub enum JsonNode {
    Null,
    Integer { number: i64 },
    Text { text: Seq<char> },
    Object { fields: Map<Seq<char>, serde_json::Value> },
    Other,
}

/// What a JSON value holds at its outermost node.
pub uninterp spec fn json_node(v: serde_json::Value) -> JsonNode;

/// What a JSON object under construction holds: each name with its value.
pub uninterp spec fn object_fields(m: serde_json::Map<String, serde_json::Value>) -> Map<Seq<char>, serde_json::Value>;

/// The value that a JSON text writes, or why the text is not JSON.
pub uninterp spec fn parsed_json(raw: Seq<char>) -> Result<serde_json::Value, serde_json::Error>;

/// What the parser says of a text that is not JSON.
pub uninterp spec fn complaint(e: serde_json::Error) -> Seq<char>;

/// A JSON value as compact text, with the names of an object in order.
pub uninterp spec fn json_text(v: serde_json::Value) -> Seq<char>;

/// The fields of an object that has none.
pub open spec fn no_fields() -> Map<Seq<char>, serde_json::Value> {
    Map::empty()
}

/// `serde_json::from_str::<serde_json::Value>`: what comes back depends on the text alone.
#[verifier::external_body]
pub(crate) fn parse_json(raw: &str) -> (r: Result<serde_json::Value, serde_json::Error>)
    ensures
        r == parsed_json(raw@),
{
    serde_json::from_str(raw)
}

/// `<serde_json::Error as Display>::fmt`, by `to_string`: what is written depends on the error alone.
#[verifier::external_body]
pub(crate) fn complaint_text(e: &serde_json::Error) -> (r: String)
    ensures
        r@ == complaint(*e),
{
    e.to_string()
}

/// `<serde_json::Value as Display>::fmt`, by `to_string`: the compact text of the value.
#[verifier::external_body]
pub(crate) fn compact_text(v: &serde_json::Value) -> (r: String)
    ensures
        r@ == json_text(*v),
{
    v.to_string()
}

/// The variant `serde_json::Value::Null`.
#[verifier::external_body]
pub(crate) fn null_value() -> (v: serde_json::Value)
    ensures
        json_node(v) == JsonNode::Null,
{
    serde_json::Value::Null
}

/// `<serde_json::Value as From<i64>>::from`: the number itself.
#[verifier::external_body]
pub(crate) fn integer_value(n: i64) -> (v: serde_json::Value)
    ensures
        json_node(v) == (JsonNode::Integer { number: n }),
{
    serde_json::Value::from(n)
}

/// The variant `serde_json::Value::String`: the text itself.
#[verifier::external_body]
pub(crate) fn text_value(s: String) -> (v: serde_json::Value)
    ensures
        json_node(v) == (JsonNode::Text { text: s@ }),
{
    serde_json::Value::String(s)
}

/// The variant `serde_json::Value::Object`: the fields of the map.
#[verifier::external_body]
pub(crate) fn object_value(m: serde_json::Map<String, serde_json::Value>) -> (v: serde_json::Value)
    ensures
        json_node(v) == (JsonNode::Object { fields: object_fields(m) }),
{
    serde_json::Value::Object(m)
}

/// `serde_json::Map::new`: no fields.
#[verifier::external_body]
pub(crate) fn object_new() -> (m: serde_json::Map<String, serde_json::Value>)
    ensures
        object_fields(m) == no_fields(),
{
    serde_json::Map::new()
}

/// `serde_json::Map::insert`: the name now stands for the value, whatever it stood for.
#[verifier::external_body]
pub(crate) fn object_insert(m: &mut serde_json::Map<String, serde_json::Value>, name: String, v: serde_json::Value)
    ensures
        object_fields(*final(m)) == object_fields(*old(m)).insert(name@, v),
{
    m.insert(name, v);
}

/// `serde_json::Map::get`: a copy of the value that the name stands for, if it stands for one.
#[verifier::external_body]
pub(crate) fn object_get(m: &serde_json::Map<String, serde_json::Value>, name: &str) -> (r: Option<serde_json::Value>)
    ensures
        r == (if object_fields(*m).contains_key(name@) {
            Some(object_fields(*m)[name@])
        } else {
            None
        }),
{
    m.get(name).cloned()
}

} // verus!
