//! JSON values as `serde_json` builds them, and their mathematical model.
//!
//! Nothing in this module is proved: it states what the calls into
//! `serde_json` are taken to do. A `serde_json::Value` is opaque to the
//! verifier; [`json_view`] names the JSON value that it holds.

use vstd::prelude::*;

verus! {

/// `serde_json::Value`, a JSON value; the verifier does not look inside.
#[verifier::external_type_specification]
#[verifier::external_body]
pub struct ExValue(serde_json::Value);

/// `serde_json::Error`, the error of a conversion to JSON; the verifier does
/// not look inside.
#[verifier::external_type_specification]
#[verifier::external_body]
pub struct ExJsonError(serde_json::Error);

/// `serde_json::Map`, the members of a JSON object; the verifier does not
/// look inside.
#[verifier::external_type_specification]
#[verifier::external_body]
#[verifier::reject_recursive_types(K)]
#[verifier::reject_recursive_types(V)]
pub struct ExJsonMap<K, V>(serde_json::Map<K, V>);

/// Mathematical model of a JSON value. A number is an integer here: the
/// library itself makes no others.
pub enum Json {
    Null,
    Bool(bool),
    Number(int),
    Text(Seq<char>),
    Array(Seq<Json>),
    Object(Map<Seq<char>, Json>),
}

/// The JSON value that a `serde_json::Value` holds. Of a value that holds a
/// floating point number nothing is stated.
pub uninterp spec fn json_view(value: serde_json::Value) -> Json;

/// The members of a `serde_json::Map`, by key.
pub uninterp spec fn json_entries(map: serde_json::Map<String, serde_json::Value>) -> Map<
    Seq<char>,
    Json,
>;

/// The models of a list of values.
pub open spec fn json_views(values: Seq<serde_json::Value>) -> Seq<Json> {
    values.map_values(|value: serde_json::Value| json_view(value))
}

/// `serde_json::to_value` on the unit value: it succeeds and gives `null`.
#[verifier::external_body]
pub(crate) fn json_from_unit() -> (r: Result<serde_json::Value, serde_json::Error>)
    ensures
        r is Ok,
        json_view(r->Ok_0) == Json::Null,
{
    serde_json::to_value(())
}

/// `serde_json::to_value` on a `bool`: it succeeds and gives that boolean.
#[verifier::external_body]
pub(crate) fn json_from_bool(v: bool) -> (r: Result<serde_json::Value, serde_json::Error>)
    ensures
        r is Ok,
        json_view(r->Ok_0) == Json::Bool(v),
{
    serde_json::to_value(v)
}

/// `serde_json::to_value` on an `i64`: it succeeds and gives the number `v`.
#[verifier::external_body]
pub(crate) fn json_from_i64(v: i64) -> (r: Result<serde_json::Value, serde_json::Error>)
    ensures
        r is Ok,
        json_view(r->Ok_0) == Json::Number(v as int),
{
    serde_json::to_value(v)
}

/// `serde_json::to_value` on a `u64`: it succeeds and gives the number `v`.
#[verifier::external_body]
pub(crate) fn json_from_u64(v: u64) -> (r: Result<serde_json::Value, serde_json::Error>)
    ensures
        r is Ok,
        json_view(r->Ok_0) == Json::Number(v as int),
{
    serde_json::to_value(v)
}

/// `serde_json::to_value` on a `char`: it succeeds and gives the string made
/// of that one character.
#[verifier::external_body]
pub(crate) fn json_from_char(v: char) -> (r: Result<serde_json::Value, serde_json::Error>)
    ensures
        r is Ok,
        json_view(r->Ok_0) == Json::Text(seq![v]),
{
    serde_json::to_value(v)
}

/// `serde_json::to_value` on a `&str`: it succeeds and gives that string.
#[verifier::external_body]
pub(crate) fn json_from_str(v: &str) -> (r: Result<serde_json::Value, serde_json::Error>)
    ensures
        r is Ok,
        json_view(r->Ok_0) == Json::Text(v@),
{
    serde_json::to_value(v)
}

/// `Clone::clone` of `serde_json::Value`: the copy holds the same JSON value.
#[verifier::external_body]
pub(crate) fn json_clone(value: &serde_json::Value) -> (r: serde_json::Value)
    ensures
        json_view(r) == json_view(*value),
{
    value.clone()
}

/// `serde_json::Value::Array`: the array of the given values, in their order.
#[verifier::external_body]
pub(crate) fn json_array(items: Vec<serde_json::Value>) -> (r: serde_json::Value)
    ensures
        json_view(r) == Json::Array(json_views(items@)),
{
    serde_json::Value::Array(items)
}

/// `serde_json::Map::new`: a map without members.
#[verifier::external_body]
pub(crate) fn json_map_new() -> (r: serde_json::Map<String, serde_json::Value>)
    ensures
        json_entries(r) =~= Map::empty(),
{
    serde_json::Map::new()
}

/// `serde_json::Map::insert`: the map holds `value` under `key` afterwards,
/// in place of what it held under that key, and its other members as before.
#[verifier::external_body]
pub(crate) fn json_map_insert(
    map: &mut serde_json::Map<String, serde_json::Value>,
    key: String,
    value: serde_json::Value,
)
    ensures
        json_entries(*final(map)) == json_entries(*old(map)).insert(key@, json_view(value)),
{
    map.insert(key, value);
}

/// `serde_json::Value::Object`: the object with the members of `map`.
#[verifier::external_body]
pub(crate) fn json_object(map: serde_json::Map<String, serde_json::Value>) -> (r:
    serde_json::Value)
    ensures
        json_view(r) == Json::Object(json_entries(map)),
{
    serde_json::Value::Object(map)
}

/// The `Debug` form of a `serde_json::Error`. Nothing is stated of the text.
#[verifier::external_body]
pub(crate) fn json_error_text(err: &serde_json::Error) -> String {
    format!("{:?}", err)
}

} // verus!
