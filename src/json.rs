//! JSON values through serde_json, described by a mathematical model.
use vstd::prelude::*;
use serde_json::Value;

verus! {

#[verifier::external_type_specification]
#[verifier::external_body]
pub struct ExValue(serde_json::Value);

/// A JSON number as serde_json holds it: a non-negative integer, a negative
/// integer, or a float given by its bits.
pub enum NumberModel {
    Unsigned(u64),
    Negative(i64),
    FloatBits(u64),
}

/// A JSON value. Objects map each key to one value.
pub enum JsonModel {
    Null,
    Bool(bool),
    Number(NumberModel),
    Text(Seq<char>),
    Array(Seq<JsonModel>),
    Object(Map<Seq<char>, JsonModel>),
}

/// What a serde_json value holds.
pub uninterp spec fn json_of(v: Value) -> JsonModel;

/// What serde_json parses from these bytes, or `None` where they are not JSON.
pub uninterp spec fn json_parse(b: Seq<u8>) -> Option<JsonModel>;

/// The compact text that serde_json writes for a value.
pub uninterp spec fn json_text(m: JsonModel) -> Seq<char>;

/// The value under `key` when `m` is an object that has it.
pub open spec fn field(m: JsonModel, key: Seq<char>) -> Option<JsonModel> {
    match m {
        JsonModel::Object(o) => if o.contains_key(key) {
            Some(o[key])
        } else {
            None
        },
        _ => None,
    }
}

pub open spec fn models(vs: Seq<Value>) -> Seq<JsonModel> {
    vs.map_values(|v: Value| json_of(v))
}

/// Relies on `serde_json::from_slice::<Value>`: the value parsed from the bytes.
#[verifier::external_body]
pub fn parse_json(bytes: &[u8]) -> (r: Option<Value>)
    ensures
        r is Some <==> json_parse(bytes@) is Some,
        r matches Some(v) ==> json_of(v) == json_parse(bytes@)->0,
{
    serde_json::from_slice::<Value>(bytes).ok()
}

/// Relies on `Value::get` with a string key: the member of an object, `None` for a
/// missing key or a value that is not an object.
#[verifier::external_body]
pub fn json_get<'a>(v: &'a Value, key: &str) -> (r: Option<&'a Value>)
    ensures
        r is Some <==> field(json_of(*v), key@) is Some,
        r matches Some(x) ==> json_of(*x) == field(json_of(*v), key@)->0,
{
    v.get(key)
}

/// Relies on `Value::as_u64`: a non-negative integer number.
#[verifier::external_body]
pub fn json_as_u64(v: &Value) -> (r: Option<u64>)
    ensures
        r == match json_of(*v) {
            JsonModel::Number(NumberModel::Unsigned(n)) => Some(n),
            _ => None,
        },
{
    v.as_u64()
}

/// Relies on `Value::as_str`: the text of a string value.
#[verifier::external_body]
pub fn json_as_str(v: &Value) -> (r: Option<&str>)
    ensures
        match json_of(*v) {
            JsonModel::Text(s) => r matches Some(t) && t@ == s,
            _ => r is None,
        },
{
    v.as_str()
}

/// Relies on `Value::as_array`: the elements of an array value.
#[verifier::external_body]
pub fn json_as_array(v: &Value) -> (r: Option<&Vec<Value>>)
    ensures
        match json_of(*v) {
            JsonModel::Array(items) => r matches Some(a) && models(a@) == items,
            _ => r is None,
        },
{
    v.as_array()
}

/// Relies on `Value::clone`: an equal value.
#[verifier::external_body]
pub fn json_clone(v: &Value) -> (r: Value)
    ensures
        json_of(r) == json_of(*v),
{
    v.clone()
}

/// Relies on `serde_json::Map::new`: an empty object.
#[verifier::external_body]
pub fn json_object() -> (r: Value)
    ensures
        json_of(r) == JsonModel::Object(Map::empty()),
{
    Value::Object(serde_json::Map::new())
}

/// Relies on `serde_json::Map::insert`: the object gains `key`, replacing any
/// earlier value under it.
#[verifier::external_body]
pub fn json_insert(obj: &mut Value, key: String, val: Value)
    requires
        json_of(*old(obj)) is Object,
    ensures
        json_of(*final(obj)) == JsonModel::Object(
            json_of(*old(obj))->Object_0.insert(key@, json_of(val)),
        ),
{
    if let Value::Object(m) = obj {
        m.insert(key, val);
    }
}

/// Relies on `Value::from(u64)`: a non-negative integer number.
#[verifier::external_body]
pub fn json_unsigned(n: u64) -> (r: Value)
    ensures
        json_of(r) == JsonModel::Number(NumberModel::Unsigned(n)),
{
    Value::from(n)
}

/// Relies on `Value::String`: a string value.
#[verifier::external_body]
pub fn json_string(s: String) -> (r: Value)
    ensures
        json_of(r) == JsonModel::Text(s@),
{
    Value::String(s)
}

/// Relies on `Value::Array`: an array value with these elements.
#[verifier::external_body]
pub fn json_array(items: Vec<Value>) -> (r: Value)
    ensures
        json_of(r) == JsonModel::Array(models(items@)),
{
    Value::Array(items)
}

/// Relies on `Value`'s `Display`: the compact JSON text of the value.
#[verifier::external_body]
pub fn json_to_text(v: &Value) -> (r: String)
    ensures
        r@ == json_text(json_of(*v)),
{
    v.to_string()
}

} // verus!
