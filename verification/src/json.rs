//! JSON values, as `serde_json` reads them.

use vstd::prelude::*;

verus! {

/// What a JSON number holds.
pub enum JsonNumber {
    Unsigned(u64),
    /// An integer below zero.
    Negative(i64),
    Real,
}

/// What a JSON value holds.
pub enum Json {
    Null,
    Bool(bool),
    Number(JsonNumber),
    Text(Seq<char>),
    Array(Seq<Json>),
    /// The members of an object, in the order in which they are walked.
    Object(Seq<(Seq<char>, Json)>),
}

/// A value of `serde_json`.
#[verifier::external_type_specification]
#[verifier::external_body]
pub struct ExValue(serde_json::Value);

/// An error of `serde_json`.
#[verifier::external_type_specification]
#[verifier::external_body]
pub struct ExError(serde_json::Error);

/// What a value of `serde_json` holds.
pub uninterp spec fn json_of(value: serde_json::Value) -> Json;

/// The value that `serde_json::from_slice` reads from a text, or none where the text is not the
/// JSON form of one.
pub uninterp spec fn parsed(text: Seq<u8>) -> Option<Json>;

/// The value of the member with the given key, and null where there is none.
pub open spec fn member_of(members: Seq<(Seq<char>, Json)>, key: Seq<char>) -> Json
    decreases members.len(),
{
    if members.len() == 0 {
        Json::Null
    } else if members.last().0 == key {
        members.last().1
    } else {
        member_of(members.drop_last(), key)
    }
}

/// What indexing a value by a key gives: the member of an object, and null otherwise.
pub open spec fn indexed(value: Json, key: Seq<char>) -> Json {
    match value {
        Json::Object(members) => member_of(members, key),
        _ => Json::Null,
    }
}

/// The number that a value holds, where it is an integer that `u64` takes.
pub open spec fn unsigned(value: Json) -> Option<u64> {
    match value {
        Json::Number(JsonNumber::Unsigned(n)) => Some(n),
        _ => None,
    }
}

/// The number that a value holds, where it is an integer that `i64` takes.
pub open spec fn signed(value: Json) -> Option<i64> {
    match value {
        Json::Number(JsonNumber::Unsigned(n)) => if n <= i64::MAX {
            Some(n as i64)
        } else {
            None
        },
        Json::Number(JsonNumber::Negative(n)) => Some(n),
        _ => None,
    }
}

/// `serde_json::from_slice`, into a `Value`: reads a JSON text. Which value it reads, and
/// whether it reads one, depends on the text alone.
#[verifier::external_body]
pub(crate) fn parse_json(text: &[u8]) -> (r: Result<serde_json::Value, serde_json::Error>)
    ensures
        r is Ok <==> parsed(text@) is Some,
        r matches Ok(v) ==> parsed(text@) == Some(json_of(v)),
{
    serde_json::from_slice(text)
}

/// The index of a `serde_json::Value` by a string: the member of that key where the value is an
/// object and has one, and null otherwise. It does not panic.
#[verifier::external_body]
pub(crate) fn member<'a>(value: &'a serde_json::Value, key: &str) -> (r: &'a serde_json::Value)
    ensures
        json_of(*r) == indexed(json_of(*value), key@),
{
    &value[key]
}

/// `serde_json::Value::as_object`, and `serde_json::Map::iter` on what it gives: the members of
/// an object in the order in which the map is walked, and none where the value is no object.
#[verifier::external_body]
pub(crate) fn members(value: &serde_json::Value) -> (r: Option<Vec<(&String, &serde_json::Value)>>)
    ensures
        r is Some <==> json_of(*value) is Object,
        r matches Some(m) ==> json_of(*value) == Json::Object(
            m@.map_values(|p: (&String, &serde_json::Value)| (p.0@, json_of(*p.1))),
        ),
{
    value.as_object().map(|m| m.iter().collect())
}

/// `serde_json::Value::as_u64`: the number, where it is an integer from 0 to `u64::MAX`.
pub assume_specification[ serde_json::Value::as_u64 ](v: &serde_json::Value) -> (r: Option<u64>)
    ensures
        r == unsigned(json_of(*v)),
;

/// `serde_json::Value::as_i64`: the number, where it is an integer from `i64::MIN` to `i64::MAX`.
pub assume_specification[ serde_json::Value::as_i64 ](v: &serde_json::Value) -> (r: Option<i64>)
    ensures
        r == signed(json_of(*v)),
;

/// `serde_json::Value::as_str`: the text, where the value is a string.
pub assume_specification[ serde_json::Value::as_str ](v: &serde_json::Value) -> (r: Option<
    &str,
>)
    ensures
        r is Some <==> json_of(*v) is Text,
        r matches Some(s) ==> json_of(*v) == Json::Text(s@),
;

} // verus!
