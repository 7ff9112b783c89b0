//! Reading JSON reports.

use serde_json::Value;
use vstd::prelude::*;

verus! {

/// A JSON value, opaque here.
#[verifier::external_type_specification]
#[verifier::external_body]
pub struct ExValue(serde_json::Value);

/// The value that a JSON text stands for, or `None` when it is no JSON.
pub uninterp spec fn json_document(text: Seq<char>) -> Option<Value>;

/// The value under a key of an object, or null where there is none.
pub uninterp spec fn json_member(value: Value, key: Seq<char>) -> Value;

/// The value at a position of an array, or null where there is none.
pub uninterp spec fn json_item(value: Value, index: int) -> Value;

/// The text of a value that is a string.
pub uninterp spec fn json_text(value: Value) -> Option<Seq<char>>;

/// The number of a value that is an unsigned integer of 64 bits.
pub uninterp spec fn json_number(value: Value) -> Option<u64>;

/// The items of a value that is an array.
pub uninterp spec fn json_items(value: Value) -> Option<Seq<Value>>;

/// The entries of a value that is an object, as keys with values.
pub uninterp spec fn json_entries(value: Value) -> Option<Seq<(Seq<char>, Value)>>;

/// `serde_json::from_str`. Its value is a function of the text, named by
/// [`json_document`].
#[verifier::external_body]
pub(crate) fn parse(text: &str) -> (res: Option<Value>)
    ensures
        res == json_document(text@),
{
    serde_json::from_str(text).ok()
}

/// Indexing of a `serde_json::Value` by a key, which gives null where there is
/// no such entry. Its value is named by [`json_member`].
#[verifier::external_body]
pub(crate) fn member(value: &Value, key: &str) -> (res: Value)
    ensures
        res == json_member(*value, key@),
{
    value[key].clone()
}

/// Indexing of a `serde_json::Value` by a position, which gives null where
/// there is no such item. Its value is named by [`json_item`].
#[verifier::external_body]
pub(crate) fn item(value: &Value, index: usize) -> (res: Value)
    ensures
        res == json_item(*value, index as int),
{
    value[index].clone()
}

/// `serde_json::Value::as_str`, named by [`json_text`].
#[verifier::external_body]
pub(crate) fn text(value: &Value) -> (res: Option<String>)
    ensures
        res.deep_view() == json_text(*value),
{
    value.as_str().map(str::to_owned)
}

/// `serde_json::Value::as_u64`, named by [`json_number`].
#[verifier::external_body]
pub(crate) fn number(value: &Value) -> (res: Option<u64>)
    ensures
        res == json_number(*value),
{
    value.as_u64()
}

/// `serde_json::Value::as_array`, named by [`json_items`].
#[verifier::external_body]
pub(crate) fn items(value: &Value) -> (res: Option<Vec<Value>>)
    ensures
        res is Some <==> json_items(*value) is Some,
        res matches Some(found) ==> json_items(*value) == Some(found@),
{
    value.as_array().cloned()
}

/// `serde_json::Value::as_object`, with its entries in the crate's order, named
/// by [`json_entries`].
#[verifier::external_body]
pub(crate) fn entries(value: &Value) -> (res: Option<Vec<(String, Value)>>)
    ensures
        res is Some <==> json_entries(*value) is Some,
        res matches Some(found) ==> json_entries(*value) == Some(
            found@.map_values(|e: (String, Value)| (e.0@, e.1)),
        ),
{
    let object = value.as_object()?;
    Some(object.iter().map(|(key, value)| (key.clone(), value.clone())).collect())
}

} // verus!
