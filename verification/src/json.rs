//! JSON values that the library carries along without looking inside.

use vstd::prelude::*;

verus! {

/// `serde_json::Value`, as a type whose values are carried and copied only.
#[verifier::external_type_specification]
#[verifier::external_body]
pub struct ExValue(serde_json::Value);

/// `Clone::clone` of `serde_json::Value`: the copy is the same JSON value.
pub assume_specification[ <serde_json::Value as Clone>::clone ](v: &serde_json::Value) -> (res:
    serde_json::Value)
    ensures
        res == *v,
;

/// A copy of an optional JSON value.
pub fn clone_json(v: &Option<serde_json::Value>) -> (res: Option<serde_json::Value>)
    ensures
        res == *v,
{
    match v {
        Some(x) => Some(x.clone()),
        None => None,
    }
}

/// Whether a JSON value is an object: what `Value::is_object` returns.
pub uninterp spec fn json_is_object(v: serde_json::Value) -> bool;

/// The names of the members of a JSON value that is an object, in the order
/// in which the value keeps them: what `Map::keys` hands out for the map
/// that `Value::as_object` returns.
pub uninterp spec fn json_keys(v: serde_json::Value) -> Seq<Seq<char>>;

/// The member of a JSON value under a name: what `Value::get` returns for
/// that name.
pub uninterp spec fn json_member(v: serde_json::Value, key: Seq<char>) -> Option<serde_json::Value>;

/// The text of a JSON value that is a string: what `Value::as_str` returns.
pub uninterp spec fn json_text(v: serde_json::Value) -> Option<Seq<char>>;

/// `Value::is_object`.
#[verifier::external_body]
pub(crate) fn is_object(v: &serde_json::Value) -> (b: bool)
    ensures
        b == json_is_object(*v),
{
    v.is_object()
}

/// `Value::get` with a name: the member under that name, if the value is an
/// object that has one.
#[verifier::external_body]
pub(crate) fn member<'a>(v: &'a serde_json::Value, key: &str) -> (r: Option<&'a serde_json::Value>)
    ensures
        r == match json_member(*v, key@) {
            Some(m) => Some(&m),
            None => None,
        },
{
    v.get(key)
}

/// `Value::as_str`: the text of a value that is a string.
#[verifier::external_body]
pub(crate) fn as_text(v: &serde_json::Value) -> (r: Option<String>)
    ensures
        match json_text(*v) {
            Some(t) => r is Some && r->0@ == t,
            None => r is None,
        },
{
    v.as_str().map(|s| s.to_string())
}

/// `Map::keys` of the map of a value that is an object: the names of its
/// members.
#[verifier::external_body]
pub(crate) fn object_keys(v: &serde_json::Value) -> (r: Vec<String>)
    requires
        json_is_object(*v),
    ensures
        r.deep_view() == json_keys(*v),
{
    v.as_object().unwrap().keys().cloned().collect()
}

/// `Value::Object` of `Map::new`: an object without members.
#[verifier::external_body]
pub(crate) fn empty_object() -> (r: serde_json::Value)
    ensures
        json_is_object(r),
        json_keys(r).len() == 0,
{
    serde_json::Value::Object(serde_json::Map::new())
}

/// Whether a JSON value is `null`: what `Value::is_null` returns.
pub uninterp spec fn json_is_null(v: serde_json::Value) -> bool;

/// The number of a JSON value that is a whole number of 64 bits without a
/// sign: what `Value::as_u64` returns.
pub uninterp spec fn json_u64(v: serde_json::Value) -> Option<u64>;

/// The number of a JSON value that is a whole number of 64 bits with a sign:
/// what `Value::as_i64` returns.
pub uninterp spec fn json_i64(v: serde_json::Value) -> Option<i64>;

/// The items of a JSON value that is an array: what `Value::as_array`
/// returns.
pub uninterp spec fn json_array(v: serde_json::Value) -> Option<Seq<serde_json::Value>>;

/// How deep the arrays of a JSON value nest: more for an array than for
/// each of its items.
pub uninterp spec fn json_height(v: serde_json::Value) -> nat;

/// `Value::is_null`.
#[verifier::external_body]
pub(crate) fn is_null(v: &serde_json::Value) -> (b: bool)
    ensures
        b == json_is_null(*v),
{
    v.is_null()
}

/// `Value::as_u64`.
#[verifier::external_body]
pub(crate) fn as_u64(v: &serde_json::Value) -> (r: Option<u64>)
    ensures
        r == json_u64(*v),
{
    v.as_u64()
}

/// `Value::as_i64`.
#[verifier::external_body]
pub(crate) fn as_i64(v: &serde_json::Value) -> (r: Option<i64>)
    ensures
        r == json_i64(*v),
{
    v.as_i64()
}

/// `Value::as_array`: the items of a value that is an array, each of which
/// nests less deep than the array.
#[verifier::external_body]
pub(crate) fn as_array(v: &serde_json::Value) -> (r: Option<&Vec<serde_json::Value>>)
    ensures
        match json_array(*v) {
            Some(items) => r is Some && r->0@ == items && forall|i: int|
                0 <= i < items.len() ==> json_height(#[trigger] items[i]) < json_height(*v),
            None => r is None,
        },
{
    v.as_array()
}

/// `Value::Null`: the value `null`, which is neither a number nor an array.
#[verifier::external_body]
pub(crate) fn null_value() -> (r: serde_json::Value)
    ensures
        json_is_null(r),
        json_u64(r) is None,
        json_i64(r) is None,
        json_array(r) is None,
{
    serde_json::Value::Null
}

/// `Value::from` of a whole number without a sign: a number that reads as
/// that number, and is neither `null` nor an array.
#[verifier::external_body]
pub(crate) fn unsigned_value(u: u64) -> (r: serde_json::Value)
    ensures
        json_u64(r) == Some(u),
        !json_is_null(r),
        json_array(r) is None,
{
    serde_json::Value::from(u)
}

/// `Value::from` of a whole number below zero: a number that reads as that
/// number with a sign and not without, and is neither `null` nor an array.
#[verifier::external_body]
pub(crate) fn negative_value(i: i64) -> (r: serde_json::Value)
    requires
        i < 0,
    ensures
        json_i64(r) == Some(i),
        json_u64(r) is None,
        !json_is_null(r),
        json_array(r) is None,
{
    serde_json::Value::from(i)
}

/// `Value::Array`: the array of these items, which is neither `null` nor a
/// number.
#[verifier::external_body]
pub(crate) fn array_value(items: Vec<serde_json::Value>) -> (r: serde_json::Value)
    ensures
        json_array(r) == Some(items@),
        !json_is_null(r),
        json_u64(r) is None,
        json_i64(r) is None,
{
    serde_json::Value::Array(items)
}

} // verus!
