//! Reading values out of JSON text, through `serde_json`.
use vstd::prelude::*;

verus! {

/// The unsigned integer that `serde_json` finds under `key` in the object that `text` holds.
pub uninterp spec fn json_u64_member(text: Seq<char>, key: Seq<char>) -> Option<u64>;

/// The JSON rendering of the member `key` of the document `text` (`null` when absent).
pub uninterp spec fn json_member_text(text: Seq<char>, key: Seq<char>) -> Seq<char>;

/// The length of the array under `key` in the object that `text` holds.
pub uninterp spec fn json_array_len(text: Seq<char>, key: Seq<char>) -> Option<usize>;

/// The unsigned integer under `field` of element `index` of the array `key` in `text`.
pub uninterp spec fn json_element_u64(
    text: Seq<char>,
    key: Seq<char>,
    index: int,
    field: Seq<char>,
) -> Option<u64>;

/// The string under `field` of element `index` of the array `key` in `text`.
pub uninterp spec fn json_element_str(
    text: Seq<char>,
    key: Seq<char>,
    index: int,
    field: Seq<char>,
) -> Option<Seq<char>>;

/// `s` without leading and trailing white space.
pub uninterp spec fn trim_of(s: Seq<char>) -> Seq<char>;

/// Relies on `str::trim`: the result depends on the characters alone, and an empty text stays
/// empty.
#[verifier::external_body]
pub(crate) fn trim(s: &str) -> (r: &str)
    ensures
        r@ == trim_of(s@),
        s@.len() == 0 ==> r@.len() == 0,
{
    s.trim()
}

/// Relies on `serde_json::from_str`, `Value::get` and `Value::as_u64`: parses `text` and reads
/// the member `key` as an unsigned integer; `None` where `text` is no JSON, or the member is
/// absent or no unsigned integer.
#[verifier::external_body]
pub(crate) fn u64_member(text: &str, key: &str) -> (r: Option<u64>)
    ensures
        r == json_u64_member(text@, key@),
{
    let v: serde_json::Value = serde_json::from_str(text).ok()?;
    v.get(key)?.as_u64()
}

/// Relies on `serde_json::from_str`, indexing of `Value` and its `Display`: the member `key`
/// rendered as JSON text (a string keeps its quotes; an absent member reads `null`). Text that
/// is no JSON gives an empty string.
#[verifier::external_body]
pub(crate) fn member_text(text: &str, key: &str) -> (r: String)
    ensures
        r@ == json_member_text(text@, key@),
{
    match serde_json::from_str::<serde_json::Value>(text) {
        Ok(v) => v[key].to_string(),
        Err(_) => String::new(),
    }
}

/// Relies on `serde_json::from_str`, `Value::get` and `Value::as_array`: the number of elements
/// of the array under `key`, or `None`.
#[verifier::external_body]
pub(crate) fn array_len(text: &str, key: &str) -> (r: Option<usize>)
    ensures
        r == json_array_len(text@, key@),
{
    let v: serde_json::Value = serde_json::from_str(text).ok()?;
    Some(v.get(key)?.as_array()?.len())
}

/// Relies on `serde_json::from_str`, `Value::get`, `Value::as_array` and `Value::as_u64`: the
/// unsigned integer under `field` of element `index` of the array `key`, or `None`.
#[verifier::external_body]
pub(crate) fn element_u64(text: &str, key: &str, index: usize, field: &str) -> (r: Option<u64>)
    ensures
        r == json_element_u64(text@, key@, index as int, field@),
{
    let v: serde_json::Value = serde_json::from_str(text).ok()?;
    v.get(key)?.as_array()?.get(index)?.get(field)?.as_u64()
}

/// Relies on `serde_json::from_str`, `Value::get`, `Value::as_array` and `Value::as_str`: the
/// string under `field` of element `index` of the array `key`, or `None`.
#[verifier::external_body]
pub(crate) fn element_str(text: &str, key: &str, index: usize, field: &str) -> (r: Option<String>)
    ensures
        r.is_some() == json_element_str(text@, key@, index as int, field@).is_some(),
        r.is_some() ==> r.unwrap()@ == json_element_str(text@, key@, index as int, field@).unwrap(),
{
    let v: serde_json::Value = serde_json::from_str(text).ok()?;
    Some(v.get(key)?.as_array()?.get(index)?.get(field)?.as_str()?.to_string())
}

} // verus!
