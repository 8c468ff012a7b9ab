//! What this library takes from the crate `serde_yml`.
//!
//! Nothing here is proved: each wrapper makes one call of `serde_yml`, and its
//! contract is what that crate's source shows of the call. Values and mappings
//! are the same here if they hold the same.

use std::collections::HashMap;

use vstd::prelude::*;

verus! {

/// A YAML value, `serde_yml::Value`.
#[verifier::external_type_specification]
#[verifier::external_body]
pub struct ExValue(serde_yml::Value);

/// A YAML mapping, `serde_yml::Mapping`.
#[verifier::external_type_specification]
#[verifier::external_body]
pub struct ExMapping(serde_yml::Mapping);

/// The error of `serde_yml::from_str`.
#[verifier::external_type_specification]
#[verifier::external_body]
pub struct ExError(serde_yml::Error);

/// The most characters that a text may have: the scanner under `serde_yml` counts
/// columns in 32 bits, and adds a little to them.
pub const TEXT_LIMIT: usize = 0x7fff_ff00;

/// What can come of reading a text as a mapping with string keys.
#[verifier::ext_equal]
pub enum Reading {
    /// It is never accepted.
    Refused,
    /// It is read as these entries wherever it is accepted, but not always accepted.
    Doubtful(Map<Seq<char>, serde_yml::Value>),
    /// It is always read as these entries.
    Accepted(Map<Seq<char>, serde_yml::Value>),
}

/// What can come of `serde_yml::from_str` on a text. Whether a text is accepted is
/// not always a matter of the text alone: a mapping inside the document is refused
/// if a key is found to be there already, and whether `-0.0` is found where `0.0` is
/// rests on the seed of a hasher. Such a text is `Reading::Doubtful`.
pub uninterp spec fn yaml_document(text: Seq<char>) -> Reading;

/// The text that `serde_yml::Value::as_str` finds.
pub uninterp spec fn yaml_text(value: serde_yml::Value) -> Option<Seq<char>>;

/// The number that `serde_yml::Value::as_u64` finds.
pub uninterp spec fn yaml_number(value: serde_yml::Value) -> Option<u64>;

/// The elements that `serde_yml::Value::as_sequence` finds.
pub uninterp spec fn yaml_elements(value: serde_yml::Value) -> Option<Seq<serde_yml::Value>>;

/// The mapping that `serde_yml::Value::as_mapping` finds.
pub uninterp spec fn yaml_mapping(value: serde_yml::Value) -> Option<serde_yml::Mapping>;

/// What a mapping holds under its string keys.
pub uninterp spec fn yaml_fields(mapping: serde_yml::Mapping) -> Map<Seq<char>, serde_yml::Value>;

/// The mapping that results when `pairs` are put into it in order.
pub open spec fn entries(pairs: Seq<(String, serde_yml::Value)>) -> Map<
    Seq<char>,
    serde_yml::Value,
>
    decreases pairs.len(),
{
    if pairs.len() == 0 {
        Map::empty()
    } else {
        entries(pairs.drop_last()).insert(pairs.last().0@, pairs.last().1)
    }
}

/// `serde_yml::from_str` into a `HashMap<String, Value>`: the entries of the
/// document, in an order that is not stated, or an error, as `yaml_document` says.
/// What the error says is not stated.
#[verifier::external_body]
pub(crate) fn from_str(text: &str) -> (result: Result<
    Vec<(String, serde_yml::Value)>,
    serde_yml::Error,
>)
    requires
        text@.len() <= TEXT_LIMIT,
    ensures
        match yaml_document(text@) {
            Reading::Refused => result is Err,
            Reading::Doubtful(document) => result matches Ok(pairs) ==> entries(pairs@) == document,
            Reading::Accepted(document) => result matches Ok(pairs) && entries(pairs@) == document,
        },
{
    let document: HashMap<String, serde_yml::Value> = serde_yml::from_str(text)?;
    Ok(document.into_iter().collect())
}

/// `serde_yml::Value::as_str`: the string that the value is, tags aside.
#[verifier::external_body]
pub(crate) fn as_str(value: &serde_yml::Value) -> (text: Option<&str>)
    ensures
        text is Some <==> yaml_text(*value) is Some,
        text matches Some(s) ==> yaml_text(*value) == Some(s@),
{
    value.as_str()
}

/// `serde_yml::Value::as_u64`: the integer that the value is, tags aside, if it
/// is one of 64 bits without a sign.
#[verifier::external_body]
pub(crate) fn as_u64(value: &serde_yml::Value) -> (number: Option<u64>)
    ensures
        number == yaml_number(*value),
{
    value.as_u64()
}

/// `serde_yml::Value::as_sequence`: the elements of the sequence that the value
/// is, tags aside.
#[verifier::external_body]
pub(crate) fn as_sequence(value: &serde_yml::Value) -> (elements: Option<&Vec<serde_yml::Value>>)
    ensures
        elements is Some <==> yaml_elements(*value) is Some,
        elements matches Some(e) ==> yaml_elements(*value) == Some(e@),
{
    value.as_sequence()
}

/// `serde_yml::Value::as_mapping`: the mapping that the value is, tags aside.
#[verifier::external_body]
pub(crate) fn as_mapping(value: &serde_yml::Value) -> (mapping: Option<&serde_yml::Mapping>)
    ensures
        mapping is Some <==> yaml_mapping(*value) is Some,
        mapping matches Some(m) ==> yaml_mapping(*value) == Some(*m),
{
    value.as_mapping()
}

/// `serde_yml::Mapping::contains_key`: whether the mapping has an entry under
/// the string `key`.
#[verifier::external_body]
pub(crate) fn contains_key(mapping: &serde_yml::Mapping, key: &str) -> (found: bool)
    ensures
        found == yaml_fields(*mapping).contains_key(key@),
{
    mapping.contains_key(key)
}

/// `serde_yml::Value::index` with a string: the entry under `key` of the mapping
/// that the value is, tags aside. Where there is none it is the null value,
/// which is no string.
#[verifier::external_body]
pub(crate) fn index<'a>(value: &'a serde_yml::Value, key: &str) -> (entry: &'a serde_yml::Value)
    ensures
        match yaml_mapping(*value) {
            Some(m) if yaml_fields(m).contains_key(key@) => *entry == yaml_fields(m)[key@],
            _ => yaml_text(*entry) is None,
        },
{
    &value[key]
}

} // verus!
