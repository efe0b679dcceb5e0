//! The source document of a table: a JSON value as the `json` crate holds it.
//!
//! A `JsonValue` is opaque to the verifier. What the library reads from one
//! and writes into one goes through the functions of this file that have no
//! verified body, and each of them states what the crate's function does to
//! the three things named below. Their contracts are believed, not proved.

use crate::util::is_digit;
use json::JsonValue;
use vstd::prelude::*;

verus! {

/// `json::JsonValue`, a JSON value of any kind. Nothing of its inside is
/// known here.
#[verifier::external_type_specification]
#[verifier::external_body]
pub struct ExJsonValue(JsonValue);

/// `json::Error`, what the parser and the object methods fail with. It is
/// only handed on.
#[verifier::external_type_specification]
#[verifier::external_body]
pub struct ExJsonError(json::Error);

/// Whether the value is an object: what `JsonValue::is_object` returns.
pub uninterp spec fn json_is_object(v: JsonValue) -> bool;

/// The value's text where it is a string, as `JsonValue::as_str` gives it.
pub uninterp spec fn json_text(v: JsonValue) -> Option<Seq<char>>;

/// The members of an object, each a key and a value, in the order in which
/// `JsonValue::entries` walks them. An object holds each key once; a value
/// that is no object has no members.
pub uninterp spec fn json_fields(v: JsonValue) -> Seq<(Seq<char>, JsonValue)>;

/// What `json::parse` makes of a text.
pub uninterp spec fn json_parsed(text: Seq<char>) -> Result<JsonValue, json::Error>;

/// Whether one of the members has this key.
pub open spec fn has_field(fields: Seq<(Seq<char>, JsonValue)>, key: Seq<char>) -> bool {
    exists|i: int| 0 <= i < fields.len() && (#[trigger] fields[i]).0 == key
}

/// The place of a member with this key.
pub open spec fn field_place(fields: Seq<(Seq<char>, JsonValue)>, key: Seq<char>) -> int {
    choose|i: int| 0 <= i < fields.len() && (#[trigger] fields[i]).0 == key
}

/// The members after `key` was set to `value`: a member with this key gets
/// the value, and without one a new member goes behind the others.
pub open spec fn put_field(
    fields: Seq<(Seq<char>, JsonValue)>,
    key: Seq<char>,
    value: JsonValue,
) -> Seq<(Seq<char>, JsonValue)> {
    if has_field(fields, key) {
        fields.update(field_place(fields, key), (key, value))
    } else {
        fields.push((key, value))
    }
}

/// `JsonValue::is_object`.
#[verifier::external_body]
pub(crate) fn is_object(v: &JsonValue) -> (r: bool)
    ensures
        r == json_is_object(*v),
{
    v.is_object()
}

/// `JsonValue::has_key`: whether the value is an object with a member of
/// this key.
#[verifier::external_body]
pub(crate) fn has_key(v: &JsonValue, key: &str) -> (r: bool)
    ensures
        r == has_field(json_fields(*v), key@),
{
    v.has_key(key)
}

/// Indexing a `JsonValue` by a key: the value of the member with that key.
/// Of what comes back where there is no such member nothing is claimed.
#[verifier::external_body]
pub(crate) fn member<'a>(v: &'a JsonValue, key: &str) -> (r: &'a JsonValue)
    ensures
        forall|i: int|
            0 <= i < json_fields(*v).len() && (#[trigger] json_fields(*v)[i]).0 == key@ ==> *r
                == json_fields(*v)[i].1,
{
    &v[key]
}

/// `JsonValue::as_str`: the text of a string, and `None` for anything else.
#[verifier::external_body]
pub(crate) fn as_text<'a>(v: &'a JsonValue) -> (r: Option<&'a str>)
    ensures
        match r {
            Some(text) => json_text(*v) == Some(text@),
            None => json_text(*v) is None,
        },
{
    v.as_str()
}

/// `JsonValue::entries`, collected: the members in order.
#[verifier::external_body]
pub(crate) fn entries<'a>(v: &'a JsonValue) -> (r: Vec<(&'a str, &'a JsonValue)>)
    ensures
        r@.len() == json_fields(*v).len(),
        forall|i: int|
            0 <= i < r@.len() ==> (#[trigger] r@[i]).0@ == json_fields(*v)[i].0 && *r@[i].1
                == json_fields(*v)[i].1,
{
    v.entries().collect()
}

/// `JsonValue::new_object`: an object without members.
#[verifier::external_body]
pub(crate) fn new_object() -> (r: JsonValue)
    ensures
        json_is_object(r),
        json_fields(r) == Seq::<(Seq<char>, JsonValue)>::empty(),
{
    JsonValue::new_object()
}

/// `JsonValue::from` on a `&str`: a string with that text.
#[verifier::external_body]
pub(crate) fn text_value(text: &str) -> (r: JsonValue)
    ensures
        json_text(r) == Some(text@),
{
    JsonValue::from(text)
}

/// `JsonValue::insert`: on an object it sets the member and succeeds; on
/// anything else it fails and changes nothing.
#[verifier::external_body]
pub(crate) fn insert_member(v: &mut JsonValue, key: &str, value: JsonValue) -> (r: Result<
    (),
    json::Error,
>)
    ensures
        json_is_object(*old(v)) ==> r is Ok && json_is_object(*final(v)) && json_fields(*final(v))
            == put_field(json_fields(*old(v)), key@, value),
        !json_is_object(*old(v)) ==> r is Err && *final(v) == *old(v),
{
    v.insert(key, value)
}

/// The longest run of decimal digits in a text that is handed to the
/// parser.
pub const MAX_DIGIT_RUN: usize = 32767;

/// Whether the `len` characters of `text` from offset `i` are all decimal
/// digits.
pub open spec fn digit_run_at(text: Seq<char>, i: int, len: int) -> bool {
    &&& 0 <= i
    &&& i + len <= text.len()
    &&& forall|k: int| i <= k < i + len ==> is_digit(#[trigger] text[k])
}

/// Whether nowhere in `text` more than `MAX_DIGIT_RUN` decimal digits stand
/// in a row.
pub open spec fn digit_runs_bounded(text: Seq<char>) -> bool {
    forall|i: int| !#[trigger] digit_run_at(text, i, MAX_DIGIT_RUN + 1)
}

/// `json::parse`, on a text without a long run of digits. The parser counts
/// the digits of a fraction in sixteen bits and does not return from a
/// fraction of more than 32768 digits, so a text that could hold one is not
/// handed to it.
#[verifier::external_body]
pub(crate) fn parse_text(text: &str) -> (r: Result<JsonValue, json::Error>)
    requires
        digit_runs_bounded(text@),
    ensures
        r == json_parsed(text@),
{
    json::parse(text)
}

/// The value of the member with this key.
pub open spec fn member_of(v: JsonValue, key: Seq<char>) -> JsonValue {
    json_fields(v)[field_place(json_fields(v), key)].1
}

/// What indexing gives for a key that is there is the member's value.
pub proof fn lemma_member_of(v: JsonValue, key: Seq<char>, found: JsonValue)
    requires
        has_field(json_fields(v), key),
        forall|i: int|
            0 <= i < json_fields(v).len() && (#[trigger] json_fields(v)[i]).0 == key ==> found
                == json_fields(v)[i].1,
    ensures
        found == member_of(v, key),
{
}

/// Whether the document has the shape of a table: an object with the texts
/// `lang_name` and `lang_id` and the object `data`.
pub open spec fn is_table_document(v: JsonValue) -> bool {
    &&& json_is_object(v)
    &&& has_field(json_fields(v), "lang_name"@)
    &&& has_field(json_fields(v), "lang_id"@)
    &&& json_text(member_of(v, "lang_name"@)) is Some
    &&& json_text(member_of(v, "lang_id"@)) is Some
    &&& has_field(json_fields(v), "data"@)
    &&& json_is_object(member_of(v, "data"@))
}

/// The language name that the document gives.
pub open spec fn document_name(v: JsonValue) -> Seq<char> {
    json_text(member_of(v, "lang_name"@)).unwrap()
}

/// The language id that the document gives.
pub open spec fn document_id(v: JsonValue) -> Seq<char> {
    json_text(member_of(v, "lang_id"@)).unwrap()
}

/// The members of the document's `data`.
pub open spec fn document_entries(v: JsonValue) -> Seq<(Seq<char>, JsonValue)> {
    json_fields(member_of(v, "data"@))
}

/// Whether every member's value is a text.
pub open spec fn all_text(fields: Seq<(Seq<char>, JsonValue)>) -> bool {
    forall|i: int| 0 <= i < fields.len() ==> json_text(#[trigger] fields[i].1) is Some
}

/// Whether the member at `i` is the first whose value is not a text.
pub open spec fn first_non_text(fields: Seq<(Seq<char>, JsonValue)>, i: int) -> bool {
    &&& 0 <= i < fields.len()
    &&& json_text(fields[i].1) is None
    &&& forall|j: int| 0 <= j < i ==> json_text(#[trigger] fields[j].1) is Some
}

/// The members as pairs of texts.
pub open spec fn field_texts(fields: Seq<(Seq<char>, JsonValue)>) -> Seq<(Seq<char>, Seq<char>)> {
    Seq::new(fields.len(), |i: int| (fields[i].0, json_text(fields[i].1).unwrap()))
}

} // verus!
