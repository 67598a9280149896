//! Well-formed documents, as mathematical values: what they look like as
//! bytes, and which events they are to give.
//!
//! A document is written down together with its whitespace, so that every
//! input that the tokenizer is meant to read is the writing of exactly one
//! document, followed by whitespace or by nothing: the laws on reading a
//! document take that whitespace as a `tail` of its own. Numbers, strings
//! and keys are kept as the bytes that stand in the input. A string is
//! given out as these bytes; a key is given out without the backslashes
//! that escape a quote.
use vstd::prelude::*;
use vstd::utf8::{decode_utf8, valid_utf8};
use crate::constants::{
    ARR_BEG, ARR_END, BACKSLASH, COLON, COMMA, DOT, OBJ_BEG, OBJ_END, QUOTE, is_digit_char,
    is_empty_char,
};
use crate::json_token::Event;
use crate::json_value::Scalar;
use crate::obj::{KEY_MAX_LEN, unescaped};
use crate::val::{false_word, null_word, true_word};

verus! {

/// A value, with the whitespace that follows it.
pub struct Item {
    pub value: Json,
    /// Whitespace between the value and the comma or closing byte.
    pub trail: Seq<u8>,
}

/// An entry of an object.
pub struct Member {
    /// Whitespace before the opening quote of the key.
    pub lead: Seq<u8>,
    /// The bytes between the quotes of the key.
    pub key: Seq<u8>,
    /// Whitespace between the key and its colon.
    pub gap: Seq<u8>,
    /// Whitespace between the colon and the value.
    pub space: Seq<u8>,
    pub item: Item,
}

/// An element of an array.
pub struct Element {
    /// Whitespace before the value.
    pub lead: Seq<u8>,
    pub item: Item,
}

/// A JSON value as it is written.
pub enum Json {
    Null,
    Bool(bool),
    /// A number, as the bytes of its literal.
    Number(Seq<u8>),
    /// A string, as the bytes between its quotes.
    Text(Seq<u8>),
    /// An array: the whitespace after `[`, then the elements.
    Array { pad: Seq<u8>, elements: Seq<Element> },
    /// An object: the whitespace after `{`, then the members.
    Object { pad: Seq<u8>, members: Seq<Member> },
}

/// Whether `ws` holds whitespace only.
pub open spec fn blank(ws: Seq<u8>) -> bool {
    forall|j: int| 0 <= j < ws.len() ==> is_empty_char(#[trigger] ws[j])
}

/// Whether `digits` can be scanned as one number: it begins with a number
/// byte, and goes on with number bytes and at most one decimal point.
pub open spec fn number_literal(digits: Seq<u8>) -> bool {
    &&& digits.len() > 0
    &&& is_digit_char(digits[0])
    &&& forall|j: int|
        0 <= j < digits.len() ==> is_digit_char(#[trigger] digits[j]) || digits[j] == DOT
    &&& forall|i: int, j: int|
        0 <= i < j < digits.len() ==> !(#[trigger] digits[i] == DOT && #[trigger] digits[j] == DOT)
}

/// Whether every quote among the first `n` bytes of `body` follows a
/// backslash.
pub open spec fn quotes_escaped(body: Seq<u8>, n: int) -> bool {
    forall|j: int| 0 <= j < n && #[trigger] body[j] == QUOTE ==> j > 0 && body[j - 1] == BACKSLASH
}

/// Whether `body` can stand between two quotes: every quote in it follows
/// a backslash, its last byte is no backslash (the closing quote would be
/// taken for a part of the text), and it is well-formed UTF-8.
pub open spec fn string_body(body: Seq<u8>) -> bool {
    &&& quotes_escaped(body, body.len() as int)
    &&& !(body.len() > 0 && body.last() == BACKSLASH)
    &&& valid_utf8(body)
}

/// Whether `key` can stand between the two quotes of a key: every quote
/// in it follows a backslash, its last byte is no backslash, it holds no
/// more than `KEY_MAX_LEN` bytes, and what is given out of it, the bytes
/// but for the backslashes that escape a quote, is well-formed UTF-8.
pub open spec fn key_body(key: Seq<u8>) -> bool {
    &&& quotes_escaped(key, key.len() as int)
    &&& !(key.len() > 0 && key.last() == BACKSLASH)
    &&& key.len() <= KEY_MAX_LEN
    &&& valid_utf8(unescaped(key))
}

/// Whether `json` is well formed, with all that it holds.
pub open spec fn well_formed(json: Json) -> bool
    decreases json, 0int,
{
    match json {
        Json::Null => true,
        Json::Bool(_) => true,
        Json::Number(digits) => number_literal(digits),
        Json::Text(body) => string_body(body),
        Json::Array { pad, elements } => blank(pad) && elements_well_formed(elements),
        Json::Object { pad, members } => blank(pad) && members_well_formed(members),
    }
}

/// Whether the elements of an array are well formed, each with its
/// whitespace.
pub open spec fn elements_well_formed(elements: Seq<Element>) -> bool
    decreases elements, 0int,
{
    forall|k: int|
        0 <= k < elements.len() ==> {
            &&& blank((#[trigger] elements[k]).lead)
            &&& blank(elements[k].item.trail)
            &&& well_formed(elements[k].item.value)
        }
}

/// Whether the members of an object are well formed, each with its
/// whitespace and its key.
pub open spec fn members_well_formed(members: Seq<Member>) -> bool
    decreases members, 0int,
{
    forall|k: int|
        0 <= k < members.len() ==> {
            &&& blank((#[trigger] members[k]).lead)
            &&& key_body(members[k].key)
            &&& blank(members[k].gap)
            &&& blank(members[k].space)
            &&& blank(members[k].item.trail)
            &&& well_formed(members[k].item.value)
        }
}

/// Whether `json` is a document: a well-formed array or object.
pub open spec fn is_document(json: Json) -> bool {
    (json is Array || json is Object) && well_formed(json)
}

/// The bytes of `json` as it is written.
pub open spec fn written(json: Json) -> Seq<u8>
    decreases json, 0int,
{
    match json {
        Json::Null => null_word(),
        Json::Bool(true) => true_word(),
        Json::Bool(false) => false_word(),
        Json::Number(digits) => digits,
        Json::Text(body) => seq![QUOTE] + body + seq![QUOTE],
        Json::Array { pad, elements } => seq![ARR_BEG] + pad + written_elements(elements, 0),
        Json::Object { pad, members } => seq![OBJ_BEG] + pad + written_members(members, 0),
    }
}

/// The bytes of the elements of an array from the `k`-th on, with the
/// commas between them and the closing bracket at the end.
pub open spec fn written_elements(elements: Seq<Element>, k: int) -> Seq<u8>
    decreases elements, elements.len() - k,
{
    if 0 <= k < elements.len() {
        let e = elements[k];
        e.lead + written(e.item.value) + e.item.trail + if k + 1 < elements.len() {
            seq![COMMA] + written_elements(elements, k + 1)
        } else {
            seq![ARR_END]
        }
    } else {
        seq![ARR_END]
    }
}

/// The bytes of the members of an object from the `k`-th on, with the
/// commas between them and the closing brace at the end.
pub open spec fn written_members(members: Seq<Member>, k: int) -> Seq<u8>
    decreases members, members.len() - k,
{
    if 0 <= k < members.len() {
        let m = members[k];
        m.lead + seq![QUOTE] + m.key + seq![QUOTE] + m.gap + seq![COLON] + m.space + written(
            m.item.value,
        ) + m.item.trail + if k + 1 < members.len() {
            seq![COMMA] + written_members(members, k + 1)
        } else {
            seq![OBJ_END]
        }
    } else {
        seq![OBJ_END]
    }
}

/// The events of `json` in the order of a pre-order traversal: a
/// container begins, its entries follow, it ends; an entry of an object
/// is its key and then its value.
pub open spec fn traversal(json: Json) -> Seq<Event>
    decreases json, 0int,
{
    match json {
        Json::Null => seq![Event::Value(Scalar::Null)],
        Json::Bool(b) => seq![Event::Value(Scalar::Bool(b))],
        Json::Number(digits) => seq![Event::Value(Scalar::Number(decode_utf8(digits)))],
        Json::Text(body) => seq![Event::Value(Scalar::Text(decode_utf8(body)))],
        Json::Array { pad, elements } => seq![Event::ArrayBegin] + traversal_of_elements(
            elements,
            0,
        ),
        Json::Object { pad, members } => seq![Event::ObjectBegin] + traversal_of_members(
            members,
            0,
        ),
    }
}

/// The events of the elements of an array from the `k`-th on, and the end
/// of the array.
pub open spec fn traversal_of_elements(elements: Seq<Element>, k: int) -> Seq<Event>
    decreases elements, elements.len() - k,
{
    if 0 <= k < elements.len() {
        traversal(elements[k].item.value) + traversal_of_elements(elements, k + 1)
    } else {
        seq![Event::ArrayEnd]
    }
}

/// The events of the members of an object from the `k`-th on, and the end
/// of the object.
pub open spec fn traversal_of_members(members: Seq<Member>, k: int) -> Seq<Event>
    decreases members, members.len() - k,
{
    if 0 <= k < members.len() {
        seq![Event::Key(decode_utf8(unescaped(members[k].key)))] + traversal(
            members[k].item.value,
        )
            + traversal_of_members(members, k + 1)
    } else {
        seq![Event::ObjectEnd]
    }
}

} // verus!
