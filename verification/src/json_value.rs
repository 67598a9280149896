//! Scalar values as they are handed to the consumer.
use vstd::prelude::*;

verus! {

/// A scalar value. Numbers are passed through as the text that was read.
#[derive(Debug, PartialEq)]
pub enum JsonValue {
    Null,
    Bool(bool),
    String(String),
    Number(String),
}

/// The mathematical content of a [`JsonValue`].
pub enum Scalar {
    Null,
    Bool(bool),
    Text(Seq<char>),
    Number(Seq<char>),
}

impl View for JsonValue {
    type V = Scalar;

    open spec fn view(&self) -> Scalar {
        match self {
            JsonValue::Null => Scalar::Null,
            JsonValue::Bool(b) => Scalar::Bool(*b),
            JsonValue::String(s) => Scalar::Text(s@),
            JsonValue::Number(s) => Scalar::Number(s@),
        }
    }
}

} // verus!
