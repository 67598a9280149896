//! Structural events.
use vstd::prelude::*;
use crate::json_value::{JsonValue, Scalar};

verus! {

/// One unit of output: a container begins or ends, an object key, or a
/// scalar value.
#[derive(Debug, PartialEq)]
pub enum JsonToken {
    ObjBeg,
    ObjEnd,
    ArrBeg,
    ArrEnd,
    Key(String),
    Val(JsonValue),
}

/// The mathematical content of a [`JsonToken`].
pub enum Event {
    ObjectBegin,
    ObjectEnd,
    ArrayBegin,
    ArrayEnd,
    Key(Seq<char>),
    Value(Scalar),
}

impl View for JsonToken {
    type V = Event;

    open spec fn view(&self) -> Event {
        match self {
            JsonToken::ObjBeg => Event::ObjectBegin,
            JsonToken::ObjEnd => Event::ObjectEnd,
            JsonToken::ArrBeg => Event::ArrayBegin,
            JsonToken::ArrEnd => Event::ArrayEnd,
            JsonToken::Key(k) => Event::Key(k@),
            JsonToken::Val(v) => Event::Value(v@),
        }
    }
}

/// The events that a sequence of tokens stands for.
pub open spec fn events_of(tokens: Seq<JsonToken>) -> Seq<Event> {
    tokens.map_values(|t: JsonToken| t@)
}

} // verus!
