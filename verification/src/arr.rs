//! The handler for the inside of an array, where an element is expected.
use vstd::prelude::*;
use crate::constants::{ARR_END, empty_char, is_empty_char};
use crate::error::{Error, ErrorCode};
use crate::json_token::{Event, JsonToken};
use crate::step::{Step, answer, begin_value, handled, quiet, value_start};
use crate::token::{Frame, Token, frames_of};
use crate::utils::{array_closed, handle_end_arr};

verus! {

/// What one byte does right after `[`: it begins the first element, closes
/// the array at once, or is whitespace to skip.
pub open spec fn array_step(stack: Seq<Frame>, b: u8) -> Result<Step, ErrorCode> {
    match value_start(stack, b) {
        Some(step) => Ok(step),
        None => if b == ARR_END {
            Ok(Step { stack: array_closed(stack), events: seq![Event::ArrayEnd] })
        } else if is_empty_char(b) {
            Ok(quiet(stack))
        } else {
            Err(ErrorCode::InvalidArrFormat)
        },
    }
}

/// Handles one byte right after the opening bracket of an array.
pub fn handle_arr(buf: &[u8], i: usize, tokens: &mut Vec<Token>) -> (res: Result<
    Option<JsonToken>,
    Error,
>)
    requires
        i < buf@.len(),
    ensures
        handled(
            array_step(frames_of(old(tokens)@), buf@[i as int]),
            frames_of(old(tokens)@),
            i,
            frames_of(final(tokens)@),
            answer(res),
        ),
{
    let b = buf[i];
    match begin_value(b, tokens) {
        Some(out) => Ok(out),
        None => if b == ARR_END {
            handle_end_arr(tokens);
            Ok(Some(JsonToken::ArrEnd))
        } else if empty_char(b) {
            Ok(None)
        } else {
            Err(Error { column: i, code: ErrorCode::InvalidArrFormat })
        },
    }
}

} // verus!
