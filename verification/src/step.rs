//! What one byte does to the parse stack, as a mathematical value, and the
//! table of bytes that may begin a value.
use vstd::prelude::*;
use crate::constants::{
    ARR_BEG, LOWER_F, LOWER_N, LOWER_T, OBJ_BEG, QUOTE, digit_char, is_digit_char,
};
use crate::error::{Error, ErrorCode};
use crate::json_token::{Event, JsonToken};
use crate::token::{Frame, Token, frames_of, lemma_frames_push};

verus! {

/// The effect of one accepted byte: the stack it leaves and the events it
/// gives out, in order.
pub struct Step {
    pub stack: Seq<Frame>,
    pub events: Seq<Event>,
}

/// The step that leaves the stack as `stack` and gives out nothing.
pub open spec fn quiet(stack: Seq<Frame>) -> Step {
    Step { stack, events: seq![] }
}

/// The step that pushes `frame` and gives out nothing.
pub open spec fn push_quiet(stack: Seq<Frame>, frame: Frame) -> Step {
    Step { stack: stack.push(frame), events: seq![] }
}

/// The step that replaces the top frame by `frame` and gives out nothing.
pub open spec fn replace_top(stack: Seq<Frame>, frame: Frame) -> Step {
    Step { stack: stack.drop_last().push(frame), events: seq![] }
}

/// The events that a handler's optional token stands for.
pub open spec fn events_of_option(out: Option<JsonToken>) -> Seq<Event> {
    match out {
        Some(token) => seq![token@],
        None => seq![],
    }
}

/// The events that the number handler's result stands for: none, one
/// value, or a value followed by the end of its container.
pub open spec fn events_of_pair(out: Option<(JsonToken, Option<JsonToken>)>) -> Seq<Event> {
    match out {
        Some((value, Some(end))) => seq![value@, end@],
        Some((value, None)) => seq![value@],
        None => seq![],
    }
}

/// What a handler owes for the byte at `column`, given what that byte does
/// (`want`): on success the stack and the events of the step; on failure
/// the error with its column, and a stack that holds what it held before.
///
/// That the events are those of the step says all there is to say of
/// them. How many they are, and which are the first and the last, is
/// said once more, so that a caller has them without a proof.
pub open spec fn handled(
    want: Result<Step, ErrorCode>,
    before: Seq<Frame>,
    column: usize,
    after: Seq<Frame>,
    got: Result<Seq<Event>, Error>,
) -> bool {
    match want {
        Ok(step) => {
            &&& got matches Ok(events)
            &&& events == step.events
            &&& events.len() == step.events.len()
            &&& events.len() > 0 ==> events.first() == step.events.first() && events.last()
                == step.events.last()
            &&& after == step.stack
        },
        Err(code) => got == Err::<Seq<Event>, Error>(Error { code, column }) && after == before,
    }
}

/// A handler's result with its token replaced by the events it stands for.
pub open spec fn answer(res: Result<Option<JsonToken>, Error>) -> Result<Seq<Event>, Error> {
    match res {
        Ok(out) => Ok(events_of_option(out)),
        Err(e) => Err(e),
    }
}

/// The number handler's result with its tokens replaced by the events they
/// stand for.
pub open spec fn answer_of_pair(
    res: Result<Option<(JsonToken, Option<JsonToken>)>, Error>,
) -> Result<Seq<Event>, Error> {
    match res {
        Ok(out) => Ok(events_of_pair(out)),
        Err(e) => Err(e),
    }
}

/// The table of value starts, shared by every place where a value may
/// begin. `n`, `t` and `f` start a keyword, seeded with that byte; `"`
/// starts a string with an empty buffer; `{` and `[` open a container and
/// give out its begin event; a number byte starts a number, seeded with
/// that byte. No other byte starts a value.
pub open spec fn value_start(stack: Seq<Frame>, b: u8) -> Option<Step> {
    if b == LOWER_N {
        Some(push_quiet(stack, Frame::NullLit(seq![b])))
    } else if b == LOWER_T {
        Some(push_quiet(stack, Frame::TrueLit(seq![b])))
    } else if b == LOWER_F {
        Some(push_quiet(stack, Frame::FalseLit(seq![b])))
    } else if b == QUOTE {
        Some(push_quiet(stack, Frame::StringLit(seq![])))
    } else if b == OBJ_BEG {
        Some(Step { stack: stack.push(Frame::ObjectOpen), events: seq![Event::ObjectBegin] })
    } else if b == ARR_BEG {
        Some(Step { stack: stack.push(Frame::ArrayOpen), events: seq![Event::ArrayBegin] })
    } else if is_digit_char(b) {
        Some(push_quiet(stack, Frame::NumberLit(seq![b])))
    } else {
        None
    }
}

/// Begins a value if `b` can begin one: pushes its frame and returns the
/// token to give out, if any. Returns `None`, and leaves the stack alone,
/// if `b` begins no value.
pub fn begin_value(b: u8, tokens: &mut Vec<Token>) -> (res: Option<Option<JsonToken>>)
    ensures
        match value_start(frames_of(old(tokens)@), b) {
            Some(step) => res matches Some(out) && events_of_option(out) == step.events
                && frames_of(final(tokens)@) == step.stack,
            None => res is None && final(tokens)@ == old(tokens)@,
        },
{
    if b == LOWER_N {
        let data = vec![b];
        proof {
            assert(data@ =~= seq![b]);
            lemma_frames_push(tokens@, Token::Null(data));
        }
        tokens.push(Token::Null(data));
        Some(None)
    } else if b == LOWER_T {
        let data = vec![b];
        proof {
            assert(data@ =~= seq![b]);
            lemma_frames_push(tokens@, Token::True(data));
        }
        tokens.push(Token::True(data));
        Some(None)
    } else if b == LOWER_F {
        let data = vec![b];
        proof {
            assert(data@ =~= seq![b]);
            lemma_frames_push(tokens@, Token::False(data));
        }
        tokens.push(Token::False(data));
        Some(None)
    } else if b == QUOTE {
        let data: Vec<u8> = Vec::new();
        proof {
            lemma_frames_push(tokens@, Token::String(data));
        }
        tokens.push(Token::String(data));
        Some(None)
    } else if b == OBJ_BEG {
        proof {
            lemma_frames_push(tokens@, Token::Obj);
        }
        tokens.push(Token::Obj);
        Some(Some(JsonToken::ObjBeg))
    } else if b == ARR_BEG {
        proof {
            lemma_frames_push(tokens@, Token::Arr);
        }
        tokens.push(Token::Arr);
        Some(Some(JsonToken::ArrBeg))
    } else if digit_char(b) {
        let data = vec![b];
        proof {
            assert(data@ =~= seq![b]);
            lemma_frames_push(tokens@, Token::Number(data));
        }
        tokens.push(Token::Number(data));
        Some(None)
    } else {
        None
    }
}

} // verus!
