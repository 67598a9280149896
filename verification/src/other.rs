//! Handlers for the places between values: before the document, after a
//! colon, after a comma, and after a completed value.
use vstd::prelude::*;
use crate::constants::{ARR_BEG, ARR_END, COMMA, OBJ_BEG, OBJ_END, QUOTE, empty_char, is_empty_char};
use crate::error::{Error, ErrorCode};
use crate::json_token::{Event, JsonToken};
use crate::step::{Step, answer, begin_value, handled, push_quiet, quiet, value_start};
use crate::token::{Frame, Token, frames_of, lemma_frames_push};
use crate::utils::{
    array_closed, handle_end_arr, handle_end_obj, innermost, is_container, object_closed,
    pop_to,
};

verus! {

/// What the first byte of a document does: it must open an object or an
/// array.
pub open spec fn start_step(stack: Seq<Frame>, b: u8) -> Result<Step, ErrorCode> {
    if b == OBJ_BEG {
        Ok(Step { stack: stack.push(Frame::ObjectOpen), events: seq![Event::ObjectBegin] })
    } else if b == ARR_BEG {
        Ok(Step { stack: stack.push(Frame::ArrayOpen), events: seq![Event::ArrayBegin] })
    } else {
        Err(ErrorCode::ExpectedObjectOrArray)
    }
}

/// What one byte does after the colon of a key: it begins the value, or is
/// whitespace to skip.
pub open spec fn colon_step(stack: Seq<Frame>, b: u8) -> Result<Step, ErrorCode> {
    match value_start(stack, b) {
        Some(step) => Ok(step),
        None => if is_empty_char(b) {
            Ok(quiet(stack))
        } else {
            Err(ErrorCode::ExpectedColon)
        },
    }
}

/// What one byte does after a completed value or container: whitespace is
/// skipped, a comma is pushed, and a closing bracket or brace closes the
/// innermost container of its kind.
pub open spec fn terminal_step(stack: Seq<Frame>, b: u8) -> Result<Step, ErrorCode> {
    if is_empty_char(b) {
        Ok(quiet(stack))
    } else if b == COMMA {
        Ok(push_quiet(stack, Frame::Comma))
    } else if b == ARR_END {
        Ok(Step { stack: array_closed(stack), events: seq![Event::ArrayEnd] })
    } else if b == OBJ_END {
        Ok(Step { stack: object_closed(stack), events: seq![Event::ObjectEnd] })
    } else {
        Err(ErrorCode::ExpectedCommaOrObjectEndOrArrayEnd)
    }
}

/// What a quote does after a comma: inside an array it begins a string,
/// inside an object a key. Which of the two is told by the innermost open
/// container; with none open, nothing is pushed.
pub open spec fn quote_after_comma(stack: Seq<Frame>) -> Step {
    match innermost(stack) {
        Some(Frame::ArrayOpen) => push_quiet(stack, Frame::StringLit(seq![])),
        Some(Frame::ObjectOpen) => push_quiet(stack, Frame::Key(seq![])),
        _ => quiet(stack),
    }
}

/// What one byte does after a comma: whitespace is skipped, a quote begins
/// a string or a key, and any other value start begins its value.
pub open spec fn comma_step(stack: Seq<Frame>, b: u8) -> Result<Step, ErrorCode> {
    if is_empty_char(b) {
        Ok(quiet(stack))
    } else if b == QUOTE {
        Ok(quote_after_comma(stack))
    } else {
        match value_start(stack, b) {
            Some(step) => Ok(step),
            None => Err(ErrorCode::ExpectedAnyTerm),
        }
    }
}

/// Handles the first byte of a document.
pub fn handle_none(buf: &[u8], i: usize, tokens: &mut Vec<Token>) -> (res: Result<
    Option<JsonToken>,
    Error,
>)
    requires
        i < buf@.len(),
    ensures
        handled(
            start_step(frames_of(old(tokens)@), buf@[i as int]),
            frames_of(old(tokens)@),
            i,
            frames_of(final(tokens)@),
            answer(res),
        ),
{
    let b = buf[i];
    if b == OBJ_BEG {
        proof {
            lemma_frames_push(tokens@, Token::Obj);
        }
        tokens.push(Token::Obj);
        Ok(Some(JsonToken::ObjBeg))
    } else if b == ARR_BEG {
        proof {
            lemma_frames_push(tokens@, Token::Arr);
        }
        tokens.push(Token::Arr);
        Ok(Some(JsonToken::ArrBeg))
    } else {
        Err(Error { column: i, code: ErrorCode::ExpectedObjectOrArray })
    }
}

/// Handles one byte after the colon of a key.
pub fn handle_colon(buf: &[u8], i: usize, tokens: &mut Vec<Token>) -> (res: Result<
    Option<JsonToken>,
    Error,
>)
    requires
        i < buf@.len(),
    ensures
        handled(
            colon_step(frames_of(old(tokens)@), buf@[i as int]),
            frames_of(old(tokens)@),
            i,
            frames_of(final(tokens)@),
            answer(res),
        ),
{
    let b = buf[i];
    match begin_value(b, tokens) {
        Some(out) => Ok(out),
        None => if empty_char(b) {
            Ok(None)
        } else {
            Err(Error { column: i, code: ErrorCode::ExpectedColon })
        },
    }
}

/// Handles one byte after a completed value or container.
pub fn handle_nil_token(buf: &[u8], i: usize, tokens: &mut Vec<Token>) -> (res: Result<
    Option<JsonToken>,
    Error,
>)
    requires
        i < buf@.len(),
    ensures
        handled(
            terminal_step(frames_of(old(tokens)@), buf@[i as int]),
            frames_of(old(tokens)@),
            i,
            frames_of(final(tokens)@),
            answer(res),
        ),
{
    let b = buf[i];
    if empty_char(b) {
        Ok(None)
    } else if b == COMMA {
        proof {
            lemma_frames_push(tokens@, Token::Comma);
        }
        tokens.push(Token::Comma);
        Ok(None)
    } else if b == ARR_END {
        handle_end_arr(tokens);
        Ok(Some(JsonToken::ArrEnd))
    } else if b == OBJ_END {
        handle_end_obj(tokens);
        Ok(Some(JsonToken::ObjEnd))
    } else {
        Err(Error { column: i, code: ErrorCode::ExpectedCommaOrObjectEndOrArrayEnd })
    }
}

/// Handles one byte after a comma.
///
/// A quote may begin an array element or an object key. The stack is
/// searched downward for the innermost open container to tell which; the
/// search is bounded by the depth of the stack, not by the input.
pub fn handle_comma(buf: &[u8], i: usize, tokens: &mut Vec<Token>) -> (res: Result<
    Option<JsonToken>,
    Error,
>)
    requires
        i < buf@.len(),
    ensures
        handled(
            comma_step(frames_of(old(tokens)@), buf@[i as int]),
            frames_of(old(tokens)@),
            i,
            frames_of(final(tokens)@),
            answer(res),
        ),
{
    let b = buf[i];
    if empty_char(b) {
        Ok(None)
    } else if b == QUOTE {
        let ghost stop = |f: Frame| is_container(f);
        let ghost stack = frames_of(tokens@);
        let mut cursor = tokens.len();
        assert(stack.take(cursor as int) =~= stack);
        while cursor > 0
            invariant_except_break
                pop_to(stack.take(cursor as int), stop) == pop_to(stack, stop),
                tokens@ == old(tokens)@,
            invariant
                cursor <= tokens@.len(),
                stop == |f: Frame| is_container(f),
                stack == frames_of(old(tokens)@),
            ensures
                frames_of(tokens@) == quote_after_comma(stack).stack,
            decreases cursor,
        {
            proof {
                assert(stack.take(cursor as int).drop_last() =~= stack.take(cursor - 1));
                assert(stack.take(cursor as int).last() == tokens@[cursor - 1]@);
            }
            match &tokens[cursor - 1] {
                Token::Arr => {
                    let data: Vec<u8> = Vec::new();
                    proof {
                        lemma_frames_push(tokens@, Token::String(data));
                    }
                    tokens.push(Token::String(data));
                    break;
                },
                Token::Obj => {
                    let data: Vec<u8> = Vec::new();
                    proof {
                        lemma_frames_push(tokens@, Token::Key(data));
                    }
                    tokens.push(Token::Key(data));
                    break;
                },
                _ => {
                    cursor -= 1;
                },
            }
        }
        Ok(None)
    } else {
        match begin_value(b, tokens) {
            Some(out) => Ok(out),
            None => Err(Error { column: i, code: ErrorCode::ExpectedAnyTerm }),
        }
    }
}

} // verus!
