//! Handlers for scalar values: strings, numbers and the three keywords.
//!
//! Each handler takes one byte and the stack whose top frame holds the
//! bytes of the value read so far.
use vstd::prelude::*;
use crate::constants::{
    ARR_END, BACKSLASH, COMMA, DOT, LOWER_A, LOWER_E, LOWER_F, LOWER_L, LOWER_N, LOWER_R,
    LOWER_S, LOWER_T, LOWER_U, OBJ_END, QUOTE, digit_char, empty_char, is_digit_char,
    is_empty_char,
};
use crate::error::{Error, ErrorCode};
use crate::json_token::{Event, JsonToken};
use crate::json_value::{JsonValue, Scalar};
use crate::step::{Step, answer, answer_of_pair, handled, quiet, replace_top};
use crate::text::{decode_text, text_of};
use crate::token::{
    Frame, Token, frames_of, lemma_frames_drop_last, lemma_frames_push,
    lemma_frames_update_last,
};
use crate::utils::{array_closed, handle_end_arr, handle_end_obj, object_closed, squash, squashed};

verus! {

/// Whether the last byte of `data` is a backslash, so that a quote that
/// follows is part of the text.
pub open spec fn escapes_next(data: Seq<u8>) -> bool {
    data.len() > 0 && data.last() == BACKSLASH
}

/// What one byte does while a string value is being scanned.
///
/// A quote after a backslash is appended; any other quote ends the string,
/// whose bytes are given out as text, the backslashes still in them. Every
/// other byte is appended as it is. Bytes that are no text, or a stack
/// whose top is no string, are an `InvalidFormat`.
pub open spec fn string_step(stack: Seq<Frame>, b: u8) -> Result<Step, ErrorCode> {
    if stack.len() > 0 && stack.last() is StringLit {
        let data = stack.last()->StringLit_0;
        if b == QUOTE && !escapes_next(data) {
            match text_of(data) {
                Some(text) => Ok(
                    Step {
                        stack: squashed(stack).push(Frame::Terminal),
                        events: seq![Event::Value(Scalar::Text(text))],
                    },
                ),
                None => Err(ErrorCode::InvalidFormat),
            }
        } else {
            Ok(replace_top(stack, Frame::StringLit(data.push(b))))
        }
    } else {
        Err(ErrorCode::InvalidFormat)
    }
}

/// The stack after the byte `b` has ended a number: the number is
/// collapsed, and then a comma is pushed, or the container is closed, or
/// (after whitespace) the completed value is marked.
pub open spec fn number_ended(stack: Seq<Frame>, b: u8) -> Seq<Frame> {
    if b == COMMA {
        squashed(stack).push(Frame::Comma)
    } else if b == ARR_END {
        array_closed(squashed(stack))
    } else if b == OBJ_END {
        object_closed(squashed(stack))
    } else {
        squashed(stack).push(Frame::Terminal)
    }
}

/// The events given out when the byte `b` ends a number whose text is
/// `text`: the number, and for a closing bracket the end of the container
/// as well.
pub open spec fn number_events(text: Seq<char>, b: u8) -> Seq<Event> {
    let value = Event::Value(Scalar::Number(text));
    if b == ARR_END {
        seq![value, Event::ArrayEnd]
    } else if b == OBJ_END {
        seq![value, Event::ObjectEnd]
    } else {
        seq![value]
    }
}

/// Whether `b` ends a number: a comma, a closing bracket or brace, or
/// whitespace.
pub open spec fn ends_number(b: u8) -> bool {
    b == COMMA || b == ARR_END || b == OBJ_END || is_empty_char(b)
}

/// What one byte does while a number is being scanned.
///
/// A decimal point is appended once, a number byte always. A byte that
/// ends the number gives out the number as the text that was read. Any
/// other byte is an `InvalidNumber`. With no number on top of the stack,
/// nothing happens.
pub open spec fn number_step(stack: Seq<Frame>, b: u8) -> Result<Step, ErrorCode> {
    if stack.len() > 0 && stack.last() is NumberLit {
        let data = stack.last()->NumberLit_0;
        if (b == DOT && !data.contains(DOT)) || is_digit_char(b) {
            Ok(replace_top(stack, Frame::NumberLit(data.push(b))))
        } else if ends_number(b) {
            match text_of(data) {
                Some(text) => Ok(
                    Step { stack: number_ended(stack, b), events: number_events(text, b) },
                ),
                None => Err(ErrorCode::InvalidFormat),
            }
        } else {
            Err(ErrorCode::InvalidNumber)
        }
    } else {
        Ok(quiet(stack))
    }
}

/// The bytes of `null`.
pub open spec fn null_word() -> Seq<u8> {
    seq![LOWER_N, LOWER_U, LOWER_L, LOWER_L]
}

/// The bytes of `true`.
pub open spec fn true_word() -> Seq<u8> {
    seq![LOWER_T, LOWER_R, LOWER_U, LOWER_E]
}

/// The bytes of `false`.
pub open spec fn false_word() -> Seq<u8> {
    seq![LOWER_F, LOWER_A, LOWER_L, LOWER_S, LOWER_E]
}

/// Whether `data` is a beginning of `word`, neither empty nor all of it,
/// and `b` is the byte of `word` that comes next.
pub open spec fn continues(word: Seq<u8>, data: Seq<u8>, b: u8) -> bool {
    &&& 0 < data.len() < word.len()
    &&& data =~= word.take(data.len() as int)
    &&& b == word[data.len() as int]
}

/// What one byte does while a keyword is being matched: `data` is what
/// has been read of `word`, `grown` the frame that holds one byte more,
/// `value` what the keyword stands for and `code` the error of a byte
/// that deviates from it. The last byte of the keyword gives out the value.
pub open spec fn keyword_step(
    stack: Seq<Frame>,
    b: u8,
    word: Seq<u8>,
    data: Seq<u8>,
    grown: Frame,
    value: Scalar,
    code: ErrorCode,
) -> Result<Step, ErrorCode> {
    if !continues(word, data, b) {
        Err(code)
    } else if data.len() + 1 == word.len() {
        Ok(Step { stack: squashed(stack).push(Frame::Terminal), events: seq![Event::Value(value)] })
    } else {
        Ok(replace_top(stack, grown))
    }
}

/// What one byte does while `null` is being matched. With no such frame on
/// top of the stack, nothing happens.
pub open spec fn null_step(stack: Seq<Frame>, b: u8) -> Result<Step, ErrorCode> {
    if stack.len() > 0 && stack.last() is NullLit {
        let data = stack.last()->NullLit_0;
        keyword_step(
            stack,
            b,
            null_word(),
            data,
            Frame::NullLit(data.push(b)),
            Scalar::Null,
            ErrorCode::ExpectedNull,
        )
    } else {
        Ok(quiet(stack))
    }
}

/// What one byte does while `true` is being matched. With no such frame on
/// top of the stack, nothing happens.
pub open spec fn true_step(stack: Seq<Frame>, b: u8) -> Result<Step, ErrorCode> {
    if stack.len() > 0 && stack.last() is TrueLit {
        let data = stack.last()->TrueLit_0;
        keyword_step(
            stack,
            b,
            true_word(),
            data,
            Frame::TrueLit(data.push(b)),
            Scalar::Bool(true),
            ErrorCode::ExpectedTrue,
        )
    } else {
        Ok(quiet(stack))
    }
}

/// What one byte does while `false` is being matched. With no such frame
/// on top of the stack, nothing happens.
pub open spec fn false_step(stack: Seq<Frame>, b: u8) -> Result<Step, ErrorCode> {
    if stack.len() > 0 && stack.last() is FalseLit {
        let data = stack.last()->FalseLit_0;
        keyword_step(
            stack,
            b,
            false_word(),
            data,
            Frame::FalseLit(data.push(b)),
            Scalar::Bool(false),
            ErrorCode::ExpectedFalse,
        )
    } else {
        Ok(quiet(stack))
    }
}

/// Tells whether a quote that follows `data` is escaped.
fn ends_with_backslash(data: &Vec<u8>) -> (r: bool)
    ensures
        r == escapes_next(data@),
{
    let n = data.len();
    n > 0 && data[n - 1] == BACKSLASH
}

/// Tells whether `data` holds a decimal point.
fn has_dot(data: &Vec<u8>) -> (r: bool)
    ensures
        r == data@.contains(DOT),
{
    let mut k: usize = 0;
    while k < data.len()
        invariant
            k <= data@.len(),
            forall|j: int| 0 <= j < k ==> data@[j] != DOT,
        decreases data@.len() - k,
    {
        if data[k] == DOT {
            return true;
        }
        k += 1;
    }
    false
}

/// Tells whether `b` is the next byte of `word` after what `data` holds.
fn continues_word(word: &[u8], data: &Vec<u8>, b: u8) -> (r: bool)
    ensures
        r == continues(word@, data@, b),
{
    let n = data.len();
    if n == 0 || n >= word.len() || b != word[n] {
        return false;
    }
    let mut k: usize = 0;
    while k < n
        invariant
            k <= n,
            n == data@.len(),
            n < word@.len(),
            forall|j: int| 0 <= j < k ==> data@[j] == word@[j],
        decreases n - k,
    {
        if data[k] != word[k] {
            return false;
        }
        k += 1;
    }
    true
}

/// Handles one byte of a string value.
pub fn handle_string(buf: &[u8], i: usize, tokens: &mut Vec<Token>) -> (res: Result<
    Option<JsonToken>,
    Error,
>)
    requires
        i < buf@.len(),
    ensures
        handled(
            string_step(frames_of(old(tokens)@), buf@[i as int]),
            frames_of(old(tokens)@),
            i,
            frames_of(final(tokens)@),
            answer(res),
        ),
{
    let b = buf[i];
    proof {
        if tokens@.len() > 0 {
            lemma_frames_drop_last(tokens@);
        }
    }
    let res = match tokens.last_mut() {
        Some(Token::String(data)) => {
            if b == QUOTE && !ends_with_backslash(data) {
                match decode_text(data) {
                    Some(text) => {
                        assert(tokens@ =~= old(tokens)@);
                        squash(tokens);
                        proof {
                            lemma_frames_push(tokens@, Token::Nil);
                        }
                        tokens.push(Token::Nil);
                        Ok(Some(JsonToken::Val(JsonValue::String(text))))
                    },
                    None => Err(Error { column: i, code: ErrorCode::InvalidFormat }),
                }
            } else {
                data.push(b);
                Ok(None)
            }
        },
        _ => Err(Error { column: i, code: ErrorCode::InvalidFormat }),
    };
    proof {
        if res is Err {
            assert(tokens@ =~= old(tokens)@);
        } else if res == Ok::<Option<JsonToken>, Error>(None) {
            lemma_frames_update_last(old(tokens)@, tokens@.last());
            assert(tokens@ =~= old(tokens)@.update(old(tokens)@.len() - 1, tokens@.last()));
        }
    }
    res
}

/// Handles one byte of a number.
///
/// A closing bracket or brace that ends the number also closes the
/// container, so that one byte yields two tokens.
pub fn handle_number(buf: &[u8], i: usize, tokens: &mut Vec<Token>) -> (res: Result<
    Option<(JsonToken, Option<JsonToken>)>,
    Error,
>)
    requires
        i < buf@.len(),
    ensures
        handled(
            number_step(frames_of(old(tokens)@), buf@[i as int]),
            frames_of(old(tokens)@),
            i,
            frames_of(final(tokens)@),
            answer_of_pair(res),
        ),
{
    let b = buf[i];
    proof {
        if tokens@.len() > 0 {
            lemma_frames_drop_last(tokens@);
        }
    }
    let res = if let Some(Token::Number(data)) = tokens.last_mut() {
        if (b == DOT && !has_dot(data)) || digit_char(b) {
            data.push(b);
            Ok(None)
        } else if b == COMMA || b == ARR_END || b == OBJ_END || empty_char(b) {
            match decode_text(data) {
                Some(text) => {
                    let val = JsonToken::Val(JsonValue::Number(text));
                    assert(tokens@ =~= old(tokens)@);
                    squash(tokens);
                    if b == COMMA {
                        proof {
                            lemma_frames_push(tokens@, Token::Comma);
                        }
                        tokens.push(Token::Comma);
                        Ok(Some((val, None)))
                    } else if b == ARR_END {
                        handle_end_arr(tokens);
                        Ok(Some((val, Some(JsonToken::ArrEnd))))
                    } else if b == OBJ_END {
                        handle_end_obj(tokens);
                        Ok(Some((val, Some(JsonToken::ObjEnd))))
                    } else {
                        proof {
                            lemma_frames_push(tokens@, Token::Nil);
                        }
                        tokens.push(Token::Nil);
                        Ok(Some((val, None)))
                    }
                },
                None => Err(Error { column: i, code: ErrorCode::InvalidFormat }),
            }
        } else {
            Err(Error { column: i, code: ErrorCode::InvalidNumber })
        }
    } else {
        Ok(None)
    };
    proof {
        if res is Err || !(old(tokens)@.len() > 0 && old(tokens)@.last() is Number) {
            assert(tokens@ =~= old(tokens)@);
        } else if res == Ok::<Option<(JsonToken, Option<JsonToken>)>, Error>(None) {
            lemma_frames_update_last(old(tokens)@, tokens@.last());
            assert(tokens@ =~= old(tokens)@.update(old(tokens)@.len() - 1, tokens@.last()));
        }
    }
    res
}

/// Handles one byte of the keyword `null`.
pub fn handle_null(buf: &[u8], i: usize, tokens: &mut Vec<Token>) -> (res: Result<
    Option<JsonToken>,
    Error,
>)
    requires
        i < buf@.len(),
    ensures
        handled(
            null_step(frames_of(old(tokens)@), buf@[i as int]),
            frames_of(old(tokens)@),
            i,
            frames_of(final(tokens)@),
            answer(res),
        ),
{
    let b = buf[i];
    let word: [u8; 4] = [LOWER_N, LOWER_U, LOWER_L, LOWER_L];
    proof {
        assert(word@ =~= null_word());
        if tokens@.len() > 0 {
            lemma_frames_drop_last(tokens@);
        }
    }
    let res = if let Some(Token::Null(data)) = tokens.last_mut() {
        if !continues_word(word.as_slice(), data, b) {
            Err(Error { column: i, code: ErrorCode::ExpectedNull })
        } else if data.len() + 1 == word.len() {
            assert(tokens@ =~= old(tokens)@);
            squash(tokens);
            proof {
                lemma_frames_push(tokens@, Token::Nil);
            }
            tokens.push(Token::Nil);
            Ok(Some(JsonToken::Val(JsonValue::Null)))
        } else {
            data.push(b);
            Ok(None)
        }
    } else {
        Ok(None)
    };
    proof {
        if res is Err || !(old(tokens)@.len() > 0 && old(tokens)@.last() is Null) {
            assert(tokens@ =~= old(tokens)@);
        } else if res == Ok::<Option<JsonToken>, Error>(None) {
            lemma_frames_update_last(old(tokens)@, tokens@.last());
            assert(tokens@ =~= old(tokens)@.update(old(tokens)@.len() - 1, tokens@.last()));
        }
    }
    res
}

/// Handles one byte of the keyword `true`.
pub fn handle_true(buf: &[u8], i: usize, tokens: &mut Vec<Token>) -> (res: Result<
    Option<JsonToken>,
    Error,
>)
    requires
        i < buf@.len(),
    ensures
        handled(
            true_step(frames_of(old(tokens)@), buf@[i as int]),
            frames_of(old(tokens)@),
            i,
            frames_of(final(tokens)@),
            answer(res),
        ),
{
    let b = buf[i];
    let word: [u8; 4] = [LOWER_T, LOWER_R, LOWER_U, LOWER_E];
    proof {
        assert(word@ =~= true_word());
        if tokens@.len() > 0 {
            lemma_frames_drop_last(tokens@);
        }
    }
    let res = if let Some(Token::True(data)) = tokens.last_mut() {
        if !continues_word(word.as_slice(), data, b) {
            Err(Error { column: i, code: ErrorCode::ExpectedTrue })
        } else if data.len() + 1 == word.len() {
            assert(tokens@ =~= old(tokens)@);
            squash(tokens);
            proof {
                lemma_frames_push(tokens@, Token::Nil);
            }
            tokens.push(Token::Nil);
            Ok(Some(JsonToken::Val(JsonValue::Bool(true))))
        } else {
            data.push(b);
            Ok(None)
        }
    } else {
        Ok(None)
    };
    proof {
        if res is Err || !(old(tokens)@.len() > 0 && old(tokens)@.last() is True) {
            assert(tokens@ =~= old(tokens)@);
        } else if res == Ok::<Option<JsonToken>, Error>(None) {
            lemma_frames_update_last(old(tokens)@, tokens@.last());
            assert(tokens@ =~= old(tokens)@.update(old(tokens)@.len() - 1, tokens@.last()));
        }
    }
    res
}

/// Handles one byte of the keyword `false`.
pub fn handle_false(buf: &[u8], i: usize, tokens: &mut Vec<Token>) -> (res: Result<
    Option<JsonToken>,
    Error,
>)
    requires
        i < buf@.len(),
    ensures
        handled(
            false_step(frames_of(old(tokens)@), buf@[i as int]),
            frames_of(old(tokens)@),
            i,
            frames_of(final(tokens)@),
            answer(res),
        ),
{
    let b = buf[i];
    let word: [u8; 5] = [LOWER_F, LOWER_A, LOWER_L, LOWER_S, LOWER_E];
    proof {
        assert(word@ =~= false_word());
        if tokens@.len() > 0 {
            lemma_frames_drop_last(tokens@);
        }
    }
    let res = if let Some(Token::False(data)) = tokens.last_mut() {
        if !continues_word(word.as_slice(), data, b) {
            Err(Error { column: i, code: ErrorCode::ExpectedFalse })
        } else if data.len() + 1 == word.len() {
            assert(tokens@ =~= old(tokens)@);
            squash(tokens);
            proof {
                lemma_frames_push(tokens@, Token::Nil);
            }
            tokens.push(Token::Nil);
            Ok(Some(JsonToken::Val(JsonValue::Bool(false))))
        } else {
            data.push(b);
            Ok(None)
        }
    } else {
        Ok(None)
    };
    proof {
        if res is Err || !(old(tokens)@.len() > 0 && old(tokens)@.last() is False) {
            assert(tokens@ =~= old(tokens)@);
        } else if res == Ok::<Option<JsonToken>, Error>(None) {
            lemma_frames_update_last(old(tokens)@, tokens@.last());
            assert(tokens@ =~= old(tokens)@.update(old(tokens)@.len() - 1, tokens@.last()));
        }
    }
    res
}

} // verus!
