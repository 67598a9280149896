//! Handlers for the inside of an object: where a key is expected, while a
//! key is scanned, and between the key and its colon.
use vstd::prelude::*;
use crate::constants::{BACKSLASH, COLON, OBJ_END, QUOTE, empty_char, is_empty_char};
use crate::error::{Error, ErrorCode};
use crate::json_token::{Event, JsonToken};
use crate::step::{Step, answer, handled, push_quiet, quiet, replace_top};
use crate::text::{decode_text, text_of};
use crate::token::{
    Frame, Token, frames_of, lemma_frames_drop_last, lemma_frames_push,
    lemma_frames_update_last,
};
use crate::utils::{handle_end_obj, object_closed};
use crate::val::escapes_next;

verus! {

/// The number of bytes that a key may hold when its next byte arrives.
pub const KEY_MAX_LEN: usize = 100;

/// What one byte does right after `{` or where a key is expected: a quote
/// begins a key, `}` closes the object, whitespace is skipped.
pub open spec fn object_step(stack: Seq<Frame>, b: u8) -> Result<Step, ErrorCode> {
    if b == QUOTE {
        Ok(push_quiet(stack, Frame::Key(seq![])))
    } else if is_empty_char(b) {
        Ok(quiet(stack))
    } else if b == OBJ_END {
        Ok(Step { stack: object_closed(stack), events: seq![Event::ObjectEnd] })
    } else {
        Err(ErrorCode::ExpectedKey)
    }
}

/// Whether the byte of `data` at `j` is a backslash that escapes a quote:
/// the byte after it is a quote.
pub open spec fn escapes_quote(data: Seq<u8>, j: int) -> bool {
    0 <= j && j + 1 < data.len() && data[j] == BACKSLASH && data[j + 1] == QUOTE
}

/// The first `n` bytes of `data`, in order, but for the backslashes that
/// escape a quote.
pub open spec fn unescaped_to(data: Seq<u8>, n: int) -> Seq<u8>
    decreases n,
{
    if n <= 0 {
        seq![]
    } else if escapes_quote(data, n - 1) {
        unescaped_to(data, n - 1)
    } else {
        unescaped_to(data, n - 1).push(data[n - 1])
    }
}

/// The bytes of a key as they are given out: the bytes gathered between
/// its quotes, but for the backslashes that escape a quote. The quote
/// that such a backslash escapes stays.
pub open spec fn unescaped(data: Seq<u8>) -> Seq<u8> {
    unescaped_to(data, data.len() as int)
}

/// What one byte does while a key is being scanned.
///
/// A key that already holds more than `KEY_MAX_LEN` bytes is too long,
/// whatever the byte. Otherwise a quote after a backslash is appended; any
/// other quote ends the key, which is given out as text, without the
/// backslashes that escape a quote, while the key stays on the stack
/// under an `AfterKey` frame; every other byte is appended. A key that is
/// no text, or a stack whose top is no key, is an `InvalidFormat`.
pub open spec fn key_step(stack: Seq<Frame>, b: u8) -> Result<Step, ErrorCode> {
    if stack.len() > 0 && stack.last() is Key {
        let data = stack.last()->Key_0;
        if data.len() > KEY_MAX_LEN {
            Err(ErrorCode::TooLongKey)
        } else if b == QUOTE && !escapes_next(data) {
            match text_of(unescaped(data)) {
                Some(text) => Ok(
                    Step { stack: stack.push(Frame::AfterKey), events: seq![Event::Key(text)] },
                ),
                None => Err(ErrorCode::InvalidFormat),
            }
        } else {
            Ok(replace_top(stack, Frame::Key(data.push(b))))
        }
    } else {
        Err(ErrorCode::InvalidFormat)
    }
}

/// What one byte does between a key and its colon: the colon takes the
/// place of the `AfterKey` frame, whitespace is skipped. A stack whose top
/// is no `AfterKey` frame is an `InvalidFormat`.
pub open spec fn after_key_step(stack: Seq<Frame>, b: u8) -> Result<Step, ErrorCode> {
    if stack.len() > 0 && stack.last() is AfterKey {
        if b == COLON {
            Ok(replace_top(stack, Frame::Colon))
        } else if is_empty_char(b) {
            Ok(quiet(stack))
        } else {
            Err(ErrorCode::ExpectedColon)
        }
    } else {
        Err(ErrorCode::InvalidFormat)
    }
}

/// Copies `data` without the backslashes that escape a quote.
pub fn unescape(data: &Vec<u8>) -> (out: Vec<u8>)
    ensures
        out@ == unescaped(data@),
{
    let n = data.len();
    let mut out: Vec<u8> = Vec::new();
    let mut k: usize = 0;
    while k < n
        invariant
            k <= n,
            n == data@.len(),
            out@ == unescaped_to(data@, k as int),
        decreases n - k,
    {
        if !(data[k] == BACKSLASH && k + 1 < n && data[k + 1] == QUOTE) {
            out.push(data[k]);
        }
        k += 1;
    }
    out
}

/// Handles one byte of an object key.
pub fn handle_key(buf: &[u8], i: usize, tokens: &mut Vec<Token>) -> (res: Result<
    Option<JsonToken>,
    Error,
>)
    requires
        i < buf@.len(),
    ensures
        handled(
            key_step(frames_of(old(tokens)@), buf@[i as int]),
            frames_of(old(tokens)@),
            i,
            frames_of(final(tokens)@),
            answer(res),
        ),
{
    let b = buf[i];
    proof {
        if tokens@.len() > 0 {
            lemma_frames_drop_last(tokens@);
        }
    }
    let res = match tokens.last_mut() {
        Some(Token::Key(data)) => {
            let n = data.len();
            if n > KEY_MAX_LEN {
                Err(Error { column: i, code: ErrorCode::TooLongKey })
            } else if b == QUOTE && !(n > 0 && data[n - 1] == BACKSLASH) {
                let text = unescape(data);
                match decode_text(&text) {
                    Some(key) => {
                        let val = JsonToken::Key(key);
                        assert(tokens@ =~= old(tokens)@);
                        proof {
                            lemma_frames_push(tokens@, Token::AfterKey);
                        }
                        tokens.push(Token::AfterKey);
                        Ok(Some(val))
                    },
                    None => Err(Error { column: i, code: ErrorCode::InvalidFormat }),
                }
            } else {
                data.push(b);
                Ok(None)
            }
        },
        _ => Err(Error { column: i, code: ErrorCode::InvalidFormat }),
    };
    proof {
        if res is Err {
            assert(tokens@ =~= old(tokens)@);
        } else if res == Ok::<Option<JsonToken>, Error>(None) {
            lemma_frames_update_last(old(tokens)@, tokens@.last());
            assert(tokens@ =~= old(tokens)@.update(old(tokens)@.len() - 1, tokens@.last()));
        }
    }
    res
}

/// Handles one byte where an object expects a key.
pub fn handle_obj(buf: &[u8], i: usize, tokens: &mut Vec<Token>) -> (res: Result<
    Option<JsonToken>,
    Error,
>)
    requires
        i < buf@.len(),
    ensures
        handled(
            object_step(frames_of(old(tokens)@), buf@[i as int]),
            frames_of(old(tokens)@),
            i,
            frames_of(final(tokens)@),
            answer(res),
        ),
{
    let b = buf[i];
    if b == QUOTE {
        let data: Vec<u8> = Vec::new();
        proof {
            lemma_frames_push(tokens@, Token::Key(data));
        }
        tokens.push(Token::Key(data));
        Ok(None)
    } else if empty_char(b) {
        Ok(None)
    } else if b == OBJ_END {
        handle_end_obj(tokens);
        Ok(Some(JsonToken::ObjEnd))
    } else {
        Err(Error { column: i, code: ErrorCode::ExpectedKey })
    }
}

/// Handles one byte between a key and its colon.
pub fn handle_after_key(buf: &[u8], i: usize, tokens: &mut Vec<Token>) -> (res: Result<
    Option<JsonToken>,
    Error,
>)
    requires
        i < buf@.len(),
    ensures
        handled(
            after_key_step(frames_of(old(tokens)@), buf@[i as int]),
            frames_of(old(tokens)@),
            i,
            frames_of(final(tokens)@),
            answer(res),
        ),
{
    let b = buf[i];
    let n = tokens.len();
    proof {
        if n > 0 {
            lemma_frames_drop_last(tokens@);
        }
    }
    let after_key = n > 0 && match &tokens[n - 1] {
        Token::AfterKey => true,
        _ => false,
    };
    if !after_key {
        Err(Error { column: i, code: ErrorCode::InvalidFormat })
    } else if b == COLON {
        tokens.pop();
        proof {
            lemma_frames_push(tokens@, Token::Colon);
        }
        tokens.push(Token::Colon);
        Ok(None)
    } else if empty_char(b) {
        Ok(None)
    } else {
        Err(Error { column: i, code: ErrorCode::ExpectedColon })
    }
}

} // verus!
