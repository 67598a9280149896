//! What a run does with the pieces that documents are made of: a stretch
//! of whitespace, the body of a key or a string, the digits of a number,
//! the letters of a keyword.
use vstd::prelude::*;
use vstd::utf8::decode_utf8;
use crate::chunks::lemma_run_split;
use crate::constants::{
    BACKSLASH, DOT, LOWER_A, LOWER_E, LOWER_F, LOWER_L, LOWER_N, LOWER_R, LOWER_S, LOWER_T,
    LOWER_U, QUOTE, is_empty_char,
};
use crate::document::{blank, number_literal, quotes_escaped};
use crate::error::ErrorCode;
use crate::json_stream_reader::{Failure, Progress, lemma_run_stops, run, step};
use crate::json_token::Event;
use crate::json_value::Scalar;
use crate::obj::{KEY_MAX_LEN, unescaped};
use crate::orderly::{lemma_orderly_push, orderly};
use crate::text::text_of;
use crate::token::Frame;
use crate::utils::squashed;
use crate::val::{false_word, null_word, true_word};

verus! {

/// A run that has reached `stack` and given out `events` without failing.
pub open spec fn reached(stack: Seq<Frame>, events: Seq<Event>) -> Progress {
    Progress { stack, events, failure: None }
}

/// A run that has reached `stack` and given out nothing.
pub open spec fn idle(stack: Seq<Frame>) -> Progress {
    reached(stack, seq![])
}

/// The run over one more byte is the run so far and then the step of
/// that byte.
pub proof fn lemma_run_push(stack: Seq<Frame>, input: Seq<u8>, b: u8)
    ensures
        run(stack, input.push(b)) == {
            let before = run(stack, input);
            if before.failure is Some {
                before
            } else {
                match step(before.stack, b) {
                    Ok(s) => reached(s.stack, before.events + s.events),
                    Err(code) => Progress {
                        stack: before.stack,
                        events: before.events,
                        failure: Some(Failure { code, column: input.len() }),
                    },
                }
            }
        },
{
    assert(input.push(b).drop_last() =~= input);
}

/// The run over a single byte is the step of that byte.
pub proof fn lemma_run_one(stack: Seq<Frame>, b: u8)
    ensures
        run(stack, seq![b]) == match step(stack, b) {
            Ok(s) => reached(s.stack, s.events),
            Err(code) => Progress {
                stack,
                events: seq![],
                failure: Some(Failure { code, column: 0 }),
            },
        },
{
    lemma_run_push(stack, seq![], b);
    assert(Seq::<u8>::empty().push(b) =~= seq![b]);
    match step(stack, b) {
        Ok(s) => {
            assert(Seq::<Event>::empty() + s.events =~= s.events);
        },
        Err(_) => {},
    }
}

/// Two runs that do not fail, the second from where the first ended, make
/// one run over both inputs.
pub proof fn lemma_run_both(
    stack: Seq<Frame>,
    first: Seq<u8>,
    mid: Seq<Frame>,
    given: Seq<Event>,
    second: Seq<u8>,
)
    requires
        run(stack, first) == reached(mid, given),
        run(mid, second).failure is None,
    ensures
        run(stack, first + second) == reached(
            run(mid, second).stack,
            given + run(mid, second).events,
        ),
{
    lemma_run_split(stack, first, second);
}

/// Whether whitespace is skipped when `frame` is on top of the stack.
pub open spec fn skips_blank(frame: Frame) -> bool {
    frame is ObjectOpen || frame is ArrayOpen || frame is AfterKey || frame is Colon
        || frame is Comma || frame is Terminal
}

/// Whitespace between tokens changes nothing.
pub proof fn lemma_skip_blank(stack: Seq<Frame>, ws: Seq<u8>)
    requires
        stack.len() > 0,
        skips_blank(stack.last()),
        blank(ws),
    ensures
        run(stack, ws) == idle(stack),
        orderly(stack, ws),
    decreases ws.len(),
{
    if ws.len() > 0 {
        lemma_skip_blank(stack, ws.drop_last());
        assert(is_empty_char(ws.last()));
        assert(Seq::<Event>::empty() + Seq::<Event>::empty() =~= Seq::<Event>::empty());
    }
}

/// The bytes of a string are gathered in its frame, one by one, as long
/// as every quote among them follows a backslash.
pub proof fn lemma_scan_string(below: Seq<Frame>, body: Seq<u8>, n: int)
    requires
        0 <= n <= body.len(),
        quotes_escaped(body, n),
    ensures
        run(below.push(Frame::StringLit(seq![])), body.take(n)) == idle(
            below.push(Frame::StringLit(body.take(n))),
        ),
        orderly(below.push(Frame::StringLit(seq![])), body.take(n)),
    decreases n,
{
    let start = below.push(Frame::StringLit(seq![]));
    if n == 0 {
        assert(body.take(0) =~= Seq::<u8>::empty());
    } else {
        lemma_scan_string(below, body, n - 1);
        let sofar = body.take(n - 1);
        let mid = below.push(Frame::StringLit(sofar));
        assert(body.take(n) =~= sofar.push(body[n - 1]));
        lemma_run_push(start, sofar, body[n - 1]);
        lemma_orderly_push(start, sofar, body[n - 1]);
        assert(mid.drop_last() =~= below);
        if body[n - 1] == QUOTE {
            assert(sofar.last() == body[n - 2]);
        }
        assert(Seq::<Event>::empty() + Seq::<Event>::empty() =~= Seq::<Event>::empty());
    }
}

/// The bytes of a key are gathered in its frame, one by one, as long as
/// every quote among them follows a backslash and the key has not grown
/// beyond its limit by more than one byte.
pub proof fn lemma_scan_key(below: Seq<Frame>, key: Seq<u8>, n: int)
    requires
        0 <= n <= key.len(),
        n <= KEY_MAX_LEN + 1,
        quotes_escaped(key, n),
    ensures
        run(below.push(Frame::Key(seq![])), key.take(n)) == idle(
            below.push(Frame::Key(key.take(n))),
        ),
        orderly(below.push(Frame::Key(seq![])), key.take(n)),
    decreases n,
{
    let start = below.push(Frame::Key(seq![]));
    if n == 0 {
        assert(key.take(0) =~= Seq::<u8>::empty());
    } else {
        lemma_scan_key(below, key, n - 1);
        let sofar = key.take(n - 1);
        let mid = below.push(Frame::Key(sofar));
        assert(key.take(n) =~= sofar.push(key[n - 1]));
        lemma_run_push(start, sofar, key[n - 1]);
        lemma_orderly_push(start, sofar, key[n - 1]);
        assert(mid.drop_last() =~= below);
        if key[n - 1] == QUOTE {
            assert(sofar.last() == key[n - 2]);
        }
        assert(Seq::<Event>::empty() + Seq::<Event>::empty() =~= Seq::<Event>::empty());
    }
}

/// The bytes of a number after the first are gathered in its frame.
pub proof fn lemma_scan_number(below: Seq<Frame>, digits: Seq<u8>, n: int)
    requires
        number_literal(digits),
        1 <= n <= digits.len(),
    ensures
        run(below.push(Frame::NumberLit(digits.take(1))), digits.subrange(1, n)) == idle(
            below.push(Frame::NumberLit(digits.take(n))),
        ),
        orderly(below.push(Frame::NumberLit(digits.take(1))), digits.subrange(1, n)),
    decreases n,
{
    let start = below.push(Frame::NumberLit(digits.take(1)));
    if n == 1 {
        assert(digits.subrange(1, 1) =~= Seq::<u8>::empty());
    } else {
        lemma_scan_number(below, digits, n - 1);
        let sofar = digits.take(n - 1);
        let mid = below.push(Frame::NumberLit(sofar));
        let b = digits[n - 1];
        assert(digits.subrange(1, n) =~= digits.subrange(1, n - 1).push(b));
        assert(digits.take(n) =~= sofar.push(b));
        lemma_run_push(start, digits.subrange(1, n - 1), b);
        lemma_orderly_push(start, digits.subrange(1, n - 1), b);
        assert(mid.drop_last() =~= below);
        if b == DOT {
            if sofar.contains(DOT) {
                let i = choose|i: int| 0 <= i < sofar.len() && sofar[i] == DOT;
                assert(digits[i] == DOT && digits[n - 1] == DOT);
            }
        }
        assert(Seq::<Event>::empty() + Seq::<Event>::empty() =~= Seq::<Event>::empty());
    }
}

/// The letters of `null` after the first complete the keyword.
pub proof fn lemma_scan_null(below: Seq<Frame>)
    ensures
        run(below.push(Frame::NullLit(seq![LOWER_N])), null_word().skip(1)) == reached(
            squashed(below.push(Frame::NullLit(null_word().take(3)))).push(Frame::Terminal),
            seq![Event::Value(Scalar::Null)],
        ),
        orderly(below.push(Frame::NullLit(seq![LOWER_N])), null_word().skip(1)),
{
    let word = null_word();
    let none = Seq::<Event>::empty();
    let s1 = below.push(Frame::NullLit(word.take(1)));
    let s2 = below.push(Frame::NullLit(word.take(2)));
    let s3 = below.push(Frame::NullLit(word.take(3)));
    assert(word.take(1) =~= seq![LOWER_N]);
    assert(word.take(2) =~= word.take(1).push(LOWER_U));
    assert(word.take(3) =~= word.take(2).push(LOWER_L));
    assert(s1.drop_last() =~= below && s2.drop_last() =~= below && s3.drop_last() =~= below);
    assert(none + none =~= none);
    lemma_run_push(s1, seq![], LOWER_U);
    lemma_orderly_push(s1, seq![], LOWER_U);
    lemma_run_push(s1, seq![LOWER_U], LOWER_L);
    lemma_orderly_push(s1, seq![LOWER_U], LOWER_L);
    lemma_run_push(s1, seq![LOWER_U, LOWER_L], LOWER_L);
    lemma_orderly_push(s1, seq![LOWER_U, LOWER_L], LOWER_L);
    assert(Seq::<u8>::empty().push(LOWER_U) =~= seq![LOWER_U]);
    assert(seq![LOWER_U].push(LOWER_L) =~= seq![LOWER_U, LOWER_L]);
    assert(seq![LOWER_U, LOWER_L].push(LOWER_L) =~= word.skip(1));
    assert(run(s1, seq![LOWER_U]) == idle(s2));
    assert(run(s1, seq![LOWER_U, LOWER_L]) == idle(s3));
    assert(none + seq![Event::Value(Scalar::Null)] =~= seq![Event::Value(Scalar::Null)]);
}

/// The letters of `true` after the first complete the keyword.
pub proof fn lemma_scan_true(below: Seq<Frame>)
    ensures
        run(below.push(Frame::TrueLit(seq![LOWER_T])), true_word().skip(1)) == reached(
            squashed(below.push(Frame::TrueLit(true_word().take(3)))).push(Frame::Terminal),
            seq![Event::Value(Scalar::Bool(true))],
        ),
        orderly(below.push(Frame::TrueLit(seq![LOWER_T])), true_word().skip(1)),
{
    let word = true_word();
    let none = Seq::<Event>::empty();
    let s1 = below.push(Frame::TrueLit(word.take(1)));
    let s2 = below.push(Frame::TrueLit(word.take(2)));
    let s3 = below.push(Frame::TrueLit(word.take(3)));
    assert(word.take(1) =~= seq![LOWER_T]);
    assert(word.take(2) =~= word.take(1).push(LOWER_R));
    assert(word.take(3) =~= word.take(2).push(LOWER_U));
    assert(s1.drop_last() =~= below && s2.drop_last() =~= below && s3.drop_last() =~= below);
    assert(none + none =~= none);
    lemma_run_push(s1, seq![], LOWER_R);
    lemma_orderly_push(s1, seq![], LOWER_R);
    lemma_run_push(s1, seq![LOWER_R], LOWER_U);
    lemma_orderly_push(s1, seq![LOWER_R], LOWER_U);
    lemma_run_push(s1, seq![LOWER_R, LOWER_U], LOWER_E);
    lemma_orderly_push(s1, seq![LOWER_R, LOWER_U], LOWER_E);
    assert(Seq::<u8>::empty().push(LOWER_R) =~= seq![LOWER_R]);
    assert(seq![LOWER_R].push(LOWER_U) =~= seq![LOWER_R, LOWER_U]);
    assert(seq![LOWER_R, LOWER_U].push(LOWER_E) =~= word.skip(1));
    assert(run(s1, seq![LOWER_R]) == idle(s2));
    assert(run(s1, seq![LOWER_R, LOWER_U]) == idle(s3));
    assert(none + seq![Event::Value(Scalar::Bool(true))] =~= seq![
        Event::Value(Scalar::Bool(true)),
    ]);
}

/// The letters of `false` after the first complete the keyword.
pub proof fn lemma_scan_false(below: Seq<Frame>)
    ensures
        run(below.push(Frame::FalseLit(seq![LOWER_F])), false_word().skip(1)) == reached(
            squashed(below.push(Frame::FalseLit(false_word().take(4)))).push(Frame::Terminal),
            seq![Event::Value(Scalar::Bool(false))],
        ),
        orderly(below.push(Frame::FalseLit(seq![LOWER_F])), false_word().skip(1)),
{
    let word = false_word();
    let none = Seq::<Event>::empty();
    let s1 = below.push(Frame::FalseLit(word.take(1)));
    let s2 = below.push(Frame::FalseLit(word.take(2)));
    let s3 = below.push(Frame::FalseLit(word.take(3)));
    let s4 = below.push(Frame::FalseLit(word.take(4)));
    assert(word.take(1) =~= seq![LOWER_F]);
    assert(word.take(2) =~= word.take(1).push(LOWER_A));
    assert(word.take(3) =~= word.take(2).push(LOWER_L));
    assert(word.take(4) =~= word.take(3).push(LOWER_S));
    assert(s1.drop_last() =~= below && s2.drop_last() =~= below && s3.drop_last() =~= below
        && s4.drop_last() =~= below);
    assert(none + none =~= none);
    lemma_run_push(s1, seq![], LOWER_A);
    lemma_orderly_push(s1, seq![], LOWER_A);
    lemma_run_push(s1, seq![LOWER_A], LOWER_L);
    lemma_orderly_push(s1, seq![LOWER_A], LOWER_L);
    lemma_run_push(s1, seq![LOWER_A, LOWER_L], LOWER_S);
    lemma_orderly_push(s1, seq![LOWER_A, LOWER_L], LOWER_S);
    lemma_run_push(s1, seq![LOWER_A, LOWER_L, LOWER_S], LOWER_E);
    lemma_orderly_push(s1, seq![LOWER_A, LOWER_L, LOWER_S], LOWER_E);
    assert(Seq::<u8>::empty().push(LOWER_A) =~= seq![LOWER_A]);
    assert(seq![LOWER_A].push(LOWER_L) =~= seq![LOWER_A, LOWER_L]);
    assert(seq![LOWER_A, LOWER_L].push(LOWER_S) =~= seq![LOWER_A, LOWER_L, LOWER_S]);
    assert(seq![LOWER_A, LOWER_L, LOWER_S].push(LOWER_E) =~= word.skip(1));
    assert(run(s1, seq![LOWER_A]) == idle(s2));
    assert(run(s1, seq![LOWER_A, LOWER_L]) == idle(s3));
    assert(run(s1, seq![LOWER_A, LOWER_L, LOWER_S]) == idle(s4));
    assert(none + seq![Event::Value(Scalar::Bool(false))] =~= seq![
        Event::Value(Scalar::Bool(false)),
    ]);
}

/// The limit on the length of keys. A key of up to `KEY_MAX_LEN` bytes
/// is given out when its closing quote comes, without the backslashes
/// that escape a quote, if it is text. A longer key
/// fails with `TooLongKey` at the byte that follows its first
/// `KEY_MAX_LEN + 1` bytes, be that byte a part of the key or the closing
/// quote: the byte that takes the key over the limit is still appended.
pub proof fn lemma_key_limit(below: Seq<Frame>, key: Seq<u8>)
    requires
        quotes_escaped(key, key.len() as int),
        !(key.len() > 0 && key.last() == BACKSLASH),
    ensures
        run(below.push(Frame::Key(seq![])), key.push(QUOTE)) == if key.len() > KEY_MAX_LEN {
            Progress {
                stack: below.push(Frame::Key(key.take(KEY_MAX_LEN + 1))),
                events: seq![],
                failure: Some(
                    Failure { code: ErrorCode::TooLongKey, column: (KEY_MAX_LEN + 1) as nat },
                ),
            }
        } else {
            match text_of(unescaped(key)) {
                Some(text) => reached(
                    below.push(Frame::Key(key)).push(Frame::AfterKey),
                    seq![Event::Key(text)],
                ),
                None => Progress {
                    stack: below.push(Frame::Key(key)),
                    events: seq![],
                    failure: Some(Failure { code: ErrorCode::InvalidFormat, column: key.len() }),
                },
            }
        },
{
    let start = below.push(Frame::Key(seq![]));
    let input = key.push(QUOTE);
    let none = Seq::<Event>::empty();
    if key.len() > KEY_MAX_LEN {
        let n = KEY_MAX_LEN + 1;
        let sofar = key.take(n);
        lemma_scan_key(below, key, n);
        lemma_run_push(start, sofar, input[n]);
        assert(input.take(n + 1) =~= sofar.push(input[n]));
        lemma_run_stops(start, input, n + 1);
    } else {
        assert(key.take(key.len() as int) =~= key);
        lemma_scan_key(below, key, key.len() as int);
        lemma_run_push(start, key, QUOTE);
        assert(none + seq![Event::Key(decode_utf8(unescaped(key)))] =~= seq![
            Event::Key(decode_utf8(unescaped(key))),
        ]);
    }
}

} // verus!
