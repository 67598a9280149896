//! The reader: a parse stack that outlives the chunks, and the loop that
//! feeds a chunk to the handlers byte by byte.
use vstd::prelude::*;
use crate::arr::{array_step, handle_arr};
use crate::error::{Error, ErrorCode};
use crate::json_token::{Event, JsonToken, events_of};
use crate::obj::{
    after_key_step, handle_after_key, handle_key, handle_obj, key_step, object_step,
};
use crate::other::{
    colon_step, comma_step, handle_colon, handle_comma, handle_nil_token, handle_none,
    start_step, terminal_step,
};
use crate::step::Step;
use crate::token::{Frame, Token, frames_of, lemma_frames_drop_last};

use crate::val::{
    false_step, handle_false, handle_null, handle_number, handle_string, handle_true, null_step,
    number_step, string_step, true_step,
};

verus! {

/// What the byte `b` does to `stack`. The top frame alone decides which
/// handler takes the byte; an empty stack means that the document has not
/// begun.
pub open spec fn step(stack: Seq<Frame>, b: u8) -> Result<Step, ErrorCode> {
    if stack.len() == 0 {
        start_step(stack, b)
    } else {
        match stack.last() {
            Frame::ObjectOpen => object_step(stack, b),
            Frame::ArrayOpen => array_step(stack, b),
            Frame::Key(_) => key_step(stack, b),
            Frame::AfterKey => after_key_step(stack, b),
            Frame::Colon => colon_step(stack, b),
            Frame::NullLit(_) => null_step(stack, b),
            Frame::TrueLit(_) => true_step(stack, b),
            Frame::FalseLit(_) => false_step(stack, b),
            Frame::NumberLit(_) => number_step(stack, b),
            Frame::StringLit(_) => string_step(stack, b),
            Frame::Comma => comma_step(stack, b),
            Frame::Terminal => terminal_step(stack, b),
        }
    }
}

/// Where and why a run stopped.
pub struct Failure {
    pub code: ErrorCode,
    /// The offset of the offending byte within the input of the run.
    pub column: nat,
}

/// How far a run over some input has come: the stack it has reached, the
/// events given out up to there, and the failure that stopped it, if one
/// did.
pub struct Progress {
    pub stack: Seq<Frame>,
    pub events: Seq<Event>,
    pub failure: Option<Failure>,
}

/// The run over `input` that starts from `stack`: the bytes are taken from
/// left to right, each by [`step`], until the input ends or a byte fails.
/// The byte that fails leaves the stack as it found it, and no byte after
/// it is looked at.
pub open spec fn run(stack: Seq<Frame>, input: Seq<u8>) -> Progress
    decreases input.len(),
{
    if input.len() == 0 {
        Progress { stack, events: seq![], failure: None }
    } else {
        let before = run(stack, input.drop_last());
        if before.failure is Some {
            before
        } else {
            match step(before.stack, input.last()) {
                Ok(s) => Progress {
                    stack: s.stack,
                    events: before.events + s.events,
                    failure: None,
                },
                Err(code) => Progress {
                    stack: before.stack,
                    events: before.events,
                    failure: Some(Failure { code, column: (input.len() - 1) as nat }),
                },
            }
        }
    }
}

/// Whether `tokens` stand for `events`, one for one and in order.
///
/// The first line says it all; that there are as many tokens as events,
/// and that each token stands for the event at its place, is said once
/// more, so that a caller has it without a proof.
pub open spec fn tokens_give(tokens: Seq<JsonToken>, events: Seq<Event>) -> bool {
    &&& events_of(tokens) == events
    &&& tokens.len() == events.len()
    &&& forall|j: int| 0 <= j < tokens.len() ==> (#[trigger] tokens[j])@ == events[j]
}

/// Adding a token adds its event.
pub proof fn lemma_events_push(tokens: Seq<JsonToken>, token: JsonToken)
    ensures
        events_of(tokens.push(token)) == events_of(tokens) + seq![token@],
{
    assert(events_of(tokens.push(token)) =~= events_of(tokens) + seq![token@]);
}

/// An incremental reader of JSON. It owns the parse stack, which is all
/// that is carried from one chunk to the next.
#[derive(Debug)]
pub struct JsonStreamReader {
    // internal state needed for buffering
    state: Vec<Token>,
}

impl View for JsonStreamReader {
    type V = Seq<Frame>;

    /// The parse stack, bottom first.
    closed spec fn view(&self) -> Seq<Frame> {
        frames_of(self.state@)
    }
}

impl JsonStreamReader {
    /// A reader that has consumed nothing.
    pub fn new() -> (reader: Self)
        ensures
            reader@ == Seq::<Frame>::empty(),
    {
        let reader = JsonStreamReader { state: Vec::new() };
        assert(reader@ =~= Seq::<Frame>::empty());
        reader
    }

    /// Clears the internal state of the reader, abandoning whatever was in
    /// progress.
    pub fn clear(&mut self) -> (reader: &Self)
        ensures
            final(self)@ == Seq::<Frame>::empty(),
            reader@ == Seq::<Frame>::empty(),
    {
        self.state.clear();
        assert(self@ =~= Seq::<Frame>::empty());
        self
    }

    /// Reads the chunk `buf` from its first byte to its last, or to the
    /// first byte that fails, and returns the tokens that the chunk gave.
    ///
    /// The next call resumes where this one left off. After an error the
    /// stack is as the offending byte found it, and the tokens given by
    /// the bytes before it are dropped.
    pub fn read(&mut self, buf: &[u8]) -> (res: Result<Vec<JsonToken>, Error>)
        ensures
            final(self)@ == run(old(self)@, buf@).stack,
            match run(old(self)@, buf@).failure {
                None => res matches Ok(tokens) && tokens_give(tokens@, run(old(self)@, buf@).events),
                Some(failure) => res matches Err(e) && e.code == failure.code && e.column
                    == failure.column,
            },
    {
        let mut json_tokens: Vec<JsonToken> = Vec::new();
        let size = buf.len();
        let mut i: usize = 0;
        let ghost start = self@;
        assert(buf@.take(0) =~= Seq::<u8>::empty());
        assert(events_of(json_tokens@) =~= Seq::<Event>::empty());
        while i < size
            invariant
                size == buf@.len(),
                i <= size,
                start == old(self)@,
                run(start, buf@.take(i as int)) == (Progress {
                    stack: self@,
                    events: events_of(json_tokens@),
                    failure: None,
                }),
            decreases size - i,
        {
            let ghost before = self@;
            let ghost given = events_of(json_tokens@);
            proof {
                assert(buf@.take(i + 1).drop_last() =~= buf@.take(i as int));
                assert(buf@.take(i + 1).last() == buf@[i as int]);
                if self.state@.len() > 0 {
                    lemma_frames_drop_last(self.state@);
                }
            }
            let tokens = &mut self.state;
            let res = match tokens.last() {
                None => handle_none(buf, i, tokens),
                Some(Token::Obj) => handle_obj(buf, i, tokens),
                Some(Token::Key(_)) => handle_key(buf, i, tokens),
                Some(Token::AfterKey) => handle_after_key(buf, i, tokens),
                Some(Token::Colon) => handle_colon(buf, i, tokens),
                Some(Token::String(_)) => handle_string(buf, i, tokens),
                Some(Token::Number(_)) => match handle_number(buf, i, tokens) {
                    Ok(Some((number_token, None))) => Ok(Some(number_token)),
                    Ok(Some((number_token, Some(extra_token)))) => {
                        proof {
                            lemma_events_push(json_tokens@, number_token);
                        }
                        json_tokens.push(number_token);
                        Ok(Some(extra_token))
                    },
                    Ok(None) => Ok(None),
                    Err(err) => Err(err),
                },
                Some(Token::Null(_)) => handle_null(buf, i, tokens),
                Some(Token::True(_)) => handle_true(buf, i, tokens),
                Some(Token::False(_)) => handle_false(buf, i, tokens),
                Some(Token::Arr) => handle_arr(buf, i, tokens),
                Some(Token::Comma) => handle_comma(buf, i, tokens),
                Some(Token::Nil) => handle_nil_token(buf, i, tokens),
            };
            match res {
                Ok(Some(new_token)) => {
                    proof {
                        lemma_events_push(json_tokens@, new_token);
                    }
                    json_tokens.push(new_token);
                },
                Ok(None) => {},
                Err(err) => {
                    proof {
                        lemma_run_stops(start, buf@, i + 1);
                    }
                    return Err(err);
                },
            }
            proof {
                let want = step(before, buf@[i as int]);
                assert(want is Ok);
                assert(self@ == want->Ok_0.stack);
                assert(events_of(json_tokens@) =~= given + want->Ok_0.events);
            }
            i += 1;
        }
        assert(buf@.take(size as int) =~= buf@);
        Ok(json_tokens)
    }
}

/// A run that has failed within the first `n` bytes is the run over the
/// whole input: nothing after the failure is looked at.
pub proof fn lemma_run_stops(stack: Seq<Frame>, input: Seq<u8>, n: int)
    requires
        0 <= n <= input.len(),
        run(stack, input.take(n)).failure is Some,
    ensures
        run(stack, input) == run(stack, input.take(n)),
    decreases input.len() - n,
{
    if n == input.len() {
        assert(input.take(n) =~= input);
    } else {
        assert(input.take(n + 1).drop_last() =~= input.take(n));
        lemma_run_stops(stack, input, n + 1);
    }
}

} // verus!
