//! Chunk boundaries are invisible: feeding an input piece by piece gives
//! what feeding it whole gives.
use vstd::prelude::*;
use crate::json_stream_reader::{Failure, Progress, run, step};
use crate::json_token::Event;
use crate::token::Frame;

verus! {

/// `first` continued by `second`, a run that started from the stack that
/// `first` reached, over input that begins at `offset`. If `first`
/// failed, nothing follows it.
pub open spec fn continued(first: Progress, second: Progress, offset: nat) -> Progress {
    if first.failure is Some {
        first
    } else {
        Progress {
            stack: second.stack,
            events: first.events + second.events,
            failure: match second.failure {
                Some(f) => Some(Failure { code: f.code, column: offset + f.column }),
                None => None,
            },
        }
    }
}

/// How far a run over a sequence of chunks has come. A failure is known
/// by the chunk it came in and its column within that chunk.
pub struct ChunkedProgress {
    pub stack: Seq<Frame>,
    pub events: Seq<Event>,
    pub failure: Option<(nat, Failure)>,
}

/// The run over `chunks`, fed one after the other from `stack`, each
/// resuming from the stack that the one before reached. The run ends with
/// the first chunk that fails.
pub open spec fn run_chunks(stack: Seq<Frame>, chunks: Seq<Seq<u8>>) -> ChunkedProgress
    decreases chunks.len(),
{
    if chunks.len() == 0 {
        ChunkedProgress { stack, events: seq![], failure: None }
    } else {
        let before = run_chunks(stack, chunks.drop_last());
        if before.failure is Some {
            before
        } else {
            let last = run(before.stack, chunks.last());
            ChunkedProgress {
                stack: last.stack,
                events: before.events + last.events,
                failure: match last.failure {
                    Some(f) => Some(((chunks.len() - 1) as nat, f)),
                    None => None,
                },
            }
        }
    }
}

/// Whether a run over chunks and a run over their concatenation came
/// equally far: the same stack, the same events, and either no failure or
/// the same failure at the same byte.
pub open spec fn same_progress(
    parts: ChunkedProgress,
    whole: Progress,
    chunks: Seq<Seq<u8>>,
) -> bool {
    &&& parts.stack == whole.stack
    &&& parts.events == whole.events
    &&& match parts.failure {
        None => whole.failure is None,
        Some((k, f)) => k < chunks.len() && whole.failure == Some(
            Failure { code: f.code, column: chunks.take(k as int).flatten().len() + f.column },
        ),
    }
}

/// Splitting an input in two changes nothing: the run over `a + b` is the
/// run over `a` continued by the run over `b` from the stack that `a`
/// left. This holds of every input and every place to split it, inside a
/// keyword, a number or a string as well as between tokens.
pub proof fn lemma_run_split(stack: Seq<Frame>, a: Seq<u8>, b: Seq<u8>)
    ensures
        run(stack, a + b) == continued(run(stack, a), run(run(stack, a).stack, b), a.len()),
    decreases b.len(),
{
    let first = run(stack, a);
    if b.len() == 0 {
        assert(a + b =~= a);
        assert(first.events + Seq::<Event>::empty() =~= first.events);
    } else {
        let shorter = b.drop_last();
        lemma_run_split(stack, a, shorter);
        assert((a + b).drop_last() =~= a + shorter);
        assert((a + b).last() == b.last());
        if first.failure is None {
            let mid = run(first.stack, shorter);
            if mid.failure is None {
                match step(mid.stack, b.last()) {
                    Ok(s) => {
                        assert((first.events + mid.events) + s.events =~= first.events + (
                        mid.events + s.events));
                    },
                    Err(_) => {},
                }
            }
        }
    }
}

/// Feeding chunks one after the other gives what feeding their
/// concatenation in one piece gives: the same stack, the same events in
/// the same order, and, where a byte fails, the same error at the same
/// byte. The chunks may be of any sizes.
pub proof fn lemma_chunks_are_invisible(stack: Seq<Frame>, chunks: Seq<Seq<u8>>)
    ensures
        same_progress(run_chunks(stack, chunks), run(stack, chunks.flatten()), chunks),
    decreases chunks.len(),
{
    broadcast use Seq::lemma_flatten_push;

    if chunks.len() == 0 {
        assert(chunks.flatten() =~= Seq::<u8>::empty());
    } else {
        let earlier = chunks.drop_last();
        let last = chunks.last();
        lemma_chunks_are_invisible(stack, earlier);
        assert(chunks =~= earlier.push(last));
        assert(chunks.flatten() =~= earlier.flatten() + last);
        lemma_run_split(stack, earlier.flatten(), last);
        let before = run_chunks(stack, earlier);
        match before.failure {
            Some((k, f)) => {
                assert(chunks.take(k as int) =~= earlier.take(k as int));
            },
            None => {
                assert(chunks.take(chunks.len() - 1) =~= earlier);
            },
        }
    }
}

} // verus!
