//! What holds of every stack that a run reaches, whatever the input.
use vstd::prelude::*;
use crate::error::ErrorCode;
use crate::json_stream_reader::{Progress, run, step};
use crate::token::{Frame, is_scalar};
use crate::utils::{is_rest, pop_through, pop_to, squashed};

verus! {

/// The number of bytes of `input` that the run `progress` over it has
/// taken: all of them, or those before the byte that failed.
pub open spec fn taken(progress: Progress, input: Seq<u8>) -> nat {
    match progress.failure {
        Some(failure) => failure.column,
        None => input.len(),
    }
}

/// Whether no frame of `stack` but the top one holds a scalar that is
/// being scanned.
pub open spec fn scans_on_top_only(stack: Seq<Frame>) -> bool {
    forall|j: int| 0 <= j < stack.len() - 1 ==> !is_scalar(#[trigger] stack[j])
}

/// The errors that the tokenizer reports. The other kinds are kept for
/// the hosts of the tokenizer.
pub open spec fn reported(code: ErrorCode) -> bool {
    code is ExpectedObjectOrArray || code is ExpectedKey || code is ExpectedColon
        || code is ExpectedAnyTerm || code is ExpectedCommaOrObjectEndOrArrayEnd
        || code is ExpectedNull || code is ExpectedTrue || code is ExpectedFalse
        || code is InvalidNumber || code is InvalidArrFormat || code is InvalidFormat
        || code is TooLongKey
}

/// Unwinding leaves a beginning of the stack.
pub proof fn lemma_pop_is_prefix(stack: Seq<Frame>, stop: spec_fn(Frame) -> bool)
    ensures
        pop_to(stack, stop).len() <= stack.len(),
        pop_to(stack, stop) == stack.take(pop_to(stack, stop).len() as int),
        pop_through(stack, stop).len() <= stack.len(),
        pop_through(stack, stop) == stack.take(pop_through(stack, stop).len() as int),
        stack.len() > 0 ==> pop_through(stack, stop).len() < stack.len(),
    decreases stack.len(),
{
    if stack.len() == 0 || stop(stack.last()) {
        assert(stack =~= stack.take(stack.len() as int));
        if stack.len() > 0 {
            assert(stack.drop_last() =~= stack.take(stack.len() - 1));
        }
    } else {
        let below = stack.drop_last();
        lemma_pop_is_prefix(below, stop);
        let kept = pop_to(below, stop);
        assert(kept =~= stack.take(kept.len() as int));
        assert(pop_through(below, stop) =~= stack.take(pop_through(below, stop).len() as int));
    }
}

/// The collapse leaves a beginning of the stack, with the mark of a
/// completed value on it unless nothing is left; and where a scalar was
/// on top, it is gone.
pub proof fn lemma_squashed_is_prefix(stack: Seq<Frame>)
    ensures
        squashed(stack).len() == 0 || {
            let n = squashed(stack).len() - 1;
            &&& n <= stack.len()
            &&& squashed(stack) == stack.take(n).push(Frame::Terminal)
            &&& stack.len() > 0 && is_scalar(stack.last()) ==> n < stack.len()
        },
{
    let settled = pop_to(stack, |f: Frame| is_rest(f));
    lemma_pop_is_prefix(stack, |f: Frame| is_rest(f));
    lemma_pop_is_prefix(settled, |f: Frame| f is Key);
    let rest = pop_through(settled, |f: Frame| f is Key);
    assert(settled.take(rest.len() as int) =~= stack.take(rest.len() as int));
    if stack.len() > 0 && is_scalar(stack.last()) {
        assert(settled == pop_to(stack.drop_last(), |f: Frame| is_rest(f)));
        lemma_pop_is_prefix(stack.drop_last(), |f: Frame| is_rest(f));
    }
}

/// Every byte that is taken leaves a frame on the stack, and a scalar
/// that is being scanned on top of the stack only. Every byte that is
/// not taken is refused with one of the errors that the tokenizer
/// reports.
pub proof fn lemma_step_shape(stack: Seq<Frame>, b: u8)
    requires
        scans_on_top_only(stack),
    ensures
        match step(stack, b) {
            Ok(s) => s.stack.len() > 0 && scans_on_top_only(s.stack),
            Err(code) => reported(code),
        },
{
    match step(stack, b) {
        Ok(s) => {
            lemma_pop_is_prefix(stack, |f: Frame| f is ObjectOpen);
            lemma_pop_is_prefix(stack, |f: Frame| f is ArrayOpen);
            lemma_squashed_is_prefix(stack);
            let squeezed = squashed(stack);
            lemma_pop_is_prefix(squeezed, |f: Frame| f is ObjectOpen);
            lemma_pop_is_prefix(squeezed, |f: Frame| f is ArrayOpen);
            assert forall|j: int| 0 <= j < s.stack.len() - 1 implies !is_scalar(
                #[trigger] s.stack[j],
            ) by {
                if j < stack.len() - 1 {
                    assert(!is_scalar(stack[j]));
                }
            }
        },
        Err(_) => {},
    }
}

/// The stack is empty as long as no byte has been taken, and never
/// again; and whatever the input, a scalar that is being scanned lies on
/// top of the stack, and a failure is one of the errors that the
/// tokenizer reports.
pub proof fn lemma_run_shape(input: Seq<u8>)
    ensures
        ({
            let r = run(Seq::<Frame>::empty(), input);
            &&& r.stack.len() == 0 <==> taken(r, input) == 0
            &&& scans_on_top_only(r.stack)
            &&& r.failure matches Some(failure) ==> reported(failure.code) && failure.column
                < input.len()
        }),
    decreases input.len(),
{
    if input.len() > 0 {
        let before = run(Seq::<Frame>::empty(), input.drop_last());
        lemma_run_shape(input.drop_last());
        if before.failure is None {
            lemma_step_shape(before.stack, input.last());
        }
    }
}

} // verus!
