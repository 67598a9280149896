//! The events of a run keep in step with the containers on the stack, as
//! long as the input closes what it opened.
//!
//! The tokenizer does not check that a closing byte meets a container of
//! its own kind. This module states what an input has to respect for the
//! events to nest, two rules of the grammar of JSON, and proves that they
//! then do: at every point of such a run, in the middle of a document as
//! well as at its end, the containers that the events have left open are
//! the containers open on the stack.
use vstd::prelude::*;
use crate::constants::{ARR_END, LOWER_F, LOWER_N, LOWER_T, OBJ_END, QUOTE, is_digit_char};
use crate::chunks::lemma_run_split;
use crate::json_stream_reader::{run, step};
use crate::json_token::Event;
use crate::nesting::{lemma_nest_balance, lemma_nest_concat, lemma_nest_few, nest};
use crate::step::{Step, value_start};
use crate::token::{Frame, is_scalar};
use crate::utils::{
    array_closed, below_array, below_key, below_object, innermost, is_container, is_rest,
    object_closed, pop_through, pop_to, squashed,
};

verus! {

/// The frames of `stack` that open a container, outermost first.
pub open spec fn open_containers(stack: Seq<Frame>) -> Seq<Frame>
    decreases stack.len(),
{
    if stack.len() == 0 {
        stack
    } else if is_container(stack.last()) {
        open_containers(stack.drop_last()).push(stack.last())
    } else {
        open_containers(stack.drop_last())
    }
}

/// Whether `frame` may lie on top of `below` while no scalar is being
/// scanned: a colon or an `AfterKey` frame lies on its key, and a key lies
/// inside an object. Containers, commas and terminal frames may lie
/// anywhere.
pub open spec fn lawful(below: Seq<Frame>, frame: Frame) -> bool {
    match frame {
        Frame::Colon | Frame::AfterKey => below.len() > 0 && below.last() is Key,
        Frame::Key(_) => innermost(below) == Some(Frame::ObjectOpen),
        Frame::ObjectOpen | Frame::ArrayOpen | Frame::Comma | Frame::Terminal => true,
        _ => false,
    }
}

/// Whether every frame of `stack` lies lawfully on the frames below it.
pub open spec fn calm(stack: Seq<Frame>) -> bool
    decreases stack.len(),
{
    stack.len() == 0 || (calm(stack.drop_last()) && lawful(stack.drop_last(), stack.last()))
}

/// Whether a scalar may be scanned on top of `below`: after a colon, right
/// after the opening of an array, or after a comma inside an array.
pub open spec fn value_place(below: Seq<Frame>) -> bool {
    below.len() > 0 && (below.last() is Colon || below.last() is ArrayOpen || (below.last() is Comma
        && innermost(below) == Some(Frame::ArrayOpen)))
}

/// The shape of every stack that a run from the empty stack reaches on
/// input that [`fits`]: the frames lie lawfully on each other, but for a
/// scalar that may be in progress on top, in a place where a value
/// belongs.
pub open spec fn tidy(stack: Seq<Frame>) -> bool {
    calm(stack) || (stack.len() > 0 && is_scalar(stack.last()) && calm(stack.drop_last())
        && value_place(stack.drop_last()))
}

/// Whether the byte `b`, met with `stack`, closes a container.
pub open spec fn closing(stack: Seq<Frame>, b: u8) -> bool {
    stack.len() > 0 && match stack.last() {
        Frame::Terminal | Frame::NumberLit(_) => b == OBJ_END || b == ARR_END,
        Frame::ObjectOpen => b == OBJ_END,
        Frame::ArrayOpen => b == ARR_END,
        _ => false,
    }
}

/// Whether the byte `b` begins a scalar other than a string.
pub open spec fn begins_bare_scalar(b: u8) -> bool {
    b == LOWER_N || b == LOWER_T || b == LOWER_F || is_digit_char(b)
}

/// What nesting asks of the byte `b` when it is met with `stack`.
///
/// A closing bracket or brace closes the innermost open container, which
/// is of its own kind; and after a comma a number or a keyword begins
/// only inside an array (inside an object a key comes next). Every byte
/// of a well-formed document does as much.
pub open spec fn fits(stack: Seq<Frame>, b: u8) -> bool {
    &&& closing(stack, b) && b == OBJ_END ==> innermost(stack) == Some(Frame::ObjectOpen)
    &&& closing(stack, b) && b == ARR_END ==> innermost(stack) == Some(Frame::ArrayOpen)
    &&& stack.len() > 0 && stack.last() is Comma && begins_bare_scalar(b) ==> innermost(stack)
        == Some(Frame::ArrayOpen)
}

/// Whether every byte of `input` that the run from `stack` comes to
/// [`fits`] the stack that it is met with.
pub open spec fn orderly(stack: Seq<Frame>, input: Seq<u8>) -> bool
    decreases input.len(),
{
    input.len() == 0 || {
        let before = run(stack, input.drop_last());
        &&& orderly(stack, input.drop_last())
        &&& before.failure is None ==> fits(before.stack, input.last())
    }
}

/// What pushing a frame does to the open containers and to calm.
proof fn lemma_push(stack: Seq<Frame>, frame: Frame)
    ensures
        open_containers(stack.push(frame)) == if is_container(frame) {
            open_containers(stack).push(frame)
        } else {
            open_containers(stack)
        },
        calm(stack.push(frame)) == (calm(stack) && lawful(stack, frame)),
        innermost(stack.push(frame)) == if is_container(frame) {
            Some(frame)
        } else {
            innermost(stack)
        },
{
    assert(stack.push(frame).drop_last() =~= stack);
}

/// Popping frames leaves a calm stack calm.
proof fn lemma_pop_calm(stack: Seq<Frame>, stop: spec_fn(Frame) -> bool)
    requires
        calm(stack),
    ensures
        calm(pop_to(stack, stop)),
        calm(pop_through(stack, stop)),
    decreases stack.len(),
{
    if stack.len() > 0 && !stop(stack.last()) {
        lemma_pop_calm(stack.drop_last(), stop);
    }
}

/// The innermost open container is the last of the open containers, and
/// no open container lies above it.
proof fn lemma_innermost(stack: Seq<Frame>)
    ensures
        innermost(stack) == if open_containers(stack).len() == 0 {
            None
        } else {
            Some(open_containers(stack).last())
        },
        open_containers(pop_to(stack, |f: Frame| is_container(f))) == open_containers(stack),
        forall|j: int|
            0 <= j < open_containers(stack).len() ==> is_container(
                #[trigger] open_containers(stack)[j],
            ),
    decreases stack.len(),
{
    if stack.len() > 0 {
        lemma_innermost(stack.drop_last());
    }
}

/// Where the innermost open container is an object, `}` removes exactly
/// that container.
proof fn lemma_close_object(stack: Seq<Frame>)
    requires
        innermost(stack) == Some(Frame::ObjectOpen),
    ensures
        open_containers(stack).len() > 0,
        open_containers(stack).last() is ObjectOpen,
        open_containers(object_closed(stack)) == open_containers(stack).drop_last(),
    decreases stack.len(),
{
    lemma_innermost(stack);
    if stack.len() > 0 {
        if is_container(stack.last()) {
            assert(open_containers(stack).drop_last() =~= open_containers(stack.drop_last()));
            assert(below_object(stack) == stack.drop_last());
        } else {
            lemma_close_object(stack.drop_last());
            assert(below_object(stack) == below_object(stack.drop_last()));
        }
        lemma_push(below_object(stack), Frame::Terminal);
    }
}

/// Where the innermost open container is an array, `]` removes exactly
/// that container.
proof fn lemma_close_array(stack: Seq<Frame>)
    requires
        innermost(stack) == Some(Frame::ArrayOpen),
    ensures
        open_containers(stack).len() > 0,
        open_containers(stack).last() is ArrayOpen,
        open_containers(array_closed(stack)) == open_containers(stack).drop_last(),
    decreases stack.len(),
{
    lemma_innermost(stack);
    if stack.len() > 0 {
        if is_container(stack.last()) {
            assert(open_containers(stack).drop_last() =~= open_containers(stack.drop_last()));
            assert(below_array(stack) == stack.drop_last());
        } else {
            lemma_close_array(stack.drop_last());
            assert(below_array(stack) == below_array(stack.drop_last()));
        }
        lemma_push(below_array(stack), Frame::Terminal);
    }
}

/// Inside an array the collapse comes to rest on the array: no colon lies
/// between the top of a calm stack and its innermost array.
proof fn lemma_rest_in_array(stack: Seq<Frame>)
    requires
        calm(stack),
        innermost(stack) == Some(Frame::ArrayOpen),
    ensures
        pop_to(stack, |f: Frame| is_rest(f)) == pop_to(stack, |f: Frame| is_container(f)),
    decreases stack.len(),
{
    if stack.len() > 0 && !is_container(stack.last()) {
        let below = stack.drop_last();
        if stack.last() is Colon {
            assert(below.last() is Key);
            assert(calm(below));
            assert(lawful(below.drop_last(), below.last()));
            assert(false);
        } else {
            lemma_rest_in_array(below);
        }
    }
}

/// Collapsing a completed scalar leaves the open containers as they are,
/// and the stack calm.
proof fn lemma_squash_scalar(stack: Seq<Frame>)
    requires
        tidy(stack),
        stack.len() > 0,
        is_scalar(stack.last()),
    ensures
        calm(squashed(stack)),
        open_containers(squashed(stack)) == open_containers(stack),
{
    let below = stack.drop_last();
    assert(!calm(stack));
    let settled = pop_to(stack, |f: Frame| is_rest(f));
    assert(settled == pop_to(below, |f: Frame| is_rest(f)));
    lemma_pop_calm(below, |f: Frame| is_rest(f));
    let rest = if settled.len() > 0 && settled.last() is Colon {
        below_key(settled)
    } else {
        settled
    };
    if below.last() is Colon {
        let key = |f: Frame| f is Key;
        assert(settled == below);
        assert(below.drop_last().last() is Key);
        assert(pop_to(below, key) == pop_to(below.drop_last(), key));
        assert(pop_to(below.drop_last(), key) == below.drop_last());
        assert(rest == below.drop_last().drop_last());
        assert(calm(below.drop_last()));
        assert(calm(rest));
        assert(open_containers(stack) == open_containers(below));
        assert(open_containers(below) == open_containers(below.drop_last()));
        assert(open_containers(below.drop_last()) == open_containers(rest));
    } else if below.last() is ArrayOpen {
        assert(settled == below);
        assert(rest == below);
    } else {
        lemma_rest_in_array(below);
        lemma_innermost(below);
        assert(settled.len() > 0);
        assert(is_container(settled.last()));
        assert(rest == settled);
    }
    lemma_push(rest, Frame::Terminal);
}

/// Whether `step` keeps the stack tidy and its events in step with the
/// containers on the stack, when it is taken from `stack`.
pub open spec fn in_step(stack: Seq<Frame>, step: Step) -> bool {
    &&& tidy(step.stack)
    &&& nest(open_containers(stack), step.events) == Some(open_containers(step.stack))
}

/// A scalar in progress may grow in place.
proof fn lemma_grow_scalar(stack: Seq<Frame>, grown: Frame)
    requires
        tidy(stack),
        stack.len() > 0,
        is_scalar(stack.last()),
        is_scalar(grown),
    ensures
        tidy(stack.drop_last().push(grown)),
        open_containers(stack.drop_last().push(grown)) == open_containers(stack),
{
    lemma_push(stack.drop_last(), grown);
    assert(stack.drop_last().push(grown).drop_last() =~= stack.drop_last());
}

/// A completed scalar: the collapse, then the mark of a completed value.
proof fn lemma_complete_scalar(stack: Seq<Frame>, mark: Frame)
    requires
        tidy(stack),
        stack.len() > 0,
        is_scalar(stack.last()),
        mark is Terminal || mark is Comma,
    ensures
        calm(squashed(stack).push(mark)),
        open_containers(squashed(stack).push(mark)) == open_containers(stack),
{
    lemma_squash_scalar(stack);
    lemma_push(squashed(stack), mark);
}

/// Closing the innermost object, which the byte's fitting guarantees to
/// be there.
proof fn lemma_object_end(stack: Seq<Frame>)
    requires
        calm(stack),
        innermost(stack) == Some(Frame::ObjectOpen),
    ensures
        calm(object_closed(stack)),
        nest(open_containers(stack), seq![Event::ObjectEnd]) == Some(
            open_containers(object_closed(stack)),
        ),
{
    lemma_close_object(stack);
    lemma_pop_calm(stack, |f: Frame| f is ObjectOpen);
    lemma_push(below_object(stack), Frame::Terminal);
    lemma_nest_few(open_containers(stack), Event::ObjectEnd, Event::ObjectEnd);
}

/// Closing the innermost array, which the byte's fitting guarantees to be
/// there.
proof fn lemma_array_end(stack: Seq<Frame>)
    requires
        calm(stack),
        innermost(stack) == Some(Frame::ArrayOpen),
    ensures
        calm(array_closed(stack)),
        nest(open_containers(stack), seq![Event::ArrayEnd]) == Some(
            open_containers(array_closed(stack)),
        ),
{
    lemma_close_array(stack);
    lemma_pop_calm(stack, |f: Frame| f is ArrayOpen);
    lemma_push(below_array(stack), Frame::Terminal);
    lemma_nest_few(open_containers(stack), Event::ArrayEnd, Event::ArrayEnd);
}

/// Beginning a value in a place where a value belongs.
proof fn lemma_value_start(stack: Seq<Frame>, b: u8)
    requires
        calm(stack),
        value_place(stack) || !(begins_bare_scalar(b) || b == QUOTE),
        value_start(stack, b) is Some,
    ensures
        in_step(stack, value_start(stack, b)->Some_0),
{
    let step = value_start(stack, b)->Some_0;
    lemma_push(stack, step.stack.last());
    assert(step.stack.drop_last() =~= stack);
    lemma_nest_few(open_containers(stack), Event::ObjectBegin, Event::ArrayBegin);
    lemma_nest_few(open_containers(stack), Event::ArrayBegin, Event::ArrayBegin);
}

/// A byte that [`fits`] keeps the stack tidy, and what it gives out is
/// what it does to the containers on the stack: a begin event for a
/// container pushed, an end event for the innermost container popped, and
/// nothing else.
pub proof fn lemma_step_nests(stack: Seq<Frame>, b: u8)
    requires
        tidy(stack),
        fits(stack, b),
        step(stack, b) is Ok,
    ensures
        in_step(stack, step(stack, b)->Ok_0),
{
    let open = open_containers(stack);
    let after = step(stack, b)->Ok_0;
    lemma_nest_few(open, Event::ObjectBegin, Event::ArrayBegin);
    if stack.len() == 0 {
        lemma_push(stack, Frame::ObjectOpen);
        lemma_push(stack, Frame::ArrayOpen);
        lemma_nest_few(open, Event::ArrayBegin, Event::ArrayBegin);
    } else {
        let below = stack.drop_last();
        assert(stack =~= below.push(stack.last()));
        lemma_push(below, stack.last());
        match stack.last() {
            Frame::ObjectOpen => {
                if b == QUOTE {
                    lemma_push(stack, Frame::Key(seq![]));
                } else if b == OBJ_END {
                    lemma_object_end(stack);
                }
            },
            Frame::ArrayOpen => {
                if value_start(stack, b) is Some {
                    lemma_value_start(stack, b);
                } else if b == ARR_END {
                    lemma_array_end(stack);
                }
            },
            Frame::Key(data) => {
                lemma_push(stack, Frame::AfterKey);
                lemma_push(below, Frame::Key(data.push(b)));
                lemma_nest_few(open, after.events.last(), Event::ArrayBegin);
            },
            Frame::AfterKey => {
                lemma_push(below, Frame::Colon);
            },
            Frame::Colon => {
                if value_start(stack, b) is Some {
                    lemma_value_start(stack, b);
                }
            },
            Frame::Comma => {
                if b == QUOTE {
                    lemma_push(stack, Frame::StringLit(seq![]));
                    lemma_push(stack, Frame::Key(seq![]));
                    assert(stack.push(Frame::StringLit(seq![])).drop_last() =~= stack);
                } else if value_start(stack, b) is Some {
                    lemma_value_start(stack, b);
                }
            },
            Frame::Terminal => {
                if b == ARR_END {
                    lemma_array_end(stack);
                } else if b == OBJ_END {
                    lemma_object_end(stack);
                } else {
                    lemma_push(stack, Frame::Comma);
                }
            },
            Frame::StringLit(data) => {
                if after.events.len() == 0 {
                    lemma_grow_scalar(stack, Frame::StringLit(data.push(b)));
                } else {
                    lemma_complete_scalar(stack, Frame::Terminal);
                    lemma_nest_few(open, after.events.last(), Event::ArrayBegin);
                }
            },
            Frame::NumberLit(data) => {
                if after.events.len() == 0 {
                    lemma_grow_scalar(stack, Frame::NumberLit(data.push(b)));
                } else {
                    let value = after.events[0];
                    lemma_squash_scalar(stack);
                    lemma_innermost(stack);
                    lemma_innermost(squashed(stack));
                    if b == ARR_END {
                        lemma_array_end(squashed(stack));
                        lemma_nest_few(open, value, Event::ArrayEnd);
                        lemma_nest_few(open, Event::ArrayEnd, Event::ArrayEnd);
                    } else if b == OBJ_END {
                        lemma_object_end(squashed(stack));
                        lemma_nest_few(open, value, Event::ObjectEnd);
                        lemma_nest_few(open, Event::ObjectEnd, Event::ObjectEnd);
                    } else {
                        lemma_complete_scalar(stack, Frame::Terminal);
                        lemma_complete_scalar(stack, Frame::Comma);
                        lemma_nest_few(open, value, Event::ArrayBegin);
                    }
                }
            },
            Frame::NullLit(data) => {
                lemma_keyword_nests(stack, Frame::NullLit(data.push(b)), after);
            },
            Frame::TrueLit(data) => {
                lemma_keyword_nests(stack, Frame::TrueLit(data.push(b)), after);
            },
            Frame::FalseLit(data) => {
                lemma_keyword_nests(stack, Frame::FalseLit(data.push(b)), after);
            },
        }
    }
}

/// The two things a byte of a keyword may do: make the keyword grow, or
/// complete it and give out its value.
proof fn lemma_keyword_nests(stack: Seq<Frame>, grown: Frame, after: Step)
    requires
        tidy(stack),
        stack.len() > 0,
        is_scalar(stack.last()),
        is_scalar(grown),
        after.events.len() == 0 && after.stack == stack.drop_last().push(grown) || (
        after.events.len() == 1 && after.events[0] is Value && after.stack == squashed(stack).push(
            Frame::Terminal,
        )),
    ensures
        in_step(stack, after),
{
    let open = open_containers(stack);
    if after.events.len() == 0 {
        lemma_grow_scalar(stack, grown);
        assert(after.events =~= Seq::<Event>::empty());
    } else {
        lemma_complete_scalar(stack, Frame::Terminal);
        assert(after.events =~= seq![after.events[0]]);
        lemma_nest_few(open, after.events[0], Event::ArrayBegin);
    }
}

/// On input that is [`orderly`], the events of a run are correctly nested:
/// applied to the containers that were open on the stack when the run
/// began, they leave open the containers that are open on the stack when
/// it ends. No end event comes without its container, and the stack that
/// the run reaches is tidy again, so that the same holds of the next
/// chunk.
pub proof fn lemma_orderly_run_nests(stack: Seq<Frame>, input: Seq<u8>)
    requires
        tidy(stack),
        orderly(stack, input),
    ensures
        tidy(run(stack, input).stack),
        nest(open_containers(stack), run(stack, input).events) == Some(
            open_containers(run(stack, input).stack),
        ),
    decreases input.len(),
{
    if input.len() > 0 {
        let before = run(stack, input.drop_last());
        lemma_orderly_run_nests(stack, input.drop_last());
        if before.failure is None {
            match step(before.stack, input.last()) {
                Ok(s) => {
                    lemma_step_nests(before.stack, input.last());
                    lemma_nest_concat(open_containers(stack), before.events, s.events);
                },
                Err(_) => {},
            }
        }
    }
}

/// A document read from its first byte, on input that is [`orderly`]:
/// its events are correctly nested, and as many containers are left open
/// by them as are open on the stack.
pub proof fn lemma_orderly_from_start(input: Seq<u8>)
    requires
        orderly(Seq::<Frame>::empty(), input),
    ensures
        nest(Seq::<Frame>::empty(), run(Seq::<Frame>::empty(), input).events) == Some(
            open_containers(run(Seq::<Frame>::empty(), input).stack),
        ),
{
    lemma_orderly_run_nests(Seq::<Frame>::empty(), input);
}

/// A document that is [`orderly`] and has closed every container that it
/// opened has given out as many `ObjectEnd` events as `ObjectBegin`
/// events, and as many `ArrayEnd` events as `ArrayBegin` events.
pub proof fn lemma_orderly_is_balanced(input: Seq<u8>)
    requires
        orderly(Seq::<Frame>::empty(), input),
        open_containers(run(Seq::<Frame>::empty(), input).stack).len() == 0,
    ensures
        ({
            let given = run(Seq::<Frame>::empty(), input).events.to_multiset();
            &&& given.count(Event::ObjectBegin) == given.count(Event::ObjectEnd)
            &&& given.count(Event::ArrayBegin) == given.count(Event::ArrayEnd)
        }),
{
    let empty = Seq::<Frame>::empty();
    lemma_orderly_from_start(input);
    lemma_nest_balance(empty, run(empty, input).events);
    assert(open_containers(run(empty, input).stack) =~= empty);
}

/// Input in two pieces is orderly when the first piece is and, unless it
/// fails, the second is from the stack that the first has left.
pub proof fn lemma_orderly_split(stack: Seq<Frame>, a: Seq<u8>, b: Seq<u8>)
    ensures
        orderly(stack, a + b) == (orderly(stack, a) && (run(stack, a).failure is None ==> orderly(
            run(stack, a).stack,
            b,
        ))),
    decreases b.len(),
{
    if b.len() == 0 {
        assert(a + b =~= a);
    } else {
        lemma_orderly_split(stack, a, b.drop_last());
        lemma_run_split(stack, a, b.drop_last());
        assert((a + b).drop_last() =~= a + b.drop_last());
    }
}

/// Input with one more byte is orderly when the input is and, unless it
/// fails, the byte fits the stack that the input has left.
pub proof fn lemma_orderly_push(stack: Seq<Frame>, input: Seq<u8>, b: u8)
    ensures
        orderly(stack, input.push(b)) == (orderly(stack, input) && (run(stack, input).failure
            is None ==> fits(run(stack, input).stack, b))),
{
    assert(input.push(b).drop_last() =~= input);
}

/// A single byte is orderly input when it fits the stack.
pub proof fn lemma_orderly_one(stack: Seq<Frame>, b: u8)
    ensures
        orderly(stack, seq![b]) == fits(stack, b),
{
    lemma_orderly_push(stack, seq![], b);
    assert(Seq::<u8>::empty().push(b) =~= seq![b]);
}

/// Every beginning of orderly input is orderly.
pub proof fn lemma_orderly_prefix(stack: Seq<Frame>, input: Seq<u8>, n: int)
    requires
        orderly(stack, input),
        0 <= n <= input.len(),
    ensures
        orderly(stack, input.take(n)),
    decreases input.len(),
{
    if n == input.len() {
        assert(input.take(n) =~= input);
    } else {
        assert(input.drop_last().take(n) =~= input.take(n));
        lemma_orderly_prefix(stack, input.drop_last(), n);
    }
}

} // verus!
