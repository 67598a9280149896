//! Unwinding the parse stack: the collapse that follows a completed scalar,
//! and the closing of a container.
use vstd::prelude::*;
use crate::token::{
    Frame, Token, frames_of, lemma_frames_drop_last, lemma_frames_push,
};

verus! {

/// Whether `frame` is where the collapse comes to rest: an open array, or
/// the colon between a key and its value.
pub open spec fn is_rest(frame: Frame) -> bool {
    frame is ArrayOpen || frame is Colon
}

/// Whether `frame` marks an open container.
pub open spec fn is_container(frame: Frame) -> bool {
    frame is ObjectOpen || frame is ArrayOpen
}

/// `stack` with frames popped off the top for as long as `stop` does not
/// hold of the top. The frame that `stop` holds of stays.
pub open spec fn pop_to(stack: Seq<Frame>, stop: spec_fn(Frame) -> bool) -> Seq<Frame>
    decreases stack.len(),
{
    if stack.len() == 0 || stop(stack.last()) {
        stack
    } else {
        pop_to(stack.drop_last(), stop)
    }
}

/// `stack` with frames popped off the top until a frame of which `stop`
/// holds has been popped, or nothing is left.
pub open spec fn pop_through(stack: Seq<Frame>, stop: spec_fn(Frame) -> bool) -> Seq<Frame> {
    let kept = pop_to(stack, stop);
    if kept.len() == 0 {
        kept
    } else {
        kept.drop_last()
    }
}

/// The stack below the topmost key.
pub open spec fn below_key(stack: Seq<Frame>) -> Seq<Frame> {
    pop_through(stack, |f: Frame| f is Key)
}

/// The stack below the topmost open object.
pub open spec fn below_object(stack: Seq<Frame>) -> Seq<Frame> {
    pop_through(stack, |f: Frame| f is ObjectOpen)
}

/// The stack below the topmost open array.
pub open spec fn below_array(stack: Seq<Frame>) -> Seq<Frame> {
    pop_through(stack, |f: Frame| f is ArrayOpen)
}

/// The innermost open container: the topmost frame that opens an object
/// or an array, if there is one.
pub open spec fn innermost(stack: Seq<Frame>) -> Option<Frame> {
    let kept = pop_to(stack, |f: Frame| is_container(f));
    if kept.len() == 0 {
        None
    } else {
        Some(kept.last())
    }
}

/// The stack once a completed scalar has been collapsed: everything above
/// the topmost open array or colon goes; a colon goes too, together with
/// its key; and a terminal frame marks the completed value unless nothing
/// is left.
pub open spec fn squashed(stack: Seq<Frame>) -> Seq<Frame> {
    let settled = pop_to(stack, |f: Frame| is_rest(f));
    let rest = if settled.len() > 0 && settled.last() is Colon {
        below_key(settled)
    } else {
        settled
    };
    if rest.len() > 0 {
        rest.push(Frame::Terminal)
    } else {
        rest
    }
}

/// The stack once `}` has closed the innermost open object.
pub open spec fn object_closed(stack: Seq<Frame>) -> Seq<Frame> {
    below_object(stack).push(Frame::Terminal)
}

/// The stack once `]` has closed the innermost open array.
pub open spec fn array_closed(stack: Seq<Frame>) -> Seq<Frame> {
    below_array(stack).push(Frame::Terminal)
}

/// Collapses the frames of a completed scalar or key/value pair.
pub fn squash(tokens: &mut Vec<Token>)
    ensures
        frames_of(final(tokens)@) == squashed(frames_of(old(tokens)@)),
{
    let ghost stop = |f: Frame| is_rest(f);
    let ghost start = frames_of(tokens@);
    loop
        invariant
            stop == |f: Frame| is_rest(f),
            pop_to(frames_of(tokens@), stop) == pop_to(start, stop),
        ensures
            frames_of(tokens@) == pop_to(start, stop),
        decreases tokens.len(),
    {
        let n = tokens.len();
        if n == 0 {
            break;
        }
        proof {
            lemma_frames_drop_last(tokens@);
        }
        match &tokens[n - 1] {
            Token::Colon => {
                break;
            },
            Token::Arr => {
                break;
            },
            _ => {},
        }
        tokens.pop();
    }
    let n = tokens.len();
    if n > 0 {
        proof {
            lemma_frames_drop_last(tokens@);
        }
        let at_colon = match &tokens[n - 1] {
            Token::Colon => true,
            _ => false,
        };
        if at_colon {
            pop_key(tokens);
        }
    }
    if tokens.len() > 0 {
        proof {
            lemma_frames_push(tokens@, Token::Nil);
        }
        tokens.push(Token::Nil);
    }
}

/// Pops tokens until a key has been popped, or none is left.
fn pop_key(tokens: &mut Vec<Token>)
    ensures
        frames_of(final(tokens)@) == below_key(frames_of(old(tokens)@)),
{
    let ghost stop = |f: Frame| f is Key;
    let ghost start = frames_of(tokens@);
    loop
        invariant_except_break
            pop_through(frames_of(tokens@), stop) == pop_through(start, stop),
        invariant
            stop == |f: Frame| f is Key,
        ensures
            frames_of(tokens@) == pop_through(start, stop),
        decreases tokens.len(),
    {
        proof {
            if tokens@.len() > 0 {
                lemma_frames_drop_last(tokens@);
            }
        }
        match tokens.pop() {
            Some(Token::Key(_)) => {
                break;
            },
            Some(_) => {},
            None => {
                break;
            },
        }
    }
}

/// Closes the innermost open object: pops tokens until an object has been
/// popped (or none is left), then marks the completed container.
pub fn handle_end_obj(tokens: &mut Vec<Token>)
    ensures
        frames_of(final(tokens)@) == object_closed(frames_of(old(tokens)@)),
{
    let ghost stop = |f: Frame| f is ObjectOpen;
    let ghost start = frames_of(tokens@);
    loop
        invariant_except_break
            pop_through(frames_of(tokens@), stop) == pop_through(start, stop),
        invariant
            stop == |f: Frame| f is ObjectOpen,
        ensures
            frames_of(tokens@) == pop_through(start, stop),
        decreases tokens.len(),
    {
        proof {
            if tokens@.len() > 0 {
                lemma_frames_drop_last(tokens@);
            }
        }
        match tokens.pop() {
            Some(Token::Obj) => {
                break;
            },
            Some(_) => {},
            None => {
                break;
            },
        }
    }
    proof {
        lemma_frames_push(tokens@, Token::Nil);
    }
    tokens.push(Token::Nil);
}

/// Closes the innermost open array: pops tokens until an array has been
/// popped (or none is left), then marks the completed container.
pub fn handle_end_arr(tokens: &mut Vec<Token>)
    ensures
        frames_of(final(tokens)@) == array_closed(frames_of(old(tokens)@)),
{
    let ghost stop = |f: Frame| f is ArrayOpen;
    let ghost start = frames_of(tokens@);
    loop
        invariant_except_break
            pop_through(frames_of(tokens@), stop) == pop_through(start, stop),
        invariant
            stop == |f: Frame| f is ArrayOpen,
        ensures
            frames_of(tokens@) == pop_through(start, stop),
        decreases tokens.len(),
    {
        proof {
            if tokens@.len() > 0 {
                lemma_frames_drop_last(tokens@);
            }
        }
        match tokens.pop() {
            Some(Token::Arr) => {
                break;
            },
            Some(_) => {},
            None => {
                break;
            },
        }
    }
    proof {
        lemma_frames_push(tokens@, Token::Nil);
    }
    tokens.push(Token::Nil);
}

} // verus!
