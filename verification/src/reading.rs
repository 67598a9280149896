//! Reading a well-formed document gives the events of its pre-order
//! traversal, and leaves on the stack nothing but the mark of a completed
//! value.
use vstd::prelude::*;
use vstd::utf8::decode_utf8;
use crate::chunks::{ChunkedProgress, lemma_chunks_are_invisible, run_chunks};
use crate::constants::{
    ARR_BEG, ARR_END, COLON, COMMA, LOWER_F, LOWER_N, LOWER_T, OBJ_BEG, OBJ_END, QUOTE,
};
use crate::document::{
    Element, Json, Member, blank, elements_well_formed, is_document, members_well_formed,
    number_literal, key_body, traversal, traversal_of_elements, traversal_of_members,
    well_formed, written, written_elements, written_members,
};
use crate::error::ErrorCode;
use crate::obj::unescaped;
use crate::orderly::{
    lemma_orderly_one, lemma_orderly_push, lemma_orderly_split, orderly,
};
use crate::json_stream_reader::{Progress, run, step};
use crate::json_token::Event;
use crate::json_value::Scalar;
use crate::scan::{
    idle, lemma_run_both, lemma_run_one, lemma_run_push, lemma_scan_false, lemma_scan_key,
    lemma_scan_null, lemma_scan_number, lemma_scan_string, lemma_scan_true, lemma_skip_blank,
    reached,
};
use crate::step::value_start;
use crate::text::lemma_ascii_is_text;
use crate::token::{Frame, is_scalar};
use crate::utils::{
    array_closed, below_key, innermost, is_container, is_rest, object_closed, pop_to, squashed,
};
use crate::val::{false_word, null_word, true_word};

verus! {

/// Whether the frame at `j` may lie above the container that `base` ends
/// with: the marks of completed values and commas may lie above any
/// container; keys and their colons only above an object, each colon on
/// its key.
pub open spec fn litter(base: Seq<Frame>, stack: Seq<Frame>, j: int) -> bool {
    match stack[j] {
        Frame::Terminal | Frame::Comma => true,
        Frame::Key(_) => base.last() is ObjectOpen,
        Frame::Colon => base.last() is ObjectOpen && j > base.len() && stack[j - 1] is Key,
        _ => false,
    }
}

/// Whether `stack` is what a run has made of `base` while it is inside
/// the container that `base` ends with, between two of its entries:
/// `base` is still there, and above it lies only [`litter`].
pub open spec fn inside(base: Seq<Frame>, stack: Seq<Frame>) -> bool {
    &&& base.len() > 0
    &&& is_container(base.last())
    &&& base.len() <= stack.len()
    &&& stack.take(base.len() as int) == base
    &&& forall|j: int| base.len() <= j < stack.len() ==> litter(base, stack, j)
}

/// Whether a value may begin: after the colon of a key, or, in an array,
/// right after its opening or after a comma.
pub open spec fn value_ready(base: Seq<Frame>, stack: Seq<Frame>) -> bool {
    &&& inside(base, stack)
    &&& stack.last() is Colon || (base.last() is ArrayOpen && (stack.last() is ArrayOpen
        || stack.last() is Comma))
}

/// The byte that closes the container that `base` ends with.
pub open spec fn closer(base: Seq<Frame>) -> u8 {
    if base.last() is ArrayOpen {
        ARR_END
    } else {
        OBJ_END
    }
}

/// The event that ends the container that `base` ends with.
pub open spec fn end_event(base: Seq<Frame>) -> Event {
    if base.last() is ArrayOpen {
        Event::ArrayEnd
    } else {
        Event::ObjectEnd
    }
}

/// The stack once the container that `base` ends with has been closed.
pub open spec fn closed(base: Seq<Frame>) -> Seq<Frame> {
    base.drop_last().push(Frame::Terminal)
}

/// Inside a container, unwinding stops at that container.
proof fn lemma_inside_pops(base: Seq<Frame>, stack: Seq<Frame>)
    requires
        inside(base, stack),
    ensures
        pop_to(stack, |f: Frame| is_container(f)) == base,
        innermost(stack) == Some(base.last()),
        base.last() is ArrayOpen ==> pop_to(stack, |f: Frame| is_rest(f)) == base && array_closed(
            stack,
        ) == closed(base),
        base.last() is ObjectOpen ==> object_closed(stack) == closed(base),
    decreases stack.len(),
{
    if stack.len() == base.len() {
        assert(stack =~= stack.take(base.len() as int));
    } else {
        let below = stack.drop_last();
        assert(litter(base, stack, stack.len() - 1));
        assert(below.take(base.len() as int) =~= stack.take(base.len() as int));
        assert forall|j: int| base.len() <= j < below.len() implies litter(base, below, j) by {
            assert(litter(base, stack, j));
        }
        lemma_inside_pops(base, below);
    }
}

/// Completing a scalar inside a container leaves the stack inside that
/// container, with the mark of a completed value on top.
proof fn lemma_inside_squash(base: Seq<Frame>, stack: Seq<Frame>, scalar: Frame)
    requires
        value_ready(base, stack),
        is_scalar(scalar),
    ensures
        inside(base, squashed(stack.push(scalar))),
        squashed(stack.push(scalar)).last() is Terminal,
{
    let top = stack.push(scalar);
    assert(top.drop_last() =~= stack);
    let settled = pop_to(top, |f: Frame| is_rest(f));
    assert(settled == pop_to(stack, |f: Frame| is_rest(f)));
    if stack.last() is Colon {
        let n = stack.len() as int;
        assert(litter(base, stack, n - 1));
        assert(settled == stack);
        let key = |f: Frame| f is Key;
        assert(pop_to(stack, key) == pop_to(stack.drop_last(), key));
        assert(stack.drop_last().last() == stack[n - 2]);
        assert(pop_to(stack.drop_last(), key) == stack.drop_last());
        let rest = stack.drop_last().drop_last();
        assert(below_key(settled) == rest);
        assert(rest =~= stack.take(n - 2));
        lemma_inside_take(base, stack, n - 2);
        lemma_inside_push(base, rest, Frame::Terminal);
    } else {
        lemma_inside_pops(base, stack);
        assert(settled == base);
        lemma_inside_take(base, stack, base.len() as int);
        assert(stack.take(base.len() as int) == base);
        lemma_inside_push(base, base, Frame::Terminal);
    }
}

/// What lies inside a container still does when frames are taken off it,
/// down to the container at most.
proof fn lemma_inside_take(base: Seq<Frame>, stack: Seq<Frame>, n: int)
    requires
        inside(base, stack),
        base.len() <= n <= stack.len(),
    ensures
        inside(base, stack.take(n)),
{
    let kept = stack.take(n);
    assert(kept.take(base.len() as int) =~= stack.take(base.len() as int));
    assert forall|j: int| base.len() <= j < kept.len() implies litter(base, kept, j) by {
        assert(litter(base, stack, j));
    }
}

/// What lies inside a container still does when litter is pushed on it.
proof fn lemma_inside_push(base: Seq<Frame>, stack: Seq<Frame>, frame: Frame)
    requires
        inside(base, stack),
        frame is Terminal || frame is Comma || (base.last() is ObjectOpen && (frame is Key || (
        frame is Colon && stack.last() is Key && stack.len() > base.len()))),
    ensures
        inside(base, stack.push(frame)),
{
    let more = stack.push(frame);
    assert(more.take(base.len() as int) =~= stack.take(base.len() as int));
    assert forall|j: int| base.len() <= j < more.len() implies litter(base, more, j) by {
        if j < stack.len() {
            assert(litter(base, stack, j));
        }
    }
}

/// A byte that begins a value is taken as such wherever a value may
/// begin.
proof fn lemma_begin_value(base: Seq<Frame>, stack: Seq<Frame>, b: u8)
    requires
        value_ready(base, stack),
        value_start(stack, b) is Some,
    ensures
        step(stack, b) == Ok::<_, ErrorCode>(value_start(stack, b)->Some_0),
        orderly(stack, seq![b]),
{
    lemma_inside_pops(base, stack);
    lemma_orderly_one(stack, b);
}

/// After a completed value: whitespace, then either a comma, which is
/// pushed, or the closing byte of the container, which closes it.
proof fn lemma_after_value(base: Seq<Frame>, stack: Seq<Frame>, trail: Seq<u8>, t: u8)
    requires
        inside(base, stack),
        stack.last() is Terminal,
        blank(trail),
        t == COMMA || t == closer(base),
    ensures
        run(stack, trail + seq![t]) == if t == COMMA {
            idle(stack.push(Frame::Comma))
        } else {
            reached(closed(base), seq![end_event(base)])
        },
        orderly(stack, trail + seq![t]),
{
    lemma_skip_blank(stack, trail);
    lemma_run_push(stack, trail, t);
    lemma_orderly_push(stack, trail, t);
    lemma_inside_pops(base, stack);
    assert(trail + seq![t] =~= trail.push(t));
    assert(Seq::<Event>::empty() + Seq::<Event>::empty() =~= Seq::<Event>::empty());
    assert(Seq::<Event>::empty() + seq![end_event(base)] =~= seq![end_event(base)]);
}

/// What is owed once an entry of a container and the byte `t` after it
/// have been read: nothing has failed, the entry has given `events`, and
/// either `t` is a comma and the stack is inside the container still,
/// with the comma on top, or `t` has closed the container and given its
/// end event.
pub open spec fn settled(base: Seq<Frame>, r: Progress, events: Seq<Event>, t: u8) -> bool {
    &&& r.failure is None
    &&& if t == COMMA {
        r.events == events && inside(base, r.stack) && r.stack.last() is Comma
    } else {
        r.events == events + seq![end_event(base)] && r.stack == closed(base)
    }
}

/// What has been read before an entry is settled comes before it.
proof fn lemma_settled_after(
    stack: Seq<Frame>,
    first: Seq<u8>,
    mid: Seq<Frame>,
    given: Seq<Event>,
    base: Seq<Frame>,
    second: Seq<u8>,
    more: Seq<Event>,
    t: u8,
)
    requires
        run(stack, first) == reached(mid, given),
        orderly(stack, first),
        settled(base, run(mid, second), more, t),
        orderly(mid, second),
    ensures
        settled(base, run(stack, first + second), given + more, t),
        orderly(stack, first + second),
{
    lemma_run_both(stack, first, mid, given, second);
    lemma_orderly_split(stack, first, second);
    assert((given + more) + seq![end_event(base)] =~= given + (more + seq![end_event(base)]));
}

/// A completed value, the whitespace after it and the byte `t`.
proof fn lemma_value_done(base: Seq<Frame>, stack: Seq<Frame>, trail: Seq<u8>, t: u8)
    requires
        inside(base, stack),
        stack.last() is Terminal,
        blank(trail),
        t == COMMA || t == closer(base),
    ensures
        settled(base, run(stack, trail + seq![t]), seq![], t),
        orderly(stack, trail + seq![t]),
{
    lemma_after_value(base, stack, trail, t);
    lemma_inside_push(base, stack, Frame::Comma);
    assert(Seq::<Event>::empty() + seq![end_event(base)] =~= seq![end_event(base)]);
}

/// The end of a number: the byte after its last digit gives the number
/// out, be it whitespace, a comma or the closing byte of the container.
proof fn lemma_number_end(
    base: Seq<Frame>,
    stack: Seq<Frame>,
    digits: Seq<u8>,
    trail: Seq<u8>,
    t: u8,
)
    requires
        value_ready(base, stack),
        number_literal(digits),
        blank(trail),
        t == COMMA || t == closer(base),
    ensures
        settled(
            base,
            run(stack.push(Frame::NumberLit(digits)), trail + seq![t]),
            seq![Event::Value(Scalar::Number(decode_utf8(digits)))],
            t,
        ),
        orderly(stack.push(Frame::NumberLit(digits)), trail + seq![t]),
{
    let top = stack.push(Frame::NumberLit(digits));
    let value = Event::Value(Scalar::Number(decode_utf8(digits)));
    let squeezed = squashed(top);
    assert(top.drop_last() =~= stack);
    lemma_ascii_is_text(digits);
    lemma_inside_squash(base, stack, Frame::NumberLit(digits));
    lemma_inside_pops(base, squeezed);
    lemma_inside_pops(base, stack);
    if trail.len() == 0 {
        assert(trail + seq![t] =~= seq![t]);
        lemma_run_one(top, t);
        lemma_orderly_one(top, t);
        lemma_inside_push(base, squeezed, Frame::Comma);
        assert(seq![value, end_event(base)] =~= seq![value] + seq![end_event(base)]);
    } else {
        let w = trail[0];
        let rest = trail.skip(1);
        assert(trail + seq![t] =~= seq![w] + (rest + seq![t]));
        lemma_run_one(top, w);
        lemma_orderly_one(top, w);
        lemma_inside_push(base, squeezed, Frame::Terminal);
        lemma_value_done(base, squeezed.push(Frame::Terminal), rest, t);
        lemma_settled_after(
            top,
            seq![w],
            squeezed.push(Frame::Terminal),
            seq![value],
            base,
            rest + seq![t],
            seq![],
            t,
        );
        assert(seq![value] + Seq::<Event>::empty() =~= seq![value]);
    }
}

/// A number inside a container, the whitespace after it and the byte `t`.
proof fn lemma_number(base: Seq<Frame>, stack: Seq<Frame>, v: Json, trail: Seq<u8>, t: u8)
    requires
        value_ready(base, stack),
        well_formed(v),
        v is Number,
        blank(trail),
        t == COMMA || t == closer(base),
    ensures
        settled(base, run(stack, written(v) + trail + seq![t]), traversal(v), t),
        orderly(stack, written(v) + trail + seq![t]),
{
    let tail = trail + seq![t];
    let none = Seq::<Event>::empty();
    assert(written(v) + trail + seq![t] =~= written(v) + tail);
    let digits = v->Number_0;
    let n = digits.len() as int;
    let first = digits[0];
    lemma_begin_value(base, stack, first);
    lemma_run_one(stack, first);
    let begun = stack.push(Frame::NumberLit(seq![first]));
    assert(digits.take(1) =~= seq![first]);
    assert(digits.take(n) =~= digits);
    lemma_scan_number(stack, digits, n);
    lemma_run_both(stack, seq![first], begun, none, digits.subrange(1, n));
    lemma_orderly_split(stack, seq![first], digits.subrange(1, n));
    assert(seq![first] + digits.subrange(1, n) =~= digits);
    assert(none + none =~= none);
    lemma_number_end(base, stack, digits, trail, t);
    lemma_settled_after(
        stack,
        digits,
        stack.push(Frame::NumberLit(digits)),
        none,
        base,
        tail,
        traversal(v),
        t,
    );
    assert(none + traversal(v) =~= traversal(v));
}

/// A string inside a container, the whitespace after it and the byte `t`.
proof fn lemma_text(base: Seq<Frame>, stack: Seq<Frame>, v: Json, trail: Seq<u8>, t: u8)
    requires
        value_ready(base, stack),
        well_formed(v),
        v is Text,
        blank(trail),
        t == COMMA || t == closer(base),
    ensures
        settled(base, run(stack, written(v) + trail + seq![t]), traversal(v), t),
        orderly(stack, written(v) + trail + seq![t]),
{
    let tail = trail + seq![t];
    let none = Seq::<Event>::empty();
    assert(written(v) + trail + seq![t] =~= written(v) + tail);
    let body = v->Text_0;
    let n = body.len() as int;
    lemma_begin_value(base, stack, QUOTE);
    lemma_run_one(stack, QUOTE);
    let begun = stack.push(Frame::StringLit(seq![]));
    let full = stack.push(Frame::StringLit(body));
    assert(body.take(n) =~= body);
    lemma_scan_string(stack, body, n);
    lemma_run_both(stack, seq![QUOTE], begun, none, body);
    lemma_orderly_split(stack, seq![QUOTE], body);
    assert(none + none =~= none);
    lemma_run_push(stack, seq![QUOTE] + body, QUOTE);
    lemma_orderly_push(stack, seq![QUOTE] + body, QUOTE);
    assert((seq![QUOTE] + body).push(QUOTE) =~= written(v));
    assert(full.drop_last() =~= stack);
    assert(none + traversal(v) =~= traversal(v));
    let done = squashed(full).push(Frame::Terminal);
    assert(run(stack, written(v)) == reached(done, traversal(v)));
    lemma_inside_squash(base, stack, Frame::StringLit(body));
    lemma_inside_push(base, squashed(full), Frame::Terminal);
    lemma_value_done(base, done, trail, t);
    lemma_settled_after(stack, written(v), done, traversal(v), base, tail, none, t);
    assert(traversal(v) + none =~= traversal(v));
}

/// `null` inside a container, the whitespace after it and the byte `t`.
proof fn lemma_null(base: Seq<Frame>, stack: Seq<Frame>, v: Json, trail: Seq<u8>, t: u8)
    requires
        value_ready(base, stack),
        well_formed(v),
        v is Null,
        blank(trail),
        t == COMMA || t == closer(base),
    ensures
        settled(base, run(stack, written(v) + trail + seq![t]), traversal(v), t),
        orderly(stack, written(v) + trail + seq![t]),
{
    let tail = trail + seq![t];
    let none = Seq::<Event>::empty();
    assert(written(v) + trail + seq![t] =~= written(v) + tail);
    let word = null_word();
    let scalar = Frame::NullLit(word.take(3));
    lemma_begin_value(base, stack, LOWER_N);
    lemma_run_one(stack, LOWER_N);
    let begun = stack.push(Frame::NullLit(seq![LOWER_N]));
    lemma_scan_null(stack);
    lemma_run_both(stack, seq![LOWER_N], begun, none, word.skip(1));
    lemma_orderly_split(stack, seq![LOWER_N], word.skip(1));
    assert(seq![LOWER_N] + word.skip(1) =~= word);
    assert(none + traversal(v) =~= traversal(v));
    let done = squashed(stack.push(scalar)).push(Frame::Terminal);
    lemma_inside_squash(base, stack, scalar);
    lemma_inside_push(base, squashed(stack.push(scalar)), Frame::Terminal);
    lemma_value_done(base, done, trail, t);
    lemma_settled_after(stack, written(v), done, traversal(v), base, tail, none, t);
    assert(traversal(v) + none =~= traversal(v));
}

/// `true` inside a container, the whitespace after it and the byte `t`.
proof fn lemma_true(base: Seq<Frame>, stack: Seq<Frame>, v: Json, trail: Seq<u8>, t: u8)
    requires
        value_ready(base, stack),
        well_formed(v),
        v == Json::Bool(true),
        blank(trail),
        t == COMMA || t == closer(base),
    ensures
        settled(base, run(stack, written(v) + trail + seq![t]), traversal(v), t),
        orderly(stack, written(v) + trail + seq![t]),
{
    let tail = trail + seq![t];
    let none = Seq::<Event>::empty();
    assert(written(v) + trail + seq![t] =~= written(v) + tail);
    let word = true_word();
    let scalar = Frame::TrueLit(word.take(3));
    lemma_begin_value(base, stack, LOWER_T);
    lemma_run_one(stack, LOWER_T);
    let begun = stack.push(Frame::TrueLit(seq![LOWER_T]));
    lemma_scan_true(stack);
    lemma_run_both(stack, seq![LOWER_T], begun, none, word.skip(1));
    lemma_orderly_split(stack, seq![LOWER_T], word.skip(1));
    assert(seq![LOWER_T] + word.skip(1) =~= word);
    assert(none + traversal(v) =~= traversal(v));
    let done = squashed(stack.push(scalar)).push(Frame::Terminal);
    lemma_inside_squash(base, stack, scalar);
    lemma_inside_push(base, squashed(stack.push(scalar)), Frame::Terminal);
    lemma_value_done(base, done, trail, t);
    lemma_settled_after(stack, written(v), done, traversal(v), base, tail, none, t);
    assert(traversal(v) + none =~= traversal(v));
}

/// `false` inside a container, the whitespace after it and the byte `t`.
proof fn lemma_false(base: Seq<Frame>, stack: Seq<Frame>, v: Json, trail: Seq<u8>, t: u8)
    requires
        value_ready(base, stack),
        well_formed(v),
        v == Json::Bool(false),
        blank(trail),
        t == COMMA || t == closer(base),
    ensures
        settled(base, run(stack, written(v) + trail + seq![t]), traversal(v), t),
        orderly(stack, written(v) + trail + seq![t]),
{
    let tail = trail + seq![t];
    let none = Seq::<Event>::empty();
    assert(written(v) + trail + seq![t] =~= written(v) + tail);
    let word = false_word();
    let scalar = Frame::FalseLit(word.take(4));
    lemma_begin_value(base, stack, LOWER_F);
    lemma_run_one(stack, LOWER_F);
    let begun = stack.push(Frame::FalseLit(seq![LOWER_F]));
    lemma_scan_false(stack);
    lemma_run_both(stack, seq![LOWER_F], begun, none, word.skip(1));
    lemma_orderly_split(stack, seq![LOWER_F], word.skip(1));
    assert(seq![LOWER_F] + word.skip(1) =~= word);
    assert(none + traversal(v) =~= traversal(v));
    let done = squashed(stack.push(scalar)).push(Frame::Terminal);
    lemma_inside_squash(base, stack, scalar);
    lemma_inside_push(base, squashed(stack.push(scalar)), Frame::Terminal);
    lemma_value_done(base, done, trail, t);
    lemma_settled_after(stack, written(v), done, traversal(v), base, tail, none, t);
    assert(traversal(v) + none =~= traversal(v));
}

/// A scalar inside a container, the whitespace after it and the byte `t`:
/// the scalar gives its one event.
proof fn lemma_scalar(base: Seq<Frame>, stack: Seq<Frame>, v: Json, trail: Seq<u8>, t: u8)
    requires
        value_ready(base, stack),
        well_formed(v),
        !(v is Array) && !(v is Object),
        blank(trail),
        t == COMMA || t == closer(base),
    ensures
        settled(base, run(stack, written(v) + trail + seq![t]), traversal(v), t),
        orderly(stack, written(v) + trail + seq![t]),
{
    match v {
        Json::Number(_) => lemma_number(base, stack, v, trail, t),
        Json::Text(_) => lemma_text(base, stack, v, trail, t),
        Json::Null => lemma_null(base, stack, v, trail, t),
        Json::Bool(true) => lemma_true(base, stack, v, trail, t),
        Json::Bool(false) => lemma_false(base, stack, v, trail, t),
        _ => {},
    }
}

/// The frame that the opening byte of the container `v` pushes.
pub open spec fn opening(v: Json) -> Frame {
    if v is Array {
        Frame::ArrayOpen
    } else {
        Frame::ObjectOpen
    }
}

/// The bytes of the container `v` after its opening byte.
pub open spec fn inner_bytes(v: Json) -> Seq<u8> {
    match v {
        Json::Array { pad, elements } => pad + written_elements(elements, 0),
        Json::Object { pad, members } => pad + written_members(members, 0),
        _ => seq![],
    }
}

/// The events of the container `v` after its begin event.
pub open spec fn inner_events(v: Json) -> Seq<Event> {
    match v {
        Json::Array { pad, elements } => traversal_of_elements(elements, 0),
        Json::Object { pad, members } => traversal_of_members(members, 0),
        _ => seq![],
    }
}

/// The key of a member, from the whitespace before it to its closing
/// quote: the key is given out, and the stack holds the key and an
/// `AfterKey` frame.
proof fn lemma_key_quoted(base: Seq<Frame>, stack: Seq<Frame>, lead: Seq<u8>, key: Seq<u8>)
    requires
        inside(base, stack),
        base.last() is ObjectOpen,
        stack.last() is ObjectOpen || stack.last() is Comma,
        blank(lead),
        key_body(key),
    ensures
        run(stack, lead + seq![QUOTE] + key + seq![QUOTE]) == reached(
            stack.push(Frame::Key(key)).push(Frame::AfterKey),
            seq![Event::Key(decode_utf8(unescaped(key)))],
        ),
        orderly(stack, lead + seq![QUOTE] + key + seq![QUOTE]),
{
    let none = Seq::<Event>::empty();
    let event = seq![Event::Key(decode_utf8(unescaped(key)))];
    let n = key.len() as int;
    let begun = stack.push(Frame::Key(seq![]));
    let keyed = stack.push(Frame::Key(key));
    assert(none + none =~= none);
    assert(none + event =~= event);
    // the whitespace and the opening quote
    lemma_skip_blank(stack, lead);
    lemma_inside_pops(base, stack);
    lemma_run_push(stack, lead, QUOTE);
    lemma_orderly_push(stack, lead, QUOTE);
    let p2 = lead.push(QUOTE);
    assert(run(stack, p2) == idle(begun));
    // the key
    assert(key.take(n) =~= key);
    lemma_scan_key(stack, key, n);
    lemma_run_both(stack, p2, begun, none, key);
    lemma_orderly_split(stack, p2, key);
    let p3 = p2 + key;
    assert(run(stack, p3) == idle(keyed));
    // the closing quote
    lemma_run_push(stack, p3, QUOTE);
    lemma_orderly_push(stack, p3, QUOTE);
    assert(p3.push(QUOTE) =~= lead + seq![QUOTE] + key + seq![QUOTE]);
}

/// From the closing quote of a key to its value: whitespace, the colon,
/// which takes the place of the `AfterKey` frame, and whitespace again.
proof fn lemma_key_colon(keyed: Seq<Frame>, gap: Seq<u8>, space: Seq<u8>)
    requires
        blank(gap),
        blank(space),
    ensures
        run(keyed.push(Frame::AfterKey), gap + seq![COLON] + space) == idle(
            keyed.push(Frame::Colon),
        ),
        orderly(keyed.push(Frame::AfterKey), gap + seq![COLON] + space),
{
    let none = Seq::<Event>::empty();
    let after = keyed.push(Frame::AfterKey);
    let ready = keyed.push(Frame::Colon);
    assert(none + none =~= none);
    lemma_skip_blank(after, gap);
    lemma_run_push(after, gap, COLON);
    lemma_orderly_push(after, gap, COLON);
    let p = gap.push(COLON);
    assert(after.drop_last().push(Frame::Colon) =~= ready);
    assert(run(after, p) == idle(ready));
    lemma_skip_blank(ready, space);
    lemma_run_both(after, p, ready, none, space);
    lemma_orderly_split(after, p, space);
    assert(p + space =~= gap + seq![COLON] + space);
}

/// The key of a member, from the whitespace before it to the whitespace
/// after its colon: the key is given out, and the stack holds the key and
/// the colon, ready for the value.
proof fn lemma_key(base: Seq<Frame>, stack: Seq<Frame>, m: Member)
    requires
        inside(base, stack),
        base.last() is ObjectOpen,
        stack.last() is ObjectOpen || stack.last() is Comma,
        blank(m.lead),
        key_body(m.key),
        blank(m.gap),
        blank(m.space),
    ensures
        run(stack, m.lead + seq![QUOTE] + m.key + seq![QUOTE] + m.gap + seq![COLON] + m.space)
            == reached(
            stack.push(Frame::Key(m.key)).push(Frame::Colon),
            seq![Event::Key(decode_utf8(unescaped(m.key)))],
        ),
        value_ready(base, stack.push(Frame::Key(m.key)).push(Frame::Colon)),
        orderly(
            stack,
            m.lead + seq![QUOTE] + m.key + seq![QUOTE] + m.gap + seq![COLON] + m.space,
        ),
{
    let event = seq![Event::Key(decode_utf8(unescaped(m.key)))];
    let keyed = stack.push(Frame::Key(m.key));
    let quoted = m.lead + seq![QUOTE] + m.key + seq![QUOTE];
    let colon = m.gap + seq![COLON] + m.space;
    lemma_key_quoted(base, stack, m.lead, m.key);
    lemma_key_colon(keyed, m.gap, m.space);
    lemma_run_both(stack, quoted, keyed.push(Frame::AfterKey), event, colon);
    lemma_orderly_split(stack, quoted, colon);
    assert(quoted + colon =~= m.lead + seq![QUOTE] + m.key + seq![QUOTE] + m.gap + seq![COLON]
        + m.space);
    assert(event + Seq::<Event>::empty() =~= event);
    lemma_inside_push(base, stack, Frame::Key(m.key));
    lemma_inside_push(base, keyed, Frame::Colon);
}

/// A value inside a container, the whitespace after it and the byte `t`
/// that follows: a comma or the closing byte of the container. The value
/// gives the events of its traversal.
proof fn lemma_value(base: Seq<Frame>, stack: Seq<Frame>, v: Json, trail: Seq<u8>, t: u8)
    requires
        value_ready(base, stack),
        well_formed(v),
        blank(trail),
        t == COMMA || t == closer(base),
    ensures
        settled(base, run(stack, written(v) + trail + seq![t]), traversal(v), t),
        orderly(stack, written(v) + trail + seq![t]),
    decreases v, 1int,
{
    if v is Array || v is Object {
        let none = Seq::<Event>::empty();
        let tail = trail + seq![t];
        let first = if v is Array {
            ARR_BEG
        } else {
            OBJ_BEG
        };
        let begin = if v is Array {
            Event::ArrayBegin
        } else {
            Event::ObjectBegin
        };
        let done = stack.push(Frame::Terminal);
        lemma_begin_value(base, stack, first);
        lemma_run_one(stack, first);
        lemma_body(stack, v);
        lemma_run_both(stack, seq![first], stack.push(opening(v)), seq![begin], inner_bytes(v));
        lemma_orderly_split(stack, seq![first], inner_bytes(v));
        assert(seq![first] + inner_bytes(v) =~= written(v));
        assert(seq![begin] + inner_events(v) =~= traversal(v));
        lemma_inside_push(base, stack, Frame::Terminal);
        lemma_value_done(base, done, trail, t);
        lemma_settled_after(stack, written(v), done, traversal(v), base, tail, none, t);
        assert(traversal(v) + none =~= traversal(v));
        assert(written(v) + trail + seq![t] =~= written(v) + tail);
    } else {
        lemma_scalar(base, stack, v, trail, t);
    }
}

/// A container from the byte after its opening byte to its closing byte:
/// it gives the events of its entries and its end event, and leaves the
/// mark of a completed value where its opening frame was.
proof fn lemma_body(below: Seq<Frame>, v: Json)
    requires
        v is Array || v is Object,
        well_formed(v),
    ensures
        run(below.push(opening(v)), inner_bytes(v)) == reached(
            below.push(Frame::Terminal),
            inner_events(v),
        ),
        orderly(below.push(opening(v)), inner_bytes(v)),
    decreases v, 0int,
{
    let none = Seq::<Event>::empty();
    let base = below.push(opening(v));
    assert(base.take(base.len() as int) =~= base);
    assert(inside(base, base));
    assert(closed(base) =~= below.push(Frame::Terminal));
    lemma_inside_pops(base, base);
    match v {
        Json::Array { pad, elements } => {
            lemma_skip_blank(base, pad);
            if elements.len() == 0 {
                lemma_run_push(base, pad, ARR_END);
                lemma_orderly_push(base, pad, ARR_END);
                assert(pad.push(ARR_END) =~= inner_bytes(v));
                assert(none + seq![Event::ArrayEnd] =~= inner_events(v));
            } else {
                lemma_elements(base, base, elements, 0);
                lemma_run_both(base, pad, base, none, written_elements(elements, 0));
                lemma_orderly_split(base, pad, written_elements(elements, 0));
                assert(none + inner_events(v) =~= inner_events(v));
            }
        },
        Json::Object { pad, members } => {
            lemma_skip_blank(base, pad);
            if members.len() == 0 {
                lemma_run_push(base, pad, OBJ_END);
                lemma_orderly_push(base, pad, OBJ_END);
                assert(pad.push(OBJ_END) =~= inner_bytes(v));
                assert(none + seq![Event::ObjectEnd] =~= inner_events(v));
            } else {
                lemma_members(base, base, members, 0);
                lemma_run_both(base, pad, base, none, written_members(members, 0));
                lemma_orderly_split(base, pad, written_members(members, 0));
                assert(none + inner_events(v) =~= inner_events(v));
            }
        },
        _ => {},
    }
}

/// The elements of an array from the `k`-th on, and its closing bracket.
proof fn lemma_elements(base: Seq<Frame>, stack: Seq<Frame>, elements: Seq<Element>, k: int)
    requires
        inside(base, stack),
        base.last() is ArrayOpen,
        stack.last() is ArrayOpen || stack.last() is Comma,
        elements_well_formed(elements),
        0 <= k < elements.len(),
    ensures
        run(stack, written_elements(elements, k)) == reached(
            closed(base),
            traversal_of_elements(elements, k),
        ),
        orderly(stack, written_elements(elements, k)),
    decreases elements, elements.len() - k,
{
    let none = Seq::<Event>::empty();
    let e = elements[k];
    let v = e.item.value;
    let more = k + 1 < elements.len();
    let t = if more {
        COMMA
    } else {
        ARR_END
    };
    let entry = written(v) + e.item.trail + seq![t];
    lemma_skip_blank(stack, e.lead);
    lemma_value(base, stack, v, e.item.trail, t);
    let r = run(stack, entry);
    if more {
        let rest = written_elements(elements, k + 1);
        lemma_elements(base, r.stack, elements, k + 1);
        lemma_run_both(stack, entry, r.stack, traversal(v), rest);
        lemma_orderly_split(stack, entry, rest);
        lemma_run_both(stack, e.lead, stack, none, entry + rest);
        lemma_orderly_split(stack, e.lead, entry + rest);
        assert(e.lead + (entry + rest) =~= written_elements(elements, k));
        assert(none + (traversal(v) + traversal_of_elements(elements, k + 1))
            =~= traversal_of_elements(elements, k));
    } else {
        lemma_run_both(stack, e.lead, stack, none, entry);
        lemma_orderly_split(stack, e.lead, entry);
        assert(e.lead + entry =~= written_elements(elements, k));
        assert(traversal_of_elements(elements, k + 1) == seq![Event::ArrayEnd]);
        assert(none + (traversal(v) + seq![Event::ArrayEnd]) =~= traversal_of_elements(
            elements,
            k,
        ));
    }
}

/// The members of an object from the `k`-th on, and its closing brace.
proof fn lemma_members(base: Seq<Frame>, stack: Seq<Frame>, members: Seq<Member>, k: int)
    requires
        inside(base, stack),
        base.last() is ObjectOpen,
        stack.last() is ObjectOpen || stack.last() is Comma,
        members_well_formed(members),
        0 <= k < members.len(),
    ensures
        run(stack, written_members(members, k)) == reached(
            closed(base),
            traversal_of_members(members, k),
        ),
        orderly(stack, written_members(members, k)),
    decreases members, members.len() - k,
{
    let m = members[k];
    let v = m.item.value;
    let more = k + 1 < members.len();
    let t = if more {
        COMMA
    } else {
        OBJ_END
    };
    let label = m.lead + seq![QUOTE] + m.key + seq![QUOTE] + m.gap + seq![COLON] + m.space;
    let named = seq![Event::Key(decode_utf8(unescaped(m.key)))];
    let ready = stack.push(Frame::Key(m.key)).push(Frame::Colon);
    let entry = written(v) + m.item.trail + seq![t];
    lemma_key(base, stack, m);
    lemma_value(base, ready, v, m.item.trail, t);
    let r = run(ready, entry);
    if more {
        let rest = written_members(members, k + 1);
        lemma_members(base, r.stack, members, k + 1);
        lemma_run_both(ready, entry, r.stack, traversal(v), rest);
        lemma_orderly_split(ready, entry, rest);
        lemma_run_both(stack, label, ready, named, entry + rest);
        lemma_orderly_split(stack, label, entry + rest);
        assert(label + (entry + rest) =~= written_members(members, k));
        assert(named + (traversal(v) + traversal_of_members(members, k + 1))
            =~= traversal_of_members(members, k));
    } else {
        lemma_run_both(stack, label, ready, named, entry);
        lemma_orderly_split(stack, label, entry);
        assert(label + entry =~= written_members(members, k));
        assert(traversal_of_members(members, k + 1) == seq![Event::ObjectEnd]);
        assert(named + (traversal(v) + seq![Event::ObjectEnd]) =~= traversal_of_members(
            members,
            k,
        ));
    }
}

/// A document from its first byte to its closing byte.
proof fn lemma_document_closed(doc: Json)
    requires
        is_document(doc),
    ensures
        run(Seq::<Frame>::empty(), written(doc)) == reached(
            seq![Frame::Terminal],
            traversal(doc),
        ),
        orderly(Seq::<Frame>::empty(), written(doc)),
{
    let empty = Seq::<Frame>::empty();
    let first = if doc is Array {
        ARR_BEG
    } else {
        OBJ_BEG
    };
    let begin = if doc is Array {
        Event::ArrayBegin
    } else {
        Event::ObjectBegin
    };
    lemma_run_one(empty, first);
    lemma_body(empty, doc);
    lemma_run_both(empty, seq![first], empty.push(opening(doc)), seq![begin], inner_bytes(doc));
    lemma_orderly_one(empty, first);
    lemma_orderly_split(empty, seq![first], inner_bytes(doc));
    assert(seq![first] + inner_bytes(doc) =~= written(doc));
    assert(seq![begin] + inner_events(doc) =~= traversal(doc));
    assert(empty.push(Frame::Terminal) =~= seq![Frame::Terminal]);
}

/// Reading a document from its first byte to its last, and the
/// whitespace `tail` that may follow it (the newline at the end of a
/// file), gives the events of its pre-order traversal, in order and with
/// nothing else between them; nothing fails; and the stack is left
/// holding the mark of a completed value and nothing more. On the way
/// every byte fits the stack that it is met with.
pub proof fn lemma_document_read(doc: Json, tail: Seq<u8>)
    requires
        is_document(doc),
        blank(tail),
    ensures
        run(Seq::<Frame>::empty(), written(doc) + tail) == reached(
            seq![Frame::Terminal],
            traversal(doc),
        ),
        orderly(Seq::<Frame>::empty(), written(doc) + tail),
{
    let empty = Seq::<Frame>::empty();
    let done = seq![Frame::Terminal];
    lemma_document_closed(doc);
    lemma_skip_blank(done, tail);
    lemma_run_both(empty, written(doc), done, traversal(doc), tail);
    lemma_orderly_split(empty, written(doc), tail);
    assert(traversal(doc) + Seq::<Event>::empty() =~= traversal(doc));
}

/// Reading a document, with the whitespace `tail` that may follow it, in
/// chunks of whatever sizes gives the events of its pre-order traversal
/// as reading it in one piece does.
pub proof fn lemma_document_read_in_chunks(doc: Json, tail: Seq<u8>, chunks: Seq<Seq<u8>>)
    requires
        is_document(doc),
        blank(tail),
        chunks.flatten() == written(doc) + tail,
    ensures
        run_chunks(Seq::<Frame>::empty(), chunks) == (ChunkedProgress {
            stack: seq![Frame::Terminal],
            events: traversal(doc),
            failure: None,
        }),
{
    lemma_document_read(doc, tail);
    lemma_chunks_are_invisible(Seq::<Frame>::empty(), chunks);
}

} // verus!
