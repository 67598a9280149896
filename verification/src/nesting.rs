//! Correct nesting of begin and end events.
//!
//! Events are correctly nested when each end event closes the container
//! of its own kind that was opened last and is still open. The events of
//! every well-formed document are, and they are balanced: of each kind as
//! many end events as begin events.
use vstd::prelude::*;
use vstd::utf8::decode_utf8;
use crate::document::{
    Element, Json, Member, blank, is_document, traversal, traversal_of_elements, traversal_of_members,
    written,
};
use crate::chunks::lemma_run_split;
use crate::json_stream_reader::run;
use crate::json_token::Event;
use crate::obj::unescaped;
use crate::orderly::{lemma_orderly_from_start, lemma_orderly_prefix, open_containers};
use crate::reading::lemma_document_read;
use crate::token::Frame;

verus! {

/// The containers left open once `event` has come while `open` were open.
/// An end event that meets no container, or one of the other kind, has no
/// place: the result is `None`.
pub open spec fn after_event(open: Seq<Frame>, event: Event) -> Option<Seq<Frame>> {
    match event {
        Event::ObjectBegin => Some(open.push(Frame::ObjectOpen)),
        Event::ArrayBegin => Some(open.push(Frame::ArrayOpen)),
        Event::ObjectEnd => if open.len() > 0 && open.last() is ObjectOpen {
            Some(open.drop_last())
        } else {
            None
        },
        Event::ArrayEnd => if open.len() > 0 && open.last() is ArrayOpen {
            Some(open.drop_last())
        } else {
            None
        },
        Event::Key(_) | Event::Value(_) => Some(open),
    }
}

/// The containers left open once `events` have come, in order, while
/// `open` were open; `None` if one of the end events has no place. The
/// length of the result is the depth of nesting.
pub open spec fn nest(open: Seq<Frame>, events: Seq<Event>) -> Option<Seq<Frame>>
    decreases events.len(),
{
    if events.len() == 0 {
        Some(open)
    } else {
        match nest(open, events.drop_last()) {
            Some(mid) => after_event(mid, events.last()),
            None => None,
        }
    }
}

/// Nesting events one batch after the other is nesting them all.
pub proof fn lemma_nest_concat(open: Seq<Frame>, first: Seq<Event>, second: Seq<Event>)
    ensures
        nest(open, first + second) == match nest(open, first) {
            Some(mid) => nest(mid, second),
            None => None,
        },
    decreases second.len(),
{
    if second.len() == 0 {
        assert(first + second =~= first);
    } else {
        lemma_nest_concat(open, first, second.drop_last());
        assert((first + second).drop_last() =~= first + second.drop_last());
    }
}

/// Nesting no event, one event, two events.
pub proof fn lemma_nest_few(open: Seq<Frame>, first: Event, second: Event)
    ensures
        nest(open, seq![]) == Some(open),
        nest(open, seq![first]) == after_event(open, first),
        nest(open, seq![first, second]) == match after_event(open, first) {
            Some(mid) => after_event(mid, second),
            None => None,
        },
{
    assert(seq![first].drop_last() =~= Seq::<Event>::empty());
    assert(seq![first, second].drop_last() =~= seq![first]);
}

/// The depth never goes negative: where events are correctly nested, so
/// is every beginning of them.
pub proof fn lemma_nest_prefix(open: Seq<Frame>, events: Seq<Event>, k: int)
    requires
        nest(open, events) is Some,
        0 <= k <= events.len(),
    ensures
        nest(open, events.take(k)) is Some,
    decreases events.len(),
{
    if k == events.len() {
        assert(events.take(k) =~= events);
    } else {
        assert(events.drop_last().take(k) =~= events.take(k));
        lemma_nest_prefix(open, events.drop_last(), k);
    }
}

/// Correctly nested events are balanced: each begin event adds a
/// container of its kind and each end event takes one away, so that the
/// begin events and the containers open before are as many as the end
/// events and the containers left open.
pub proof fn lemma_nest_balance(open: Seq<Frame>, events: Seq<Event>)
    requires
        nest(open, events) is Some,
    ensures
        ({
            let left = nest(open, events)->Some_0;
            let given = events.to_multiset();
            &&& given.count(Event::ObjectBegin) + open.to_multiset().count(Frame::ObjectOpen)
                == given.count(Event::ObjectEnd) + left.to_multiset().count(Frame::ObjectOpen)
            &&& given.count(Event::ArrayBegin) + open.to_multiset().count(Frame::ArrayOpen)
                == given.count(Event::ArrayEnd) + left.to_multiset().count(Frame::ArrayOpen)
        }),
    decreases events.len(),
{
    broadcast use vstd::seq_lib::to_multiset_build;

    if events.len() == 0 {
        assert(events.to_multiset().len() == 0) by {
            events.to_multiset_ensures();
        }
    } else {
        let earlier = events.drop_last();
        let mid = nest(open, earlier)->Some_0;
        lemma_nest_balance(open, earlier);
        assert(events =~= earlier.push(events.last()));
        let left = nest(open, events)->Some_0;
        match events.last() {
            Event::ObjectBegin | Event::ArrayBegin => {},
            Event::ObjectEnd | Event::ArrayEnd => {
                assert(mid =~= left.push(mid.last()));
            },
            _ => {},
        }
    }
}

/// The traversal of a value opens and closes its own containers and no
/// others: it is correctly nested, whatever was open before, and leaves
/// open what was.
pub proof fn lemma_traversal_nests(v: Json, open: Seq<Frame>)
    ensures
        nest(open, traversal(v)) == Some(open),
    decreases v, 1int,
{
    match v {
        Json::Array { pad, elements } => {
            lemma_nest_few(open, Event::ArrayBegin, Event::ArrayBegin);
            lemma_elements_nest(elements, 0, open);
            lemma_nest_concat(open, seq![Event::ArrayBegin], traversal_of_elements(elements, 0));
        },
        Json::Object { pad, members } => {
            lemma_nest_few(open, Event::ObjectBegin, Event::ObjectBegin);
            lemma_members_nest(members, 0, open);
            lemma_nest_concat(open, seq![Event::ObjectBegin], traversal_of_members(members, 0));
        },
        _ => {
            lemma_nest_few(open, traversal(v)[0], Event::ArrayBegin);
            assert(traversal(v) =~= seq![traversal(v)[0]]);
        },
    }
}

/// The events of the elements of an array from the `k`-th on, with the
/// end of the array, close the array and nothing else.
proof fn lemma_elements_nest(elements: Seq<Element>, k: int, open: Seq<Frame>)
    requires
        0 <= k,
    ensures
        nest(open.push(Frame::ArrayOpen), traversal_of_elements(elements, k)) == Some(open),
    decreases elements, elements.len() - k,
{
    let inner = open.push(Frame::ArrayOpen);
    if k < elements.len() {
        lemma_traversal_nests(elements[k].item.value, inner);
        lemma_elements_nest(elements, k + 1, open);
        lemma_nest_concat(
            inner,
            traversal(elements[k].item.value),
            traversal_of_elements(elements, k + 1),
        );
    } else {
        lemma_nest_few(inner, Event::ArrayEnd, Event::ArrayEnd);
        assert(inner.drop_last() =~= open);
    }
}

/// The events of the members of an object from the `k`-th on, with the
/// end of the object, close the object and nothing else.
proof fn lemma_members_nest(members: Seq<Member>, k: int, open: Seq<Frame>)
    requires
        0 <= k,
    ensures
        nest(open.push(Frame::ObjectOpen), traversal_of_members(members, k)) == Some(open),
    decreases members, members.len() - k,
{
    let inner = open.push(Frame::ObjectOpen);
    if k < members.len() {
        let named = seq![Event::Key(decode_utf8(unescaped(members[k].key)))];
        let value = traversal(members[k].item.value);
        let rest = traversal_of_members(members, k + 1);
        lemma_nest_few(inner, named[0], Event::ArrayBegin);
        lemma_traversal_nests(members[k].item.value, inner);
        lemma_members_nest(members, k + 1, open);
        lemma_nest_concat(inner, named, value);
        lemma_nest_concat(inner, named + value, rest);
    } else {
        lemma_nest_few(inner, Event::ObjectEnd, Event::ObjectEnd);
        assert(inner.drop_last() =~= open);
    }
}

/// The begin and end events that a well-formed document gives, be it
/// followed by the whitespace `tail` or by nothing, are correctly nested
/// and balanced: each end event closes the container of its kind that
/// was opened last and is still open, so that the depth never goes below
/// zero; at the end nothing is left open; and of each kind there are as
/// many end events as begin events.
pub proof fn lemma_document_is_nested(doc: Json, tail: Seq<u8>)
    requires
        is_document(doc),
        blank(tail),
    ensures
        ({
            let events = run(Seq::<Frame>::empty(), written(doc) + tail).events;
            let given = events.to_multiset();
            &&& nest(Seq::<Frame>::empty(), events) == Some(Seq::<Frame>::empty())
            &&& forall|k: int|
                0 <= k <= events.len() ==> nest(Seq::<Frame>::empty(), #[trigger] events.take(k))
                    is Some
            &&& given.count(Event::ObjectBegin) == given.count(Event::ObjectEnd)
            &&& given.count(Event::ArrayBegin) == given.count(Event::ArrayEnd)
        }),
{
    let empty = Seq::<Frame>::empty();
    let events = run(empty, written(doc) + tail).events;
    lemma_document_read(doc, tail);
    lemma_traversal_nests(doc, empty);
    lemma_nest_balance(empty, events);
    assert forall|k: int| 0 <= k <= events.len() implies nest(empty, #[trigger] events.take(k))
        is Some by {
        lemma_nest_prefix(empty, events, k);
    }
}

/// While a well-formed document and the whitespace `tail` that may
/// follow it are being read, at whatever byte the reading has arrived,
/// the events given so far are correctly nested, and the containers that
/// they have left open are the containers open on the stack: the depth
/// of nesting is the number of container frames on the stack.
pub proof fn lemma_document_keeps_depth(doc: Json, tail: Seq<u8>, n: int)
    requires
        is_document(doc),
        blank(tail),
        0 <= n <= (written(doc) + tail).len(),
    ensures
        ({
            let sofar = run(Seq::<Frame>::empty(), (written(doc) + tail).take(n));
            &&& sofar.failure is None
            &&& nest(Seq::<Frame>::empty(), sofar.events) == Some(open_containers(sofar.stack))
        }),
{
    let empty = Seq::<Frame>::empty();
    let whole = written(doc) + tail;
    lemma_document_read(doc, tail);
    lemma_run_split(empty, whole.take(n), whole.skip(n));
    assert(whole.take(n) + whole.skip(n) =~= whole);
    lemma_orderly_prefix(empty, whole, n);
    lemma_orderly_from_start(whole.take(n));
}

} // verus!
