//! What the open spans go through.

use vstd::prelude::*;

use crate::assoc::{distinct, put_all};
use crate::events::{recorded, total, EventView};
use crate::events::law_increase_adds_to_one_counter;
use crate::layer::{elapsed, Parent};
use crate::node::{blank, well_formed, SpanView, DURATION_MAX};
use crate::state::StateView;

verus! {

/// A node is well formed where another of the same time, events and children is.
proof fn lemma_well_formed_like(node: SpanView, other: SpanView)
    requires
        well_formed(other),
        node.duration <= DURATION_MAX,
        distinct(node.events),
        node.children == other.children,
    ensures
        well_formed(node),
{
    assert forall|i: int| 0 <= i < node.children.len() implies well_formed(
        #[trigger] node.children[i],
    ) by {
        assert(well_formed(other.children[i]));
    }
}

/// The state that a layer starts from is well formed.
pub proof fn law_initial_state_is_well_formed()
    ensures
        StateView::initial().well_formed(),
{
}

/// Making a span keeps the state well formed.
pub proof fn law_new_span_keeps_well_formed(
    state: StateView,
    id: u64,
    fields: Seq<(Seq<char>, Seq<char>)>,
)
    requires
        state.well_formed(),
    ensures
        state.after_new_span(id, fields).well_formed(),
{
    let after = state.after_new_span(id, fields);
    assert(well_formed(after.unfinished[id]));
    assert forall|other: u64| #[trigger] after.unfinished.contains_key(other) implies well_formed(
        after.unfinished[other],
    ) by {
        if other != id {
            assert(state.unfinished.contains_key(other));
        }
    }
}

/// Recording fields keeps the state well formed.
pub proof fn law_record_keeps_well_formed(
    state: StateView,
    id: u64,
    fields: Seq<(Seq<char>, Seq<char>)>,
)
    requires
        state.well_formed(),
    ensures
        state.after_record(id, fields).well_formed(),
{
    let after = state.after_record(id, fields);
    assert forall|other: u64| #[trigger] after.unfinished.contains_key(other) implies well_formed(
        after.unfinished[other],
    ) by {
        assert(state.unfinished.contains_key(other));
        lemma_well_formed_like(after.unfinished[other], state.unfinished[other]);
    }
}

/// Entering a span keeps the state well formed.
pub proof fn law_enter_keeps_well_formed(state: StateView, thread: u64, id: u64, now: u128)
    requires
        state.well_formed(),
    ensures
        state.after_enter(thread, id, now).well_formed(),
{
    let after = state.after_enter(thread, id, now);
    assert forall|other: u64| #[trigger] after.unfinished.contains_key(other) implies well_formed(
        after.unfinished[other],
    ) by {
        assert(state.unfinished.contains_key(other));
        lemma_well_formed_like(after.unfinished[other], state.unfinished[other]);
    }
}

/// Leaving a span, at a reading of the clock that is a duration, keeps the state well
/// formed and prints a well-formed graph.
pub proof fn law_exit_keeps_well_formed(
    state: StateView,
    main_thread: u64,
    thread: u64,
    id: u64,
    name: Seq<char>,
    parent: Parent,
    now: u128,
)
    requires
        state.well_formed(),
        now <= DURATION_MAX,
    ensures
        state.after_exit(main_thread, thread, id, name, parent, now).well_formed(),
        state.graph_of_exit(main_thread, thread, id, name, parent, now) matches Some(graph)
            ==> well_formed(graph),
{
    let node = state.finished(id, name, now);
    if state.unfinished.contains_key(id) {
        lemma_well_formed_like(node, state.unfinished[id]);
    } else {
        assert(well_formed(node));
    }
    let after = state.after_exit(main_thread, thread, id, name, parent, now);
    assert forall|other: u64| #[trigger] after.unfinished.contains_key(other) implies well_formed(
        after.unfinished[other],
    ) by {
        assert(state.unfinished.contains_key(other));
        let before = state.unfinished[other];
        let now_open = after.unfinished[other];
        assert forall|i: int| 0 <= i < now_open.children.len() implies well_formed(
            #[trigger] now_open.children[i],
        ) by {
            if i < before.children.len() {
                assert(well_formed(before.children[i]));
            }
        }
    }
}

/// Counting an event keeps the state well formed.
pub proof fn law_event_keeps_well_formed(
    state: StateView,
    thread: u64,
    is_root: bool,
    parent: Option<u64>,
    context: Option<u64>,
    event: EventView,
)
    requires
        state.well_formed(),
        state.after_event(thread, is_root, parent, context, event) is Some,
    ensures
        (state.after_event(thread, is_root, parent, context, event)->0).well_formed(),
{
    if !is_root {
        let after = state.after_event(thread, is_root, parent, context, event)->0;
        match state.event_target(thread, parent, context) {
            Some(id) => {
                if state.unfinished.contains_key(id) {
                    let node = state.unfinished[id];
                    law_increase_adds_to_one_counter(node.events, event.key(), event.step());
                    lemma_well_formed_like(after.unfinished[id], node);
                }
                assert forall|other: u64| #[trigger]
                    after.unfinished.contains_key(other) implies well_formed(
                    after.unfinished[other],
                ) by {
                    assert(state.unfinished.contains_key(other));
                }
            },
            None => {
                law_increase_adds_to_one_counter(state.zero_level, event.key(), event.step());
                assert forall|other: u64| #[trigger]
                    after.unfinished.contains_key(other) implies well_formed(
                    after.unfinished[other],
                ) by {
                    assert(state.unfinished.contains_key(other));
                }
            },
        }
    }
}

/// A captured span that was made, entered and left is no longer open. It hangs below its
/// open parent, as the last child, with its name, its fields, one call and the time between
/// entering and leaving; the parent is otherwise as it was, and so is every other span.
pub proof fn law_a_span_ends_up_below_its_parent(
    state: StateView,
    main_thread: u64,
    thread: u64,
    id: u64,
    name: Seq<char>,
    fields: Seq<(Seq<char>, Seq<char>)>,
    named: Parent,
    parent: u64,
    start: u128,
    now: u128,
)
    requires
        named.id() == Some(parent),
        named.captured(main_thread, thread),
        id != parent,
        state.unfinished.contains_key(parent),
        start <= now,
    ensures
        ({
            let entered = state.after_new_span(id, fields).after_enter(thread, id, start);
            let after = entered.after_exit(main_thread, thread, id, name, named, now);
            let node = SpanView {
                started: Some(start),
                duration: (now - start) as u128,
                metadata: put_all(seq![], fields),
                calls: 1,
                ..blank(name)
            };
            &&& !after.unfinished.contains_key(id)
            &&& after.unfinished[parent] == (SpanView {
                children: state.unfinished[parent].children.push(node),
                ..state.unfinished[parent]
            })
            &&& after.current_span(thread) == Some(parent)
            &&& entered.graph_of_exit(main_thread, thread, id, name, named, now) is None
            &&& forall|other: u64|
                other != id && other != parent ==> (#[trigger] after.unfinished.contains_key(other)
                    <==> state.unfinished.contains_key(other)) && (state.unfinished.contains_key(
                    other,
                ) ==> after.unfinished[other] == state.unfinished[other])
        }),
{
    let made = state.after_new_span(id, fields);
    let entered = made.after_enter(thread, id, start);
    assert(made.unfinished.contains_key(id));
    assert(entered.unfinished.contains_key(id));
    assert(entered.unfinished[parent] == state.unfinished[parent]);
    let node = entered.finished(id, name, now);
    assert(node.duration == elapsed(Some(start), now));
}

/// A span whose parent is not open is printed when it is left on the main thread, and is
/// no longer open then; no other open span changes.
pub proof fn law_a_span_without_open_parent_is_printed(
    state: StateView,
    main_thread: u64,
    id: u64,
    name: Seq<char>,
    parent: Parent,
    now: u128,
)
    requires
        !state.takes_in(id, parent.id()),
    ensures
        state.graph_of_exit(main_thread, main_thread, id, name, parent, now) == Some(
            state.finished(id, name, now),
        ),
        state.after_exit(main_thread, main_thread, id, name, parent, now).unfinished
            == state.unfinished.remove(id),
{
}

/// Spans of all threads are captured where their parent was named: leaving such a span
/// does the same to the open spans, and prints the same, on every thread.
pub proof fn law_spans_with_an_explicit_parent_are_captured_on_all_threads(
    state: StateView,
    main_thread: u64,
    thread: u64,
    id: u64,
    name: Seq<char>,
    parent: u64,
    now: u128,
)
    ensures
        ({
            let named = Parent::Explicit(parent);
            let here = state.after_exit(main_thread, thread, id, name, named, now);
            let there = state.after_exit(main_thread, main_thread, id, name, named, now);
            &&& here.unfinished == there.unfinished
            &&& state.graph_of_exit(main_thread, thread, id, name, named, now)
                == state.graph_of_exit(main_thread, main_thread, id, name, named, now)
        }),
{
}

/// On another thread, a span whose parent is merely the span that the thread was in is not
/// captured: nothing is printed, and all that changes is that the thread is in the parent.
pub proof fn law_contextual_spans_of_other_threads_are_not_captured(
    state: StateView,
    main_thread: u64,
    thread: u64,
    id: u64,
    name: Seq<char>,
    parent: u64,
    now: u128,
)
    requires
        thread != main_thread,
    ensures
        ({
            let context = Parent::Contextual(parent);
            &&& state.after_exit(main_thread, thread, id, name, context, now)
                == state.with_current_span(thread, Some(parent))
            &&& state.graph_of_exit(main_thread, thread, id, name, context, now) is None
        }),
{
}

/// A thread that has left a span is in the parent of that span, whatever became of it. An
/// event that then occurs there and names no span belongs to that parent, or to no span
/// where there is none.
pub proof fn law_a_thread_returns_to_the_parent(
    state: StateView,
    main_thread: u64,
    thread: u64,
    id: u64,
    name: Seq<char>,
    parent: Parent,
    now: u128,
)
    ensures
        ({
            let after = state.after_exit(main_thread, thread, id, name, parent, now);
            &&& after.current_span(thread) == parent.id()
            &&& after.event_target(thread, None, None) == parent.id()
        }),
{
}

/// A span without a parent that is left on another thread hangs below the open span that
/// the main thread is in, as its last child. Nothing is printed, the span is no longer
/// open, its thread is in no span, and everything else is as it was.
pub proof fn law_a_span_without_parent_on_another_thread_joins_the_main_thread(
    state: StateView,
    main_thread: u64,
    thread: u64,
    id: u64,
    name: Seq<char>,
    below: u64,
    now: u128,
)
    requires
        thread != main_thread,
        state.current_span(main_thread) == Some(below),
        below != id,
        state.unfinished.contains_key(below),
    ensures
        ({
            let after = state.after_exit(main_thread, thread, id, name, Parent::Root, now);
            &&& state.graph_of_exit(main_thread, thread, id, name, Parent::Root, now) is None
            &&& !after.unfinished.contains_key(id)
            &&& after.unfinished.contains_key(below)
            &&& after.unfinished[below] == (SpanView {
                children: state.unfinished[below].children.push(state.finished(id, name, now)),
                ..state.unfinished[below]
            })
            &&& after.current_span(thread) is None
            &&& after.current_span(main_thread) == Some(below)
            &&& after.zero_level == state.zero_level
            &&& forall|other: u64|
                other != id && other != below ==> (#[trigger] after.unfinished.contains_key(other)
                    <==> state.unfinished.contains_key(other)) && (state.unfinished.contains_key(
                    other,
                ) ==> after.unfinished[other] == state.unfinished[other])
        }),
{
}

/// While the main thread is in no open span, leaving a span without a parent on another
/// thread prints nothing and leaves all open spans as they are; that thread is in no span
/// then.
pub proof fn law_a_span_without_parent_on_another_thread_waits_without_main_span(
    state: StateView,
    main_thread: u64,
    thread: u64,
    id: u64,
    name: Seq<char>,
    now: u128,
)
    requires
        thread != main_thread,
        state.current_span(main_thread) matches Some(below) ==> below == id
            || !state.unfinished.contains_key(below),
    ensures
        state.after_exit(main_thread, thread, id, name, Parent::Root, now)
            == state.with_current_span(thread, None),
        state.graph_of_exit(main_thread, thread, id, name, Parent::Root, now) is None,
{
}

/// An event that names no span is attached to the current span of its thread: entering a
/// span makes it the one whose counter grows.
pub proof fn law_events_go_to_the_current_span(
    state: StateView,
    thread: u64,
    id: u64,
    now: u128,
    event: EventView,
)
    requires
        state.well_formed(),
        state.unfinished.contains_key(id),
        recorded(state.unfinished[id].events, event) is Some,
    ensures
        ({
            let entered = state.after_enter(thread, id, now);
            let after = entered.after_event(thread, false, None, None, event);
            &&& entered.current_span(thread) == Some(id)
            &&& after is Some
            &&& total((after->0).unfinished[id].events, event.key()) == total(
                state.unfinished[id].events,
                event.key(),
            ) + event.step()
            &&& forall|other: u64|
                other != id && #[trigger] state.unfinished.contains_key(other) ==> (
                after->0).unfinished[other] == state.unfinished[other]
        }),
{
    assert(well_formed(state.unfinished[id]));
    law_increase_adds_to_one_counter(state.unfinished[id].events, event.key(), event.step());
}

/// What one thread enters or leaves does not change the span that another thread is in.
pub proof fn law_threads_have_their_own_current_span(
    state: StateView,
    main_thread: u64,
    thread: u64,
    other: u64,
    id: u64,
    name: Seq<char>,
    parent: Parent,
    now: u128,
)
    requires
        other != thread,
    ensures
        state.after_enter(thread, id, now).current_span(other) == state.current_span(other),
        state.after_exit(main_thread, thread, id, name, parent, now).current_span(other)
            == state.current_span(other),
{
}

/// Events outside of any span are listed once: when a span is entered they are listed and
/// forgotten.
pub proof fn law_zero_level_events_are_listed_once(
    state: StateView,
    thread: u64,
    id: u64,
    now: u128,
)
    ensures
        state.after_enter(thread, id, now).zero_level_text() is None,
        state.after_zero_level_events().zero_level_text() is None,
        state.after_zero_level_events().unfinished == state.unfinished,
        state.after_zero_level_events().current == state.current,
{
}

} // verus!
