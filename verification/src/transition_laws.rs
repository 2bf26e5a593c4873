//! What each step does to the open spans, and what it leaves alone.

use vstd::prelude::*;

use crate::events::{count_texts, recorded, EventView};
use crate::layer::{elapsed, Parent};
use crate::node::SpanView;
use crate::state::{span_table, State, StateView};
use crate::text::{joined, signed_decimal};
use crate::text_laws::law_joining_puts_the_separator_between;

verus! {

/// What a state holds is the current span of each thread, the open spans, and the counts
/// outside of any span.
pub proof fn law_a_state_holds_its_parts(state: State)
    ensures
        state@.current == state.current_span_per_thread@,
        state@.unfinished == span_table(state.unfinished_spans),
        state@.zero_level == state.zero_level_events@,
        StateView::initial() == (StateView {
            current: Map::empty(),
            unfinished: Map::empty(),
            zero_level: Seq::empty(),
        }),
{
}

/// A thread is in the span that was noted for it last, and in no span before that.
pub proof fn law_a_thread_is_in_the_span_noted_last(
    state: StateView,
    thread: u64,
    other: u64,
    span: Option<u64>,
)
    ensures
        !state.current.contains_key(thread) ==> state.current_span(thread) is None,
        state.current.contains_key(thread) ==> state.current_span(thread) == state.current[thread],
        ({
            let after = state.with_current_span(thread, span);
            &&& after.current_span(thread) == span
            &&& other != thread ==> after.current_span(other) == state.current_span(other)
            &&& after.unfinished == state.unfinished
            &&& after.zero_level == state.zero_level
        }),
{
}

/// A parent has a number unless it is the root, however it was given.
pub proof fn law_parents_have_numbers(id: u64)
    ensures
        Parent::Root.id() is None,
        Parent::Contextual(id).id() == Some(id),
        Parent::Explicit(id).id() == Some(id),
{
}

/// Entering a span puts the thread into it, forgets the events outside of any span, and notes
/// the time on the span where that is open, entered before or not. Nothing else of the span
/// changes, and nothing else of the state.
pub proof fn law_entering_notes_the_time(
    state: StateView,
    thread: u64,
    id: u64,
    now: u128,
)
    ensures
        ({
            let after = state.after_enter(thread, id, now);
            &&& after.current == state.current.insert(thread, Some(id))
            &&& after.zero_level == Seq::<(Seq<char>, i64)>::empty()
            &&& after.unfinished.dom() == state.unfinished.dom()
            &&& state.unfinished.contains_key(id) ==> {
                let node = after.unfinished[id];
                &&& node.started == Some(now)
                &&& node.name == state.unfinished[id].name
                &&& node.duration == state.unfinished[id].duration
                &&& node.metadata == state.unfinished[id].metadata
                &&& node.events == state.unfinished[id].events
                &&& node.children == state.unfinished[id].children
                &&& node.calls == state.unfinished[id].calls
            }
            &&& forall|other: u64|
                other != id && #[trigger] state.unfinished.contains_key(other)
                    ==> after.unfinished[other] == state.unfinished[other]
        }),
{
    let after = state.after_enter(thread, id, now);
    assert(after.unfinished.dom() =~= state.unfinished.dom());
}

/// The time between two readings of the clock is their difference, and zero where the clock
/// went back or the first reading is missing.
pub proof fn law_elapsed_is_the_difference(start: u128, now: u128)
    ensures
        elapsed(None, now) == 0,
        start <= now ==> elapsed(Some(start), now) == now - start,
        start > now ==> elapsed(Some(start), now) == 0,
{
}

/// A span that is left has the name it is left under and the time since it was entered, zero
/// where it was not or where the clock went back. All else is what the open span has; one that
/// is not open has no fields, events, children or calls.
pub proof fn law_a_left_span_has_its_name_and_time(
    state: StateView,
    id: u64,
    name: Seq<char>,
    now: u128,
)
    ensures
        ({
            let node = state.finished(id, name, now);
            &&& node.name == name
            &&& state.unfinished.contains_key(id) ==> {
                let open = state.unfinished[id];
                &&& node.started == open.started
                &&& open.started is None ==> node.duration == 0
                &&& open.started matches Some(start) ==> (start <= now ==> node.duration == now
                    - start) && (start > now ==> node.duration == 0)
                &&& node.metadata == open.metadata
                &&& node.events == open.events
                &&& node.children == open.children
                &&& node.calls == open.calls
            }
            &&& !state.unfinished.contains_key(id) ==> node == (SpanView {
                name,
                started: None,
                duration: 0,
                metadata: Seq::empty(),
                events: Seq::empty(),
                children: Seq::empty(),
                calls: 0,
            })
        }),
{
}

/// Leaving a span puts the thread into the parent, or into no span where there is none, keeps
/// the span of every other thread, and keeps the events outside of any span.
pub proof fn law_leaving_moves_only_the_thread(
    state: StateView,
    main_thread: u64,
    thread: u64,
    id: u64,
    name: Seq<char>,
    parent: Parent,
    now: u128,
)
    ensures
        ({
            let after = state.after_exit(main_thread, thread, id, name, parent, now);
            &&& parent is Root ==> after.current == state.current.insert(thread, None)
            &&& parent matches Parent::Contextual(p) ==> after.current == state.current.insert(
                thread,
                Some(p),
            )
            &&& parent matches Parent::Explicit(p) ==> after.current == state.current.insert(
                thread,
                Some(p),
            )
            &&& after.zero_level == state.zero_level
        }),
{
}

/// A span that is left below an open span, on the main thread or with a parent that was named,
/// is printed no more: it is the last child of that span, which is otherwise as it was, and it
/// is no longer open itself. No other open span changes.
pub proof fn law_a_left_span_is_the_last_child(
    state: StateView,
    main_thread: u64,
    thread: u64,
    id: u64,
    name: Seq<char>,
    parent: u64,
    now: u128,
)
    requires
        parent != id,
        state.unfinished.contains_key(parent),
    ensures
        forall|given: Parent|
            given == Parent::Explicit(parent) || given == Parent::Contextual(parent) && thread
                == main_thread ==> {
                let after = #[trigger] state.after_exit(
                    main_thread,
                    thread,
                    id,
                    name,
                    given,
                    now,
                );
                &&& state.graph_of_exit(main_thread, thread, id, name, given, now) is None
                &&& after.unfinished.dom() == state.unfinished.dom().remove(id)
                &&& after.unfinished[parent] == (SpanView {
                    children: state.unfinished[parent].children.push(
                        state.finished(id, name, now),
                    ),
                    ..state.unfinished[parent]
                })
                &&& forall|other: u64|
                    other != id && other != parent && #[trigger] state.unfinished.contains_key(
                        other,
                    ) ==> after.unfinished[other] == state.unfinished[other]
            },
{
    assert forall|given: Parent|
        given == Parent::Explicit(parent) || given == Parent::Contextual(parent) && thread
            == main_thread implies (#[trigger] state.after_exit(
        main_thread,
        thread,
        id,
        name,
        given,
        now,
    )).unfinished.dom() == state.unfinished.dom().remove(id) by {
        let after = state.after_exit(main_thread, thread, id, name, given, now);
        assert(after.unfinished.dom() =~= state.unfinished.dom().remove(id));
    }
}

/// A span that is left without an open parent, on the main thread or with a parent that was
/// named, is printed with everything below it. It is no longer open, and no open span changes.
pub proof fn law_a_left_span_without_open_parent_is_printed(
    state: StateView,
    main_thread: u64,
    thread: u64,
    id: u64,
    name: Seq<char>,
    parent: Parent,
    now: u128,
)
    requires
        thread == main_thread || parent is Explicit,
        parent matches Parent::Contextual(p) ==> p == id || !state.unfinished.contains_key(p),
        parent matches Parent::Explicit(p) ==> p == id || !state.unfinished.contains_key(p),
    ensures
        state.graph_of_exit(main_thread, thread, id, name, parent, now) == Some(
            state.finished(id, name, now),
        ),
        state.after_exit(main_thread, thread, id, name, parent, now).unfinished
            == state.unfinished.remove(id),
{
}

/// An event belongs to the span it names, else to the span that the dispatcher is in, else to
/// the span that its thread is in.
pub proof fn law_whom_an_event_belongs_to(
    state: StateView,
    thread: u64,
    span: u64,
    context: Option<u64>,
)
    ensures
        state.event_target(thread, Some(span), context) == Some(span),
        state.event_target(thread, None, Some(span)) == Some(span),
        state.current.contains_key(thread) ==> state.event_target(thread, None, None)
            == state.current[thread],
        !state.current.contains_key(thread) ==> state.event_target(thread, None, None) is None,
{
}

/// An event changes the counts of the open span it belongs to and nothing else. One that
/// belongs to no span changes the counts outside of any span and nothing else. A root event,
/// and one that belongs to a span that is not open, changes nothing.
pub proof fn law_an_event_changes_one_place(
    state: StateView,
    thread: u64,
    parent: Option<u64>,
    context: Option<u64>,
    event: EventView,
)
    ensures
        state.after_event(thread, true, parent, context, event) == Some(state),
        state.event_target(thread, parent, context) matches Some(id) ==> {
            let after = state.after_event(thread, false, parent, context, event);
            &&& !state.unfinished.contains_key(id) ==> after == Some(state)
            &&& state.unfinished.contains_key(id) ==> {
                let counts = recorded(state.unfinished[id].events, event);
                &&& counts is None <==> after is None
                &&& after matches Some(changed) ==> {
                    let node = changed.unfinished[id];
                    &&& Some(node.events) == counts
                    &&& node.name == state.unfinished[id].name
                    &&& node.started == state.unfinished[id].started
                    &&& node.duration == state.unfinished[id].duration
                    &&& node.metadata == state.unfinished[id].metadata
                    &&& node.children == state.unfinished[id].children
                    &&& node.calls == state.unfinished[id].calls
                    &&& changed.unfinished.dom() == state.unfinished.dom()
                    &&& changed.current == state.current
                    &&& changed.zero_level == state.zero_level
                    &&& forall|other: u64|
                        other != id && #[trigger] state.unfinished.contains_key(other)
                            ==> changed.unfinished[other] == state.unfinished[other]
                }
            }
        },
        state.event_target(thread, parent, context) is None ==> {
            let after = state.after_event(thread, false, parent, context, event);
            let counts = recorded(state.zero_level, event);
            &&& counts is None <==> after is None
            &&& after matches Some(changed) ==> {
                &&& Some(changed.zero_level) == counts
                &&& changed.unfinished == state.unfinished
                &&& changed.current == state.current
            }
        },
{
    if let Some(id) = state.event_target(thread, parent, context) {
        if state.unfinished.contains_key(id) {
            let after = state.after_event(thread, false, parent, context, event);
            if let Some(changed) = after {
                assert(changed.unfinished.dom() =~= state.unfinished.dom());
            }
        }
    }
}

/// The list of events outside of any span has one line for each counter, in order: a mark, the
/// name, and the number. There is no list where there is no counter.
pub proof fn law_events_outside_of_spans_are_listed_line_by_line(state: StateView)
    ensures
        state.zero_level.len() == 0 ==> state.zero_level_text() is None,
        state.zero_level.len() > 0 ==> state.zero_level_text() == Some(
            Seq::new(
                state.zero_level.len(),
                |i: int|
                    "> "@ + state.zero_level[i].0 + ": "@ + signed_decimal(
                        state.zero_level[i].1 as int,
                    ) + "\n"@,
            ).flatten(),
        ),
        state.after_zero_level_events() == (StateView {
            current: state.current,
            unfinished: state.unfinished,
            zero_level: Seq::empty(),
        }),
{
    if state.zero_level.len() > 0 {
        reveal_strlit("> ");
        reveal_strlit("\n");
        reveal_strlit("\n> ");
        assert("\n> "@ =~= "\n"@ + "> "@);
        let parts = count_texts(state.zero_level);
        lemma_joined_lines(parts, "> "@, "\n"@);
        let lines = Seq::new(parts.len(), |i: int| "> "@ + parts[i] + "\n"@);
        let stated = Seq::new(
            state.zero_level.len(),
            |i: int|
                "> "@ + state.zero_level[i].0 + ": "@ + signed_decimal(
                    state.zero_level[i].1 as int,
                ) + "\n"@,
        );
        assert forall|i: int| 0 <= i < lines.len() implies lines[i] == stated[i] by {
            assert(lines[i] =~= stated[i]);
        }
        assert(lines =~= stated);
    }
}

/// Parts that are joined by the end of one line and the start of the next are lines.
proof fn lemma_joined_lines(parts: Seq<Seq<char>>, start: Seq<char>, end: Seq<char>)
    requires
        parts.len() > 0,
    ensures
        start + joined(parts, end + start) + end == Seq::new(
            parts.len(),
            |i: int| start + parts[i] + end,
        ).flatten(),
    decreases parts.len(),
{
    let init = parts.drop_last();
    let last = parts.last();
    let lines = Seq::new(parts.len(), |i: int| start + parts[i] + end);
    let before = Seq::new(init.len(), |i: int| start + init[i] + end);
    let line = start + last + end;
    law_joining_puts_the_separator_between(init, last, end + start);
    assert(parts =~= init.push(last));
    assert(lines =~= before.push(line));
    before.lemma_flatten_push(line);
    if init.len() == 0 {
        assert(parts =~= seq![last]);
        assert(before =~= Seq::empty());
        assert(before.flatten() =~= Seq::empty());
        assert(start + joined(parts, end + start) + end =~= lines.flatten());
    } else {
        lemma_joined_lines(init, start, end);
        let done = start + joined(init, end + start) + end;
        assert(start + joined(parts, end + start) + end =~= done + line);
    }
}

} // verus!
