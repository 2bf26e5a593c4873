//! What happens to the open spans as spans are made, entered and left, and as events
//! occur.

use vstd::prelude::*;

use crate::assoc::put_all;
use crate::config::Config;
use crate::events::{recorded, Event, EventView};
use crate::metadata::store_fields;
use crate::node::lemma_children_view;
use crate::node::{blank, node_views, GraphNode, SpanView};
use crate::render::text_view;
use crate::state::{insert_span, remove_span, span_mut, span_table, State, StateView};
use crate::text::text_pairs;

verus! {

/// Builds call graphs out of spans and events.
///
/// Spans that are left on the main thread are captured, and so are those of other threads
/// that were given their parent explicitly. A span without a parent that is left on
/// another thread hangs below the span that the main thread is in, where that is open.
/// Other spans of other threads are not captured. Events are attached to the current span
/// of the thread they occur on.
#[derive(Debug)]
pub struct Layer {
    pub main_thread: u64,
    pub config: Config,
}

/// The parent of a span, and how it came by it.
#[derive(Debug, Clone, Copy, PartialEq, Eq, Structural)]
pub enum Parent {
    /// The span has no parent.
    Root,
    /// The parent is the span that the thread was in when the span was made.
    Contextual(u64),
    /// The parent was named when the span was made.
    Explicit(u64),
}

impl Parent {
    /// The number of the parent.
    pub open spec fn spec_id(self) -> Option<u64> {
        match self {
            Parent::Root => None,
            Parent::Contextual(id) => Some(id),
            Parent::Explicit(id) => Some(id),
        }
    }

    /// The number of the parent.
    #[verifier::when_used_as_spec(spec_id)]
    pub fn id(self) -> (id: Option<u64>)
        ensures
            id == self.spec_id(),
    {
        match self {
            Parent::Root => None,
            Parent::Contextual(id) => Some(id),
            Parent::Explicit(id) => Some(id),
        }
    }

    /// Whether a span with this parent is captured in every state: it is left on the main
    /// thread, or the parent was named.
    pub open spec fn captured(self, main_thread: u64, thread: u64) -> bool {
        thread == main_thread || self is Explicit
    }
}

/// The time between two readings of the clock, zero where the first reading is missing or
/// not the earlier one.
pub open spec fn elapsed(started: Option<u128>, now: u128) -> u128 {
    match started {
        Some(start) => if start <= now {
            (now - start) as u128
        } else {
            0
        },
        None => 0,
    }
}

impl StateView {
    /// The state once a span with the given fields has been made.
    pub open spec fn after_new_span(
        self,
        id: u64,
        fields: Seq<(Seq<char>, Seq<char>)>,
    ) -> StateView {
        let node = SpanView { calls: 1, metadata: put_all(seq![], fields), ..blank(seq![]) };
        StateView { unfinished: self.unfinished.insert(id, node), ..self }
    }

    /// The state once more fields have been recorded on a span. A span that is not open
    /// has none.
    pub open spec fn after_record(self, id: u64, fields: Seq<(Seq<char>, Seq<char>)>) -> StateView {
        if self.unfinished.contains_key(id) {
            let node = self.unfinished[id];
            let metadata = put_all(node.metadata, fields);
            StateView {
                unfinished: self.unfinished.insert(id, SpanView { metadata, ..node }),
                ..self
            }
        } else {
            self
        }
    }

    /// The state once a thread has entered a span.
    pub open spec fn after_enter(self, thread: u64, id: u64, now: u128) -> StateView {
        let entered = self.with_current_span(thread, Some(id)).after_zero_level_events();
        if self.unfinished.contains_key(id) {
            let node = SpanView { started: Some(now), ..self.unfinished[id] };
            StateView { unfinished: self.unfinished.insert(id, node), ..entered }
        } else {
            entered
        }
    }

    /// The node of a span that is left now.
    pub open spec fn finished(self, id: u64, name: Seq<char>, now: u128) -> SpanView {
        let node = if self.unfinished.contains_key(id) {
            self.unfinished[id]
        } else {
            blank(seq![])
        };
        SpanView { name, duration: elapsed(node.started, now), ..node }
    }

    /// The span that a span which is left hangs below: its parent or, for a span without a
    /// parent on a thread other than the main thread, the span that the main thread is in.
    pub open spec fn parent_at_exit(
        self,
        main_thread: u64,
        thread: u64,
        parent: Parent,
    ) -> Option<u64> {
        if thread != main_thread && parent is Root {
            self.current_span(main_thread)
        } else {
            parent.id()
        }
    }

    /// Whether one span hangs below the other when it is left: the other is open, and not
    /// the same.
    pub open spec fn takes_in(self, id: u64, parent: Option<u64>) -> bool {
        parent is Some && parent->0 != id && self.unfinished.contains_key(parent->0)
    }

    /// Whether leaving a span is captured: on the main thread, with a parent that was
    /// named, or without a parent while the main thread is in an open span.
    pub open spec fn captures_exit(
        self,
        main_thread: u64,
        thread: u64,
        id: u64,
        parent: Parent,
    ) -> bool {
        ||| parent.captured(main_thread, thread)
        ||| parent is Root && self.takes_in(id, self.current_span(main_thread))
    }

    /// The open spans once one of them has been left: it hangs below the given span where
    /// that is open.
    pub open spec fn unfinished_after_exit(
        self,
        id: u64,
        name: Seq<char>,
        parent: Option<u64>,
        now: u128,
    ) -> Map<u64, SpanView> {
        let open = self.unfinished.remove(id);
        if self.takes_in(id, parent) {
            let p = parent->0;
            let children = open[p].children.push(self.finished(id, name, now));
            open.insert(p, SpanView { children, ..open[p] })
        } else {
            open
        }
    }

    /// The state once a thread has left a span. The thread is in the parent then; the open
    /// spans change only where leaving the span is captured.
    pub open spec fn after_exit(
        self,
        main_thread: u64,
        thread: u64,
        id: u64,
        name: Seq<char>,
        parent: Parent,
        now: u128,
    ) -> StateView {
        let left = self.with_current_span(thread, parent.id());
        if self.captures_exit(main_thread, thread, id, parent) {
            let below = self.parent_at_exit(main_thread, thread, parent);
            StateView { unfinished: self.unfinished_after_exit(id, name, below, now), ..left }
        } else {
            left
        }
    }

    /// The call graph to print when a thread leaves a span: that of a captured span that
    /// hangs below no other.
    pub open spec fn graph_of_exit(
        self,
        main_thread: u64,
        thread: u64,
        id: u64,
        name: Seq<char>,
        parent: Parent,
        now: u128,
    ) -> Option<SpanView> {
        let below = self.parent_at_exit(main_thread, thread, parent);
        if self.captures_exit(main_thread, thread, id, parent) && !self.takes_in(id, below) {
            Some(self.finished(id, name, now))
        } else {
            None
        }
    }

    /// The span that an event belongs to: its own parent, else the span that the
    /// dispatcher is in, else the current span of its thread.
    pub open spec fn event_target(
        self,
        thread: u64,
        parent: Option<u64>,
        context: Option<u64>,
    ) -> Option<u64> {
        if parent is Some {
            parent
        } else if context is Some {
            context
        } else {
            self.current_span(thread)
        }
    }

    /// The state once an event has occurred; none where a counter leaves its range. A root
    /// event, and one in a span that is not open, is not counted.
    pub open spec fn after_event(
        self,
        thread: u64,
        is_root: bool,
        parent: Option<u64>,
        context: Option<u64>,
        event: EventView,
    ) -> Option<StateView> {
        if is_root {
            Some(self)
        } else {
            match self.event_target(thread, parent, context) {
                Some(id) => if self.unfinished.contains_key(id) {
                    let node = self.unfinished[id];
                    match recorded(node.events, event) {
                        Some(events) => Some(
                            StateView {
                                unfinished: self.unfinished.insert(
                                    id,
                                    SpanView { events, ..node },
                                ),
                                ..self
                            },
                        ),
                        None => None,
                    }
                } else {
                    Some(self)
                },
                None => match recorded(self.zero_level, event) {
                    Some(zero_level) => Some(StateView { zero_level, ..self }),
                    None => None,
                },
            }
        }
    }
}

/// What a graph that may be missing holds.
pub open spec fn graph_view(graph: Option<GraphNode>) -> Option<SpanView> {
    match graph {
        Some(node) => Some(node@),
        None => None,
    }
}

impl Layer {
    /// A layer whose main thread is the given one, and the state that it starts from.
    pub fn new(main_thread: u64, config: Config) -> (made: (Layer, State))
        ensures
            made.0 == (Layer { main_thread, config }),
            made.1@ == StateView::initial(),
    {
        (Layer { main_thread, config }, State::default())
    }

    /// Whether the thread is the main thread.
    pub fn is_main_thread(&self, thread: u64) -> (is_main: bool)
        ensures
            is_main == (thread == self.main_thread),
    {
        thread == self.main_thread
    }

    /// A span was made.
    pub fn on_new_span(&self, state: &mut State, id: u64, fields: &Vec<(String, String)>)
        ensures
            final(state)@ == old(state)@.after_new_span(id, text_pairs(fields@)),
    {
        let mut node = GraphNode::default();
        node.call_count = 1;
        store_fields(&mut node.metadata, fields);
        assert(node@.children =~= seq![]);
        let _ = insert_span(&mut state.unfinished_spans, id, node);
    }

    /// Fields were recorded on a span.
    pub fn on_record(&self, state: &mut State, id: u64, fields: &Vec<(String, String)>)
        ensures
            final(state)@ == old(state)@.after_record(id, text_pairs(fields@)),
    {
        if let Some(node) = span_mut(&mut state.unfinished_spans, id) {
            let ghost before = *node;
            store_fields(&mut node.metadata, fields);
            proof {
                lemma_children_view(before);
                lemma_children_view(*node);
            }
        }
    }

    /// A thread entered a span. The result is the text to print, if there is any.
    pub fn on_enter(&self, state: &mut State, thread: u64, id: u64, now: u128) -> (text: Option<
        String,
    >)
        ensures
            final(state)@ == old(state)@.after_enter(thread, id, now),
            text_view(text) == old(state)@.zero_level_text(),
    {
        state.set_current_span(thread, Some(id));
        if let Some(node) = span_mut(&mut state.unfinished_spans, id) {
            let ghost before = *node;
            node.started = Some(now);
            proof {
                lemma_children_view(before);
                lemma_children_view(*node);
            }
        }
        state.print_zero_level_events()
    }

    /// A thread left a span. The result is the call graph to print, if one is complete.
    pub fn on_exit(
        &self,
        state: &mut State,
        thread: u64,
        id: u64,
        name: &str,
        parent: Parent,
        now: u128,
    ) -> (graph: Option<GraphNode>)
        ensures
            final(state)@ == old(state)@.after_exit(
                self.main_thread,
                thread,
                id,
                name@,
                parent,
                now,
            ),
            graph_view(graph) == old(state)@.graph_of_exit(
                self.main_thread,
                thread,
                id,
                name@,
                parent,
                now,
            ),
    {
        let mut below = parent.id();
        let mut captured = true;
        if !self.is_main_thread(thread) {
            match parent {
                Parent::Root => {
                    below = state.current_span(self.main_thread);
                    captured = match below {
                        Some(p) => if p == id {
                            false
                        } else {
                            span_mut(&mut state.unfinished_spans, p).is_some()
                        },
                        None => false,
                    };
                },
                Parent::Contextual(_) => {
                    captured = false;
                },
                Parent::Explicit(_) => {},
            }
        }
        assert(state@ =~= old(state)@);
        state.set_current_span(thread, parent.id());
        if !captured {
            return None;
        }
        let mut node = match remove_span(&mut state.unfinished_spans, id) {
            Some(node) => node,
            None => GraphNode::default(),
        };
        let ghost before = node;
        node.execution_duration = match node.started {
            Some(start) => if start <= now {
                now - start
            } else {
                0
            },
            None => 0,
        };
        node.name = name.to_owned();
        proof {
            lemma_children_view(before);
            lemma_children_view(node);
        }
        assert(node@ == old(state)@.finished(id, name@, now));
        let mut graph: Option<GraphNode> = None;
        match below {
            Some(p) => {
                match span_mut(&mut state.unfinished_spans, p) {
                    Some(parent_node) => {
                        let ghost parent_before = *parent_node;
                        parent_node.child_nodes.push(node);
                        proof {
                            lemma_children_view(parent_before);
                            lemma_children_view(*parent_node);
                            assert(node_views(parent_node.child_nodes@) =~= node_views(
                                parent_before.child_nodes@,
                            ).push(node@));
                        }
                    },
                    None => {
                        graph = Some(node);
                    },
                }
            },
            None => {
                graph = Some(node);
            },
        }
        graph
    }

    /// An event occurred. The result is `false`, and nothing changes, where its counter
    /// would leave its range.
    pub fn checked_on_event(
        &self,
        state: &mut State,
        thread: u64,
        is_root: bool,
        parent: Option<u64>,
        context: Option<u64>,
        event: &Event,
    ) -> (done: bool)
        ensures
            done == old(state)@.after_event(thread, is_root, parent, context, event@) is Some,
            final(state)@ == (if done {
                old(state)@.after_event(thread, is_root, parent, context, event@)->0
            } else {
                old(state)@
            }),
    {
        if is_root {
            return true;
        }
        let span_id = if parent.is_some() {
            parent
        } else if context.is_some() {
            context
        } else {
            state.current_span(thread)
        };
        match span_id {
            Some(id) => {
                match span_mut(&mut state.unfinished_spans, id) {
                    Some(node) => {
                        let ghost before = *node;
                        let done = node.events.checked_record(event);
                        proof {
                            lemma_children_view(before);
                            lemma_children_view(*node);
                            if !done {
                                assert(node@ =~= before@);
                                assert(span_table(old(state).unfinished_spans).insert(id, before@)
                                    =~= span_table(old(state).unfinished_spans));
                            }
                        }
                        done
                    },
                    None => true,
                }
            },
            None => state.zero_level_events.checked_record(event),
        }
    }

    /// An event occurred.
    pub fn on_event(
        &self,
        state: &mut State,
        thread: u64,
        is_root: bool,
        parent: Option<u64>,
        context: Option<u64>,
        event: &Event,
    )
        requires
            old(state)@.after_event(thread, is_root, parent, context, event@) is Some,
        ensures
            Some(final(state)@) == old(state)@.after_event(
                thread,
                is_root,
                parent,
                context,
                event@,
            ),
    {
        let _ = self.checked_on_event(state, thread, is_root, parent, context, event);
    }
}

} // verus!
