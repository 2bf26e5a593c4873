//! The spans that are open, and the events outside of any span.

use linear_map::LinearMap;
use std::collections::HashMap;
use vstd::prelude::*;
use vstd::string::*;

use crate::assoc::distinct;
use crate::events::{count_texts, Counts, EventCounts};
use crate::node::{well_formed, GraphNode, SpanView};
use crate::render::text_view;
use crate::text::{join_text, joined};

verus! {

/// The nodes that a map holds, by the numbers of their spans.
pub uninterp spec fn span_table(spans: LinearMap<u64, GraphNode>) -> Map<u64, SpanView>;

/// Calls `LinearMap::new`, which makes a map without spans.
#[verifier::external_body]
fn new_spans() -> (spans: LinearMap<u64, GraphNode>)
    ensures
        (span_table(spans) == Map::<u64, SpanView>::empty()),
{
    LinearMap::new()
}

/// Calls `LinearMap::insert`, which replaces what the number stood for and hands it back.
#[verifier::external_body]
pub(crate) fn insert_span(
    spans: &mut LinearMap<u64, GraphNode>,
    id: u64,
    node: GraphNode,
) -> (replaced: Option<GraphNode>)
    ensures
        span_table(*final(spans)) == span_table(*old(spans)).insert(id, node@),
        match replaced {
            Some(before) => span_table(*old(spans)).contains_key(id) && before@ == span_table(
                *old(spans),
            )[id],
            None => !span_table(*old(spans)).contains_key(id),
        },
{
    spans.insert(id, node)
}

/// Calls `LinearMap::get_mut`, which lends the node that the number stands for; every
/// other node stays as it is.
#[verifier::external_body]
pub(crate) fn span_mut(spans: &mut LinearMap<u64, GraphNode>, id: u64) -> (node: Option<
    &mut GraphNode,
>)
    ensures
        match node {
            Some(lent) => {
                &&& span_table(*old(spans)).contains_key(id)
                &&& lent@ == span_table(*old(spans))[id]
                &&& span_table(*final(spans)) == span_table(*old(spans)).insert(id, final(lent)@)
            },
            None => {
                &&& !span_table(*old(spans)).contains_key(id)
                &&& span_table(*final(spans)) == span_table(*old(spans))
            },
        },
{
    spans.get_mut(&id)
}

/// Calls `LinearMap::remove`, which takes out the node that the number stands for.
#[verifier::external_body]
pub(crate) fn remove_span(spans: &mut LinearMap<u64, GraphNode>, id: u64) -> (node: Option<
    GraphNode,
>)
    ensures
        span_table(*final(spans)) == span_table(*old(spans)).remove(id),
        match node {
            Some(taken) => span_table(*old(spans)).contains_key(id) && taken@ == span_table(
                *old(spans),
            )[id],
            None => !span_table(*old(spans)).contains_key(id),
        },
{
    spans.remove(&id)
}

/// What is open: the current span of each thread, the spans that have not been left, and
/// the events that occurred outside of any span. Threads and spans go by number.
#[derive(Debug)]
pub struct State {
    pub current_span_per_thread: HashMap<u64, Option<u64>>,
    pub unfinished_spans: LinearMap<u64, GraphNode>,
    pub zero_level_events: EventCounts,
}

/// What a [`State`] holds.
#[verifier::ext_equal]
pub struct StateView {
    pub current: Map<u64, Option<u64>>,
    pub unfinished: Map<u64, SpanView>,
    pub zero_level: Counts,
}

impl View for State {
    type V = StateView;

    open spec fn view(&self) -> StateView {
        StateView {
            current: self.current_span_per_thread@,
            unfinished: span_table(self.unfinished_spans),
            zero_level: self.zero_level_events@,
        }
    }
}

impl StateView {
    /// Nothing is open and nothing has occurred.
    pub open spec fn initial() -> StateView {
        StateView {
            current: Map::empty(),
            unfinished: Map::empty(),
            zero_level: seq![],
        }
    }

    /// Every open span is well formed, and no event outside of spans is listed twice.
    pub open spec fn well_formed(self) -> bool {
        &&& distinct(self.zero_level)
        &&& forall|id: u64| #[trigger]
            self.unfinished.contains_key(id) ==> well_formed(self.unfinished[id])
    }

    /// The span that a thread is in.
    pub open spec fn current_span(self, thread: u64) -> Option<u64> {
        if self.current.contains_key(thread) {
            self.current[thread]
        } else {
            None
        }
    }

    /// The state once a thread is in another span.
    pub open spec fn with_current_span(self, thread: u64, span: Option<u64>) -> StateView {
        StateView { current: self.current.insert(thread, span), ..self }
    }

    /// The text that lists the events outside of any span; none where there is no event.
    pub open spec fn zero_level_text(self) -> Option<Seq<char>> {
        if self.zero_level.len() == 0 {
            None
        } else {
            Some("> "@ + joined(count_texts(self.zero_level), "\n> "@) + "\n"@)
        }
    }

    /// The state once the events outside of any span have been listed.
    pub open spec fn after_zero_level_events(self) -> StateView {
        StateView { zero_level: seq![], ..self }
    }
}

impl Default for State {
    fn default() -> (state: Self)
        ensures
            state@ == StateView::initial(),
    {
        broadcast use vstd::std_specs::hash::group_hash_axioms;
        let state = State {
            current_span_per_thread: HashMap::new(),
            unfinished_spans: new_spans(),
            zero_level_events: EventCounts::default(),
        };
        assert(state@ =~= StateView::initial());
        state
    }
}

impl State {
    /// The span that a thread is in.
    pub fn current_span(&self, thread: u64) -> (span: Option<u64>)
        ensures
            span == self@.current_span(thread),
    {
        broadcast use vstd::std_specs::hash::group_hash_axioms;
        match self.current_span_per_thread.get(&thread) {
            Some(span) => *span,
            None => None,
        }
    }

    /// Notes the span that a thread is in from now on.
    pub fn set_current_span(&mut self, thread: u64, span_id: Option<u64>)
        ensures
            final(self)@ == old(self)@.with_current_span(thread, span_id),
    {
        broadcast use vstd::std_specs::hash::group_hash_axioms;
        self.current_span_per_thread.insert(thread, span_id);
    }

    /// The text that lists the events outside of any span, if there is any. They are
    /// forgotten once they are listed.
    pub fn print_zero_level_events(&mut self) -> (text: Option<String>)
        ensures
            text_view(text) == old(self)@.zero_level_text(),
            final(self)@ == old(self)@.after_zero_level_events(),
    {
        if self.zero_level_events.is_empty() {
            assert(self@ =~= old(self)@.after_zero_level_events());
            None
        } else {
            let mut text = "> ".to_owned();
            text.append(join_text(&self.zero_level_events.format(), "\n> ").as_str());
            text.append("\n");
            self.zero_level_events.clear();
            Some(text)
        }
    }
}

} // verus!
