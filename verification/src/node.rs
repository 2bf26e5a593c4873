//! The nodes of a call graph.

use linear_map::LinearMap;
use vstd::prelude::*;

use crate::assoc::distinct;
use crate::events::{increased, merged, Counts, EventCounts};
use crate::metadata::{clone_metadata, metadata_pairs, new_metadata};

verus! {

/// The longest duration, in nanoseconds: `u64::MAX` seconds and 999,999,999 nanoseconds.
pub const DURATION_MAX: u128 = 18_446_744_073_709_551_615_999_999_999;

/// A span of the call graph, or several spans displayed as one.
#[derive(Debug)]
pub struct GraphNode {
    pub name: String,
    /// When the span was entered last, in nanoseconds of the layer's clock.
    pub started: Option<u128>,
    /// How long the span ran, in nanoseconds.
    pub execution_duration: u128,
    pub metadata: LinearMap<String, String>,
    pub events: EventCounts,
    pub child_nodes: Vec<GraphNode>,
    /// How many calls the node stands for.
    pub call_count: usize,
}

/// What a [`GraphNode`] holds.
#[verifier::ext_equal]
pub struct SpanView {
    pub name: Seq<char>,
    pub started: Option<u128>,
    pub duration: u128,
    pub metadata: Seq<(Seq<char>, Seq<char>)>,
    pub events: Counts,
    pub children: Seq<SpanView>,
    pub calls: usize,
}

impl View for GraphNode {
    type V = SpanView;

    open spec fn view(&self) -> SpanView
        decreases self,
    {
        SpanView {
            name: self.name@,
            started: self.started,
            duration: self.execution_duration,
            metadata: metadata_pairs(self.metadata),
            events: self.events@,
            children: Seq::new(
                self.child_nodes@.len(),
                |i: int|
                    if 0 <= i < self.child_nodes@.len() {
                        self.child_nodes@[i].view()
                    } else {
                        arbitrary()
                    },
            ),
            calls: self.call_count,
        }
    }
}

/// What a list of nodes holds.
pub open spec fn node_views(nodes: Seq<GraphNode>) -> Seq<SpanView> {
    nodes.map_values(|node: GraphNode| node@)
}

/// A node's children are what its list of child nodes holds.
pub broadcast proof fn lemma_children_view(node: GraphNode)
    ensures
        (#[trigger] node.view()).children == node_views(node.child_nodes@),
{
    reveal_with_fuel(<GraphNode as View>::view, 2);
    assert forall|i: int| 0 <= i < node.child_nodes@.len() implies node@.children[i] == node_views(
        node.child_nodes@,
    )[i] by {
        assert(node@.children[i] == node.child_nodes@[i]@);
    }
    assert(node@.children =~= node_views(node.child_nodes@));
}

/// A node without time, calls, fields, events or children.
pub open spec fn blank(name: Seq<char>) -> SpanView {
    SpanView {
        name,
        started: None,
        duration: 0,
        metadata: seq![],
        events: seq![],
        children: seq![],
        calls: 0,
    }
}

/// Every duration in the tree is one that exists, and no event is listed twice on a
/// node.
pub open spec fn well_formed(node: SpanView) -> bool
    decreases node,
{
    &&& node.duration <= DURATION_MAX
    &&& distinct(node.events)
    &&& forall|i: int| 0 <= i < node.children.len() ==> well_formed(#[trigger] node.children[i])
}

/// The node together with the time, calls and events of another; none where a sum leaves
/// its range.
pub open spec fn aggregated(node: SpanView, other: SpanView) -> Option<SpanView> {
    match merged(node.events, other.events) {
        Some(events) => if node.duration + other.duration <= DURATION_MAX && node.calls
            + other.calls <= usize::MAX {
            Some(
                SpanView {
                    duration: (node.duration + other.duration) as u128,
                    calls: (node.calls + other.calls) as usize,
                    events,
                    ..node
                },
            )
        } else {
            None
        },
        None => None,
    }
}

/// The first `n` children of a node with the events of their own children added, and the
/// node's events with those of these children added.
pub open spec fn accumulated_prefix(node: SpanView, n: nat, count_spans: bool) -> Option<
    (Seq<SpanView>, Counts),
>
    decreases node, n,
{
    if n == 0 || n > node.children.len() {
        Some((seq![], node.events))
    } else {
        match accumulated_prefix(node, (n - 1) as nat, count_spans) {
            Some((done, events)) => match accumulated_child(node.children[n - 1], count_spans) {
                Some(child) => match merged(events, child.events) {
                    Some(sum) => Some((done.push(child), sum)),
                    None => None,
                },
                None => None,
            },
            None => None,
        }
    }
}

/// A child node with the events of its children added and, where spans are counted,
/// itself as an event.
pub open spec fn accumulated_child(child: SpanView, count_spans: bool) -> Option<SpanView>
    decreases child, child.children.len() + 2,
{
    match accumulated(child, count_spans) {
        Some(node) => if count_spans {
            match increased(node.events, node.name, 1) {
                Some(events) => Some(SpanView { events, ..node }),
                None => None,
            }
        } else {
            Some(node)
        },
        None => None,
    }
}

/// The node once every node of the tree has the events of its children added to its
/// own; none where a counter leaves its range.
pub open spec fn accumulated(node: SpanView, count_spans: bool) -> Option<SpanView>
    decreases node, node.children.len() + 1,
{
    match accumulated_prefix(node, node.children.len(), count_spans) {
        Some((children, events)) => Some(SpanView { children, events, ..node }),
        None => None,
    }
}

impl Default for GraphNode {
    fn default() -> (node: Self)
        ensures
            node@ == blank(seq![]),
    {
        proof {
            reveal_strlit("");
            assert(""@ =~= seq![]);
        }
        GraphNode::new("")
    }
}

impl Clone for GraphNode {
    fn clone(&self) -> (copy: Self)
        ensures
            copy@ == self@,
        decreases self,
    {
        let mut child_nodes: Vec<GraphNode> = Vec::new();
        let mut i: usize = 0;
        while i < self.child_nodes.len()
            invariant
                i <= self.child_nodes@.len(),
                child_nodes@.len() == i,
                forall|j: int| 0 <= j < i ==> (#[trigger] child_nodes@[j])@ == self.child_nodes@[j]@,
            decreases self.child_nodes.len() - i,
        {
            child_nodes.push(self.child_nodes[i].clone());
            i += 1;
        }
        let copy = GraphNode {
            name: self.name.clone(),
            started: self.started,
            execution_duration: self.execution_duration,
            metadata: clone_metadata(&self.metadata),
            events: self.events.clone(),
            child_nodes,
            call_count: self.call_count,
        };
        assert(copy@ =~= self@) by {
            lemma_children_view(copy);
            lemma_children_view(*self);
            assert(copy@.children =~= self@.children);
        }
        copy
    }
}

impl GraphNode {
    /// A node of the given name that has not run.
    pub fn new(name: &str) -> (node: GraphNode)
        ensures
            node@ == blank(name@),
    {
        let node = GraphNode {
            name: name.to_owned(),
            started: None,
            execution_duration: 0,
            metadata: new_metadata(),
            events: EventCounts::default(),
            child_nodes: Vec::new(),
            call_count: 0,
        };
        assert(node@.children =~= seq![]);
        node
    }

    /// Records the node as an event of its own name.
    pub fn record_self_as_event(&mut self)
        requires
            increased(old(self)@.events, old(self)@.name, 1) is Some,
        ensures
            final(self)@ == (SpanView {
                events: increased(old(self)@.events, old(self)@.name, 1)->0,
                ..old(self)@
            }),
    {
        self.events.increment_events_counter(self.name.as_str());
        assert(self@.children =~= old(self)@.children);
    }

    /// The node together with the time, calls and events of `other`, unless a sum leaves
    /// its range.
    pub fn checked_aggregate(self, other: &GraphNode) -> (sum: Option<GraphNode>)
        ensures
            match sum {
                Some(node) => aggregated(self@, other@) == Some(node@),
                None => aggregated(self@, other@) is None,
            },
    {
        let mut node = self;
        let events = match node.events.checked_sum(&other.events) {
            Some(events) => events,
            None => {
                return None;
            },
        };
        if node.execution_duration > DURATION_MAX || other.execution_duration > DURATION_MAX
            - node.execution_duration {
            return None;
        }
        let call_count: usize = match node.call_count.checked_add(other.call_count) {
            Some(call_count) => call_count,
            None => {
                return None;
            },
        };
        node.execution_duration = node.execution_duration + other.execution_duration;
        node.call_count = call_count;
        node.events = events;
        assert(node@.children =~= self@.children);
        Some(node)
    }

    /// The node together with the time, calls and events of `other`.
    pub fn aggregate(self, other: &GraphNode) -> (sum: GraphNode)
        requires
            aggregated(self@, other@) is Some,
        ensures
            Some(sum@) == aggregated(self@, other@),
    {
        self.checked_aggregate(other).unwrap()
    }

    /// The node once every node of its tree has the events of its children added to its
    /// own, unless a counter leaves its range.
    pub fn checked_accumulate(&self, accumulate_spans_count: bool) -> (sum: Option<GraphNode>)
        ensures
            match sum {
                Some(node) => accumulated(self@, accumulate_spans_count) == Some(node@),
                None => accumulated(self@, accumulate_spans_count) is None,
            },
        decreases self,
    {
        broadcast use lemma_children_view;
        let mut events = self.events.clone();
        let mut child_nodes: Vec<GraphNode> = Vec::new();
        let mut i: usize = 0;
        assert(node_views(child_nodes@) =~= seq![]);
        while i < self.child_nodes.len()
            invariant
                i <= self.child_nodes@.len(),
                self@.children == node_views(self.child_nodes@),
                accumulated_prefix(self@, i as nat, accumulate_spans_count) == Some(
                    (node_views(child_nodes@), events@),
                ),
            decreases self.child_nodes.len() - i,
        {
            let ghost done = child_nodes@;
            assert(self@.children[i as int] == self.child_nodes@[i as int]@);
            assert(accumulated_prefix(self@, (i + 1) as nat, accumulate_spans_count) == (
            match accumulated_child(self@.children[i as int], accumulate_spans_count) {
                Some(child) => match merged(events@, child.events) {
                    Some(sum) => Some((node_views(done).push(child), sum)),
                    None => None,
                },
                None => None,
            }));
            let mut child = match self.child_nodes[i].checked_accumulate(accumulate_spans_count) {
                Some(child) => child,
                None => {
                    proof {
                        lemma_accumulate_overflow(self@, (i + 1) as nat, accumulate_spans_count);
                    }
                    return None;
                },
            };
            if accumulate_spans_count {
                let ghost before = child@;
                if !child.events.checked_increase(child.name.as_str(), 1) {
                    proof {
                        lemma_accumulate_overflow(self@, (i + 1) as nat, accumulate_spans_count);
                    }
                    return None;
                }
                assert(child@ =~= SpanView { events: child.events@, ..before });
            }
            match events.checked_sum(&child.events) {
                Some(sum) => {
                    events = sum;
                },
                None => {
                    proof {
                        lemma_accumulate_overflow(self@, (i + 1) as nat, accumulate_spans_count);
                    }
                    return None;
                },
            }
            child_nodes.push(child);
            assert(node_views(child_nodes@) =~= node_views(done).push(child@));
            i += 1;
        }
        let node = GraphNode {
            name: self.name.clone(),
            started: self.started,
            execution_duration: self.execution_duration,
            metadata: clone_metadata(&self.metadata),
            events,
            child_nodes,
            call_count: self.call_count,
        };
        assert(node@.children == node_views(child_nodes@));
        Some(node)
    }

    /// For each node of the tree, adds the events of its children to its own.
    pub fn accumulate_children_events(&mut self, accumulate_spans_count: bool)
        requires
            accumulated(old(self)@, accumulate_spans_count) is Some,
        ensures
            Some(final(self)@) == accumulated(old(self)@, accumulate_spans_count),
    {
        if let Some(sum) = self.checked_accumulate(accumulate_spans_count) {
            *self = sum;
        }
    }
}

/// An accumulation that fails on the first children fails on all of them.
proof fn lemma_accumulate_overflow(node: SpanView, n: nat, count_spans: bool)
    requires
        n <= node.children.len(),
        accumulated_prefix(node, n, count_spans) is None,
    ensures
        accumulated(node, count_spans) is None,
    decreases node.children.len() - n,
{
    if n < node.children.len() {
        lemma_accumulate_overflow(node, n + 1, count_spans);
    }
}

} // verus!
