//! What accumulating the events of a tree comes to.

use vstd::prelude::*;

use crate::assoc::distinct;
use crate::events::{increased, merged, total};
use crate::events::{law_increase_adds_to_one_counter, law_merge_adds_name_by_name};
use crate::metadata::metadata_pairs;
use crate::node::lemma_children_view;
use crate::node::{accumulated, accumulated_child, accumulated_prefix, aggregated, blank};
use crate::node::{well_formed, GraphNode, SpanView};

verus! {

/// The sum of a counter over a node and everything below it.
pub open spec fn subtree_total(node: SpanView, key: Seq<char>) -> int
    decreases node, node.children.len() + 1,
{
    total(node.events, key) + children_total(node, node.children.len(), key)
}

/// The sum of a counter over the first `n` children of a node and everything below them.
pub open spec fn children_total(node: SpanView, n: nat, key: Seq<char>) -> int
    decreases node, n,
{
    if n == 0 || n > node.children.len() {
        0
    } else {
        children_total(node, (n - 1) as nat, key) + subtree_total(node.children[n - 1], key)
    }
}

/// How many nodes below a node have the given name.
pub open spec fn spans_below(node: SpanView, name: Seq<char>) -> int
    decreases node, node.children.len() + 1,
{
    spans_below_prefix(node, node.children.len(), name)
}

/// How many of the first `n` children of a node and the nodes below them have the given
/// name.
pub open spec fn spans_below_prefix(node: SpanView, n: nat, name: Seq<char>) -> int
    decreases node, n,
{
    if n == 0 || n > node.children.len() {
        0
    } else {
        let child = node.children[n - 1];
        spans_below_prefix(node, (n - 1) as nat, name) + spans_below(child, name) + if child.name
            == name {
            1int
        } else {
            0
        }
    }
}

/// Two trees that differ in nothing but events.
pub open spec fn same_but_events(a: SpanView, b: SpanView) -> bool
    decreases a,
{
    &&& a.name == b.name
    &&& a.started == b.started
    &&& a.duration == b.duration
    &&& a.metadata == b.metadata
    &&& a.calls == b.calls
    &&& a.children.len() == b.children.len()
    &&& forall|i: int|
        0 <= i < a.children.len() ==> same_but_events(#[trigger] a.children[i], b.children[i])
}

/// After accumulation, each counter of a node is its sum over the node and everything
/// below it; where spans are counted, the counter of a name is larger by the number of
/// spans of that name below the node. The tree stays well formed.
pub proof fn law_accumulate_adds_up_the_tree(node: SpanView, count_spans: bool)
    requires
        well_formed(node),
        accumulated(node, count_spans) is Some,
    ensures
        well_formed(accumulated(node, count_spans)->0),
        forall|key: Seq<char>| #[trigger]
            total((accumulated(node, count_spans)->0).events, key) == subtree_total(node, key)
                + if count_spans {
                spans_below(node, key)
            } else {
                0
            },
    decreases node, node.children.len() + 1,
{
    lemma_prefix_adds_up(node, node.children.len(), count_spans);
}

proof fn lemma_prefix_adds_up(node: SpanView, n: nat, count_spans: bool)
    requires
        well_formed(node),
        n <= node.children.len(),
        accumulated_prefix(node, n, count_spans) is Some,
    ensures
        ({
            let (done, events) = accumulated_prefix(node, n, count_spans)->0;
            &&& done.len() == n
            &&& distinct(events)
            &&& forall|i: int| 0 <= i < n ==> well_formed(#[trigger] done[i])
            &&& forall|key: Seq<char>| #[trigger]
                total(events, key) == total(node.events, key) + children_total(node, n, key)
                    + if count_spans {
                    spans_below_prefix(node, n, key)
                } else {
                    0
                }
        }),
    decreases node, n,
{
    if n > 0 {
        let m = (n - 1) as nat;
        lemma_prefix_adds_up(node, m, count_spans);
        let (done, events) = accumulated_prefix(node, m, count_spans)->0;
        let child = node.children[n - 1];
        assert(well_formed(child));
        law_accumulate_adds_up_the_tree(child, count_spans);
        let plain = accumulated(child, count_spans)->0;
        if count_spans {
            law_increase_adds_to_one_counter(plain.events, plain.name, 1);
        }
        let counted = accumulated_child(child, count_spans)->0;
        assert(well_formed(counted)) by {
            assert forall|i: int| 0 <= i < counted.children.len() implies #[trigger] well_formed(
                counted.children[i],
            ) by {
                assert(well_formed(plain.children[i]));
            }
        }
        law_merge_adds_name_by_name(events, counted.events);
        let sum = merged(events, counted.events)->0;
        assert forall|key: Seq<char>| #[trigger]
            total(sum, key) == total(node.events, key) + children_total(node, n, key)
                + if count_spans {
                spans_below_prefix(node, n, key)
            } else {
                0
            } by {
            assert(total(events, key) == total(node.events, key) + children_total(node, m, key)
                + if count_spans {
                spans_below_prefix(node, m, key)
            } else {
                0
            });
            assert(total(plain.events, key) == subtree_total(child, key) + if count_spans {
                spans_below(child, key)
            } else {
                0
            });
        }
        assert forall|i: int| 0 <= i < n implies #[trigger] well_formed(done.push(counted)[i]) by {
            if i < m {
                assert(well_formed(done[i]));
            }
        }
    }
}

/// Accumulation changes nothing but events: names, times, fields, calls and the shape of
/// the tree stay.
pub proof fn law_accumulate_keeps_all_but_events(node: SpanView, count_spans: bool)
    requires
        accumulated(node, count_spans) is Some,
    ensures
        same_but_events(node, accumulated(node, count_spans)->0),
    decreases node, node.children.len() + 1,
{
    lemma_prefix_keeps(node, node.children.len(), count_spans);
}

proof fn lemma_prefix_keeps(node: SpanView, n: nat, count_spans: bool)
    requires
        n <= node.children.len(),
        accumulated_prefix(node, n, count_spans) is Some,
    ensures
        ({
            let (done, events) = accumulated_prefix(node, n, count_spans)->0;
            &&& done.len() == n
            &&& forall|i: int| 0 <= i < n ==> same_but_events(#[trigger] node.children[i], done[i])
        }),
    decreases node, n,
{
    if n > 0 {
        let m = (n - 1) as nat;
        lemma_prefix_keeps(node, m, count_spans);
        let (done, events) = accumulated_prefix(node, m, count_spans)->0;
        let child = node.children[n - 1];
        law_accumulate_keeps_all_but_events(child, count_spans);
        let plain = accumulated(child, count_spans)->0;
        let counted = accumulated_child(child, count_spans)->0;
        assert(same_but_events(child, counted)) by {
            assert forall|i: int| 0 <= i < child.children.len() implies #[trigger] same_but_events(
                child.children[i],
                counted.children[i],
            ) by {
                assert(same_but_events(child.children[i], plain.children[i]));
            }
        }
        assert forall|i: int| 0 <= i < n implies #[trigger] same_but_events(
            node.children[i],
            done.push(counted)[i],
        ) by {
            if i < m {
                assert(same_but_events(node.children[i], done[i]));
            }
        }
    }
}

/// Aggregating two nodes adds their times, calls and event counts, and keeps everything
/// else of the first.
pub proof fn law_aggregate_adds(node: SpanView, other: SpanView)
    requires
        well_formed(node),
        well_formed(other),
        aggregated(node, other) is Some,
    ensures
        ({
            let sum = aggregated(node, other)->0;
            &&& well_formed(sum)
            &&& sum.duration == node.duration + other.duration
            &&& sum.calls == node.calls + other.calls
            &&& sum.name == node.name
            &&& sum.started == node.started
            &&& sum.metadata == node.metadata
            &&& sum.children == node.children
            &&& forall|key: Seq<char>| #[trigger]
                total(sum.events, key) == total(node.events, key) + total(other.events, key)
        }),
{
    law_merge_adds_name_by_name(node.events, other.events);
    let sum = aggregated(node, other)->0;
    assert forall|i: int| 0 <= i < sum.children.len() implies #[trigger] well_formed(
        sum.children[i],
    ) by {
        assert(well_formed(node.children[i]));
    }
}

/// Whether a path, which names a child at each step, leads to a node of the tree.
pub open spec fn reaches(node: SpanView, path: Seq<int>) -> bool
    decreases path.len(),
{
    path.len() > 0 ==> 0 <= path[0] < node.children.len() && reaches(
        node.children[path[0]],
        path.skip(1),
    )
}

/// The node that a path leads to.
pub open spec fn node_at(node: SpanView, path: Seq<int>) -> SpanView
    decreases path.len(),
{
    if path.len() == 0 {
        node
    } else {
        node_at(node.children[path[0]], path.skip(1))
    }
}

/// Accumulation holds at every node of the tree, however deep: each of its counters is then
/// the sum over that node and everything below it. Where spans are counted, the counter of a
/// name is larger by the number of spans of that name below the node, and below the top also
/// by one for the node's own name.
pub proof fn law_accumulation_holds_at_every_node(
    node: SpanView,
    count_spans: bool,
    path: Seq<int>,
    key: Seq<char>,
)
    requires
        well_formed(node),
        accumulated(node, count_spans) is Some,
        reaches(node, path),
    ensures
        ({
            let before = node_at(node, path);
            let after = node_at(accumulated(node, count_spans)->0, path);
            let spans = if !count_spans {
                0
            } else if path.len() > 0 && before.name == key {
                spans_below(before, key) + 1
            } else {
                spans_below(before, key)
            };
            &&& reaches(accumulated(node, count_spans)->0, path)
            &&& distinct(after.events)
            &&& total(after.events, key) == subtree_total(before, key) + spans
            &&& after.name == before.name
            &&& after.started == before.started
            &&& after.duration == before.duration
            &&& after.metadata == before.metadata
            &&& after.calls == before.calls
            &&& after.children.len() == before.children.len()
        }),
    decreases path.len(),
{
    let after = accumulated(node, count_spans)->0;
    law_accumulate_adds_up_the_tree(node, count_spans);
    law_accumulate_keeps_all_but_events(node, count_spans);
    if path.len() == 0 {
        assert(total(after.events, key) == subtree_total(node, key) + if count_spans {
            spans_below(node, key)
        } else {
            0
        });
    } else {
        let i = path[0];
        let rest = path.skip(1);
        let child = node.children[i];
        lemma_accumulated_children(node, node.children.len(), count_spans);
        let plain = accumulated(child, count_spans)->0;
        let counted = accumulated_child(child, count_spans)->0;
        assert(after.children[i] == counted);
        assert(node_at(after, path) == node_at(counted, rest));
        assert(node_at(node, path) == node_at(child, rest));
        assert(well_formed(child));
        law_accumulation_holds_at_every_node(child, count_spans, rest, key);
        if rest.len() == 0 {
            assert(node_at(counted, rest) == counted);
            assert(reaches(counted, rest));
            law_accumulate_adds_up_the_tree(child, count_spans);
            assert(total(plain.events, key) == subtree_total(child, key) + if count_spans {
                spans_below(child, key)
            } else {
                0
            });
            if count_spans {
                law_increase_adds_to_one_counter(plain.events, plain.name, 1);
            }
        } else {
            assert(counted.children == plain.children);
            assert(node_at(counted, rest) == node_at(plain, rest));
            assert(reaches(counted, rest) == reaches(plain, rest));
        }
    }
}

/// The children of an accumulated node are its accumulated children.
proof fn lemma_accumulated_children(node: SpanView, n: nat, count_spans: bool)
    requires
        n <= node.children.len(),
        accumulated_prefix(node, n, count_spans) is Some,
    ensures
        ({
            let (done, _) = accumulated_prefix(node, n, count_spans)->0;
            &&& done.len() == n
            &&& forall|i: int|
                0 <= i < n ==> accumulated_child(#[trigger] node.children[i], count_spans) == Some(
                    done[i],
                )
        }),
    decreases n,
{
    if n > 0 {
        lemma_accumulated_children(node, (n - 1) as nat, count_spans);
    }
}

/// A node without children is accumulated as it stands.
pub proof fn law_a_node_without_children_keeps_its_events(node: SpanView, count_spans: bool)
    requires
        node.children.len() == 0,
    ensures
        accumulated(node, count_spans) == Some(node),
{
    assert(node.children =~= seq![]);
}

/// One more child is accumulated by itself, counted once under its own name where spans are
/// counted, put behind the other children, and has its events merged into those of the node.
/// That fails only where one of these sums leaves its range.
pub proof fn law_one_more_child_adds_its_events(
    node: SpanView,
    child: SpanView,
    count_spans: bool,
)
    ensures
        ({
            let whole = accumulated(
                SpanView { children: node.children.push(child), ..node },
                count_spans,
            );
            let rest = accumulated(node, count_spans);
            let below = accumulated(child, count_spans);
            &&& rest is None || below is None ==> whole is None
            &&& rest is Some && below is Some ==> {
                let own = (below->0).events;
                let counts = if count_spans {
                    increased(own, child.name, 1)
                } else {
                    Some(own)
                };
                &&& counts is None ==> whole is None
                &&& counts is Some ==> {
                    let sum = merged((rest->0).events, counts->0);
                    &&& sum is None ==> whole is None
                    &&& sum is Some ==> whole == Some(
                        SpanView {
                            children: (rest->0).children.push(
                                SpanView { events: counts->0, ..below->0 },
                            ),
                            events: sum->0,
                            ..node
                        },
                    )
                }
            }
        }),
{
    let longer = SpanView { children: node.children.push(child), ..node };
    lemma_prefix_of_longer(node, child, node.children.len(), count_spans);
    assert(longer.children[node.children.len() as int] == child);
    if accumulated(child, count_spans) is Some {
        law_accumulate_keeps_all_but_events(child, count_spans);
    }
}

/// A further child does not change what the children before it come to.
proof fn lemma_prefix_of_longer(node: SpanView, child: SpanView, n: nat, count_spans: bool)
    requires
        n <= node.children.len(),
    ensures
        accumulated_prefix(
            SpanView { children: node.children.push(child), ..node },
            n,
            count_spans,
        ) == accumulated_prefix(node, n, count_spans),
    decreases n,
{
    if n > 0 {
        lemma_prefix_of_longer(node, child, (n - 1) as nat, count_spans);
        assert(node.children.push(child)[n - 1] == node.children[n - 1]);
    }
}

/// Aggregating two nodes fails exactly where the sum of their times is no duration, that of
/// their calls no `usize`, or their events cannot be merged. The events are merged in order,
/// those of the first node in front.
pub proof fn law_when_aggregation_succeeds(node: SpanView, other: SpanView)
    ensures
        aggregated(node, other) is Some <==> {
            &&& node.duration + other.duration <= 18_446_744_073_709_551_615_999_999_999
            &&& node.calls + other.calls <= usize::MAX
            &&& merged(node.events, other.events) is Some
        },
        aggregated(node, other) matches Some(sum) ==> {
            &&& merged(node.events, other.events) == Some(sum.events)
            &&& sum.duration == node.duration + other.duration
            &&& sum.calls == node.calls + other.calls
            &&& sum.name == node.name
            &&& sum.started == node.started
            &&& sum.metadata == node.metadata
            &&& sum.children == node.children
        },
{
}

/// What a node holds is its name, times, fields, events, calls and all its children, in
/// order.
pub proof fn law_a_node_holds_its_parts(node: GraphNode)
    ensures
        node@.name == node.name@,
        node@.started == node.started,
        node@.duration == node.execution_duration,
        node@.metadata == metadata_pairs(node.metadata),
        node@.events == node.events@,
        node@.calls == node.call_count,
        node@.children.len() == node.child_nodes@.len(),
        forall|i: int|
            0 <= i < node.child_nodes@.len() ==> node@.children[i] == (
            #[trigger] node.child_nodes@[i])@,
{
    lemma_children_view(node);
}

/// A new node has its name, and no time, call, field, event or child.
pub proof fn law_a_blank_node_is_empty(name: Seq<char>)
    ensures
        blank(name) == (SpanView {
            name,
            started: None,
            duration: 0,
            metadata: Seq::empty(),
            events: Seq::empty(),
            children: Seq::empty(),
            calls: 0,
        }),
{
}

} // verus!
