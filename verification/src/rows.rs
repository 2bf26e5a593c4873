//! Which rows stand below a node when it is displayed.

use vstd::hash_map::StringHashMap;
use vstd::prelude::*;

use crate::assoc::put;
use crate::config::{Share, ShareView};
use crate::metadata::store_field;
use crate::node::lemma_children_view;
use crate::node::{aggregated, blank, node_views, GraphNode, SpanView};
use crate::text::{decimal, decimal_text};

verus! {

/// What a list of shares holds.
pub open spec fn share_views(shares: Seq<Share>) -> Seq<ShareView> {
    shares.map_values(|share: Share| share@)
}

/// How many of the first `n` nodes have the given name.
pub open spec fn named(nodes: Seq<SpanView>, n: nat, name: Seq<char>) -> nat
    decreases n,
{
    if n == 0 {
        0
    } else {
        named(nodes, (n - 1) as nat, name) + if nodes[n - 1].name == name {
            1nat
        } else {
            0
        }
    }
}

/// The node with the number of its call in its fields.
pub open spec fn indexed(node: SpanView, number: nat) -> SpanView {
    SpanView { metadata: put(node.metadata, "index"@, decimal(number)), ..node }
}

/// Whether the next node is not a call of the same name.
pub open spec fn ends_run(nodes: Seq<SpanView>, i: int) -> bool {
    i + 1 >= nodes.len() || nodes[i + 1].name != nodes[i].name
}

/// A call together with the earlier calls that wait for it.
pub open spec fn with_pending(pending: Option<SpanView>, call: SpanView) -> Option<SpanView> {
    match pending {
        Some(earlier) => aggregated(earlier, call),
        None => Some(call),
    }
}

/// The rows, and behind them the calls that wait for the end of their run.
pub open spec fn flushed(rows: Seq<SpanView>, pending: Option<SpanView>) -> Seq<SpanView> {
    match pending {
        Some(calls) => rows.push(calls),
        None => rows,
    }
}

/// The rows for the first `n` nodes, and the aggregated calls of the last run among them
/// where that run goes on.
///
/// In a run of nodes of one name, the calls that are not relevant are aggregated into a
/// single row at the end of the run. Each relevant call has a row of its own; it carries
/// its number among the calls of its name, unless it ends the run.
pub open spec fn grouped_prefix(
    nodes: Seq<SpanView>,
    shares: Seq<ShareView>,
    n: nat,
) -> Option<(Seq<SpanView>, Option<SpanView>)>
    decreases n,
{
    if n == 0 {
        Some((seq![], None))
    } else {
        let i = n - 1;
        let node = nodes[i];
        match grouped_prefix(nodes, shares, i as nat) {
            Some((rows, pending)) => if !shares[i].above_relevant {
                match with_pending(pending, node) {
                    Some(calls) => if ends_run(nodes, i) {
                        Some((rows.push(calls), None))
                    } else {
                        Some((rows, Some(calls)))
                    },
                    None => None,
                }
            } else if ends_run(nodes, i) {
                Some((flushed(rows, pending).push(node), None))
            } else {
                Some((rows.push(indexed(node, named(nodes, n, node.name))), pending))
            },
            None => None,
        }
    }
}

/// The rows for a list of nodes, with neighbouring calls of one name that are not
/// relevant aggregated; none where a sum leaves its range.
pub open spec fn grouped(nodes: Seq<SpanView>, shares: Seq<ShareView>) -> Option<Seq<SpanView>> {
    match grouped_prefix(nodes, shares, nodes.len()) {
        Some((rows, _)) => Some(rows),
        None => None,
    }
}

/// The first `n` rows, with neighbouring rows that are too small collapsed into `[...]`.
pub open spec fn collapsed_prefix(
    rows: Seq<SpanView>,
    shares: Seq<ShareView>,
    n: nat,
) -> Option<Seq<SpanView>>
    decreases n,
{
    if n == 0 {
        Some(seq![])
    } else {
        let row = rows[n - 1];
        match collapsed_prefix(rows, shares, (n - 1) as nat) {
            Some(shown) => if !shares[n - 1].below_hide {
                Some(shown.push(row))
            } else if shown.len() > 0 && shown.last().name == "[...]"@ {
                match aggregated(shown.last(), row) {
                    Some(sum) => Some(shown.drop_last().push(sum)),
                    None => None,
                }
            } else {
                match aggregated(blank("[...]"@), row) {
                    Some(sum) => Some(shown.push(sum)),
                    None => None,
                }
            },
            None => None,
        }
    }
}

/// The rows, with neighbouring rows that are too small collapsed into `[...]`; none where
/// a sum leaves its range.
pub open spec fn collapsed(rows: Seq<SpanView>, shares: Seq<ShareView>) -> Option<Seq<SpanView>> {
    collapsed_prefix(rows, shares, rows.len())
}

/// The sum of the durations of a list of nodes.
pub open spec fn duration_sum(nodes: Seq<SpanView>) -> nat
    decreases nodes.len(),
{
    if nodes.len() == 0 {
        0
    } else {
        duration_sum(nodes.drop_last()) + nodes.last().duration as nat
    }
}

/// The row for the time of a node that its children do not account for; none where they
/// ran longer than the node.
pub open spec fn unaccounted(node: SpanView) -> Option<SpanView> {
    if duration_sum(node.children) <= node.duration {
        Some(
            SpanView {
                duration: (node.duration - duration_sum(node.children)) as u128,
                ..blank("[unaccounted]"@)
            },
        )
    } else {
        None
    }
}

/// The rows for a list of nodes, whose shares are given node by node, with neighbouring
/// calls of one name that are not relevant aggregated, unless a sum leaves its range.
pub fn group_calls(nodes: &Vec<GraphNode>, shares: &Vec<Share>) -> (rows: Option<Vec<GraphNode>>)
    requires
        nodes@.len() == shares@.len(),
    ensures
        match rows {
            Some(list) => grouped(node_views(nodes@), share_views(shares@)) == Some(
                node_views(list@),
            ),
            None => grouped(node_views(nodes@), share_views(shares@)) is None,
        },
{
    let ghost views = node_views(nodes@);
    let ghost parts = share_views(shares@);
    let mut rows: Vec<GraphNode> = Vec::new();
    let mut pending: Option<GraphNode> = None;
    let mut name_counter: StringHashMap<usize> = StringHashMap::new();
    let mut i: usize = 0;
    assert(node_views(rows@) =~= seq![]);
    while i < nodes.len()
        invariant
            i <= nodes@.len(),
            nodes@.len() == shares@.len(),
            views == node_views(nodes@),
            parts == share_views(shares@),
            grouped_prefix(views, parts, i as nat) == Some(
                (node_views(rows@), pending_view(pending)),
            ),
            forall|name: Seq<char>| #[trigger]
                named(views, i as nat, name) == (if name_counter@.contains_key(name) {
                    name_counter@[name] as nat
                } else {
                    0
                }),
        decreases nodes.len() - i,
    {
        let node = &nodes[i];
        let ghost before = node_views(rows@);
        let ghost counts = name_counter@;
        assert(node@ == views[i as int]);
        assert(shares@[i as int]@ == parts[i as int]);
        proof {
            lemma_named_bound(views, i as nat, node@.name);
        }
        assert(named(views, i as nat, node@.name) == (if counts.contains_key(node@.name) {
            counts[node@.name] as nat
        } else {
            0
        }));
        let earlier: usize = match name_counter.get(node.name.as_str()) {
            Some(count) => *count,
            None => 0,
        };
        let number: usize = earlier + 1;
        name_counter.insert(node.name.clone(), number);
        assert(named(views, (i + 1) as nat, node@.name) == number);
        let goes_on = i + 1 < nodes.len() && nodes[i + 1].name == node.name;
        assert(goes_on == !ends_run(views, i as int)) by {
            if i + 1 < nodes@.len() {
                assert(views[i + 1] == nodes@[i + 1]@);
            }
        }
        if !shares[i].above_relevant {
            let ghost waiting = pending_view(pending);
            let calls = match pending.take() {
                Some(earlier_calls) => earlier_calls.checked_aggregate(node),
                None => Some(node.clone()),
            };
            match calls {
                Some(calls) => {
                    assert(with_pending(waiting, node@) == Some(calls@));
                    if goes_on {
                        pending = Some(calls);
                    } else {
                        rows.push(calls);
                        assert(node_views(rows@) =~= before.push(calls@));
                    }
                },
                None => {
                    proof {
                        lemma_group_overflow(views, parts, (i + 1) as nat);
                    }
                    return None;
                },
            }
        } else if goes_on {
            let mut call = node.clone();
            store_field(&mut call.metadata, "index", decimal_text(number as u64).as_str());
            assert(call@ =~= indexed(node@, number as nat)) by {
                lemma_children_view(call);
                lemma_children_view(*node);
            }
            rows.push(call);
            assert(node_views(rows@) =~= before.push(call@));
        } else {
            if let Some(calls) = pending.take() {
                rows.push(calls);
                assert(node_views(rows@) =~= before.push(calls@));
            }
            let ghost middle = node_views(rows@);
            let call = node.clone();
            rows.push(call);
            assert(node_views(rows@) =~= middle.push(call@));
        }
        assert forall|name: Seq<char>| #[trigger]
            named(views, (i + 1) as nat, name) == (if name_counter@.contains_key(name) {
                name_counter@[name] as nat
            } else {
                0
            }) by {
            if name != node@.name {
                assert(named(views, i as nat, name) == named(views, (i + 1) as nat, name));
            }
        }
        i += 1;
    }
    Some(rows)
}

/// What calls that wait for the end of their run hold.
spec fn pending_view(pending: Option<GraphNode>) -> Option<SpanView> {
    match pending {
        Some(node) => Some(node@),
        None => None,
    }
}

proof fn lemma_named_bound(nodes: Seq<SpanView>, n: nat, name: Seq<char>)
    ensures
        named(nodes, n, name) <= n,
    decreases n,
{
    if n > 0 {
        lemma_named_bound(nodes, (n - 1) as nat, name);
    }
}

/// Grouping that fails on the first nodes fails on all of them.
proof fn lemma_group_overflow(nodes: Seq<SpanView>, shares: Seq<ShareView>, n: nat)
    requires
        n <= nodes.len(),
        grouped_prefix(nodes, shares, n) is None,
    ensures
        grouped(nodes, shares) is None,
    decreases nodes.len() - n,
{
    if n < nodes.len() {
        lemma_group_overflow(nodes, shares, n + 1);
    }
}

/// The rows, whose shares are given row by row, with neighbouring rows that are too small
/// collapsed into `[...]`, unless a sum leaves its range.
pub fn collapse_small(rows: &Vec<GraphNode>, shares: &Vec<Share>) -> (shown: Option<Vec<GraphNode>>)
    requires
        rows@.len() == shares@.len(),
    ensures
        match shown {
            Some(list) => collapsed(node_views(rows@), share_views(shares@)) == Some(
                node_views(list@),
            ),
            None => collapsed(node_views(rows@), share_views(shares@)) is None,
        },
{
    let ghost views = node_views(rows@);
    let ghost parts = share_views(shares@);
    let mut shown: Vec<GraphNode> = Vec::new();
    let ellipsis = "[...]".to_owned();
    let mut i: usize = 0;
    assert(node_views(shown@) =~= seq![]);
    while i < rows.len()
        invariant
            i <= rows@.len(),
            rows@.len() == shares@.len(),
            views == node_views(rows@),
            parts == share_views(shares@),
            ellipsis@ == "[...]"@,
            collapsed_prefix(views, parts, i as nat) == Some(node_views(shown@)),
        decreases rows.len() - i,
    {
        let row = &rows[i];
        let ghost before = node_views(shown@);
        assert(row@ == views[i as int]);
        assert(shares@[i as int]@ == parts[i as int]);
        if !shares[i].below_hide {
            let copy = row.clone();
            shown.push(copy);
            assert(node_views(shown@) =~= before.push(copy@));
        } else {
            let continues = shown.len() > 0 && shown[shown.len() - 1].name == ellipsis;
            assert(continues == (before.len() > 0 && before.last().name == "[...]"@)) by {
                if before.len() > 0 {
                    assert(before.last() == shown@[shown@.len() - 1]@);
                }
            }
            let ghost kept = if continues {
                before.drop_last()
            } else {
                before
            };
            let target = match shown.pop() {
                Some(last) => if continues {
                    last
                } else {
                    shown.push(last);
                    GraphNode::new("[...]")
                },
                None => GraphNode::new("[...]"),
            };
            assert(node_views(shown@) =~= kept);
            match target.checked_aggregate(row) {
                Some(sum) => {
                    shown.push(sum);
                    assert(node_views(shown@) =~= kept.push(sum@));
                },
                None => {
                    proof {
                        lemma_collapse_overflow(views, parts, (i + 1) as nat);
                    }
                    return None;
                },
            }
        }
        i += 1;
    }
    Some(shown)
}

/// Collapsing that fails on the first rows fails on all of them.
proof fn lemma_collapse_overflow(rows: Seq<SpanView>, shares: Seq<ShareView>, n: nat)
    requires
        n <= rows.len(),
        collapsed_prefix(rows, shares, n) is None,
    ensures
        collapsed(rows, shares) is None,
    decreases rows.len() - n,
{
    if n < rows.len() {
        lemma_collapse_overflow(rows, shares, n + 1);
    }
}

impl GraphNode {
    /// The row for the time of the node that its children do not account for, unless they
    /// ran longer than the node.
    pub fn unaccounted(&self) -> (row: Option<GraphNode>)
        ensures
            match row {
                Some(node) => unaccounted(self@) == Some(node@),
                None => unaccounted(self@) is None,
            },
    {
        broadcast use lemma_children_view;
        let ghost views = self@.children;
        let mut left: u128 = self.execution_duration;
        let mut i: usize = 0;
        assert(views.take(0) =~= seq![]);
        while i < self.child_nodes.len()
            invariant
                i <= self.child_nodes@.len(),
                views == node_views(self.child_nodes@),
                views == self@.children,
                left + duration_sum(views.take(i as int)) == self.execution_duration,
            decreases self.child_nodes.len() - i,
        {
            let child = &self.child_nodes[i];
            assert(child@ == views[i as int]);
            assert(views.take(i + 1).drop_last() =~= views.take(i as int));
            assert(views.take(i + 1).last() == child@);
            if child.execution_duration > left {
                proof {
                    lemma_duration_sum_take(views, i + 1);
                }
                return None;
            }
            left = left - child.execution_duration;
            i += 1;
        }
        assert(views.take(i as int) =~= views);
        let mut row = GraphNode::new("[unaccounted]");
        row.execution_duration = left;
        assert(row@.children =~= seq![]);
        Some(row)
    }
}

/// The first nodes of a list did not run longer than all of them.
pub proof fn lemma_duration_sum_take(nodes: Seq<SpanView>, n: int)
    requires
        0 <= n <= nodes.len(),
    ensures
        duration_sum(nodes.take(n)) <= duration_sum(nodes),
    decreases nodes.len() - n,
{
    if n == nodes.len() {
        assert(nodes.take(n) =~= nodes);
    } else {
        lemma_duration_sum_take(nodes, n + 1);
        assert(nodes.take(n + 1).drop_last() =~= nodes.take(n));
    }
}

} // verus!
