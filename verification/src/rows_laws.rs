//! What the displayed rows keep of the children of a node.

use vstd::prelude::*;

use crate::accumulate_laws::law_aggregate_adds;
use crate::config::{Config, ShareView};
use crate::events::total;
use crate::node::{aggregated, blank, well_formed, SpanView};
use crate::render::lemma_rows_height;
use crate::render::{displayed_rows, height, printed, rendered, rendered_all, scaled, tallest};
use crate::render::Scale;
use crate::rows::{collapsed, collapsed_prefix, duration_sum, ends_run, grouped};
use crate::rows::{flushed, grouped_prefix, indexed, named, unaccounted, with_pending};

verus! {

/// The sum of the calls that a list of nodes stands for.
pub open spec fn call_sum(nodes: Seq<SpanView>) -> nat
    decreases nodes.len(),
{
    if nodes.len() == 0 {
        0
    } else {
        call_sum(nodes.drop_last()) + nodes.last().calls as nat
    }
}

/// The sum of a counter over a list of nodes.
pub open spec fn event_sum(nodes: Seq<SpanView>, key: Seq<char>) -> int
    decreases nodes.len(),
{
    if nodes.len() == 0 {
        0
    } else {
        event_sum(nodes.drop_last(), key) + total(nodes.last().events, key)
    }
}

/// Every node of the list is well formed.
pub open spec fn all_well_formed(nodes: Seq<SpanView>) -> bool {
    forall|i: int| 0 <= i < nodes.len() ==> well_formed(#[trigger] nodes[i])
}

/// Two lists of well-formed nodes that come to the same time, calls and events.
pub open spec fn same_sums(a: Seq<SpanView>, b: Seq<SpanView>) -> bool {
    &&& duration_sum(a) == duration_sum(b)
    &&& call_sum(a) == call_sum(b)
    &&& forall|key: Seq<char>| #[trigger] event_sum(a, key) == event_sum(b, key)
}

proof fn lemma_sums_push(nodes: Seq<SpanView>, node: SpanView)
    ensures
        duration_sum(nodes.push(node)) == duration_sum(nodes) + node.duration,
        call_sum(nodes.push(node)) == call_sum(nodes) + node.calls,
        forall|key: Seq<char>| #[trigger]
            event_sum(nodes.push(node), key) == event_sum(nodes, key) + total(node.events, key),
        all_well_formed(nodes) && well_formed(node) ==> all_well_formed(nodes.push(node)),
{
    assert(nodes.push(node).drop_last() =~= nodes);
}

pub(crate) proof fn lemma_grouped_sums(nodes: Seq<SpanView>, shares: Seq<ShareView>, n: nat)
    requires
        n <= nodes.len(),
        all_well_formed(nodes),
        grouped_prefix(nodes, shares, n) is Some,
    ensures
        ({
            let (rows, pending) = grouped_prefix(nodes, shares, n)->0;
            &&& same_sums(flushed(rows, pending), nodes.take(n as int))
            &&& all_well_formed(flushed(rows, pending))
            &&& pending is Some ==> n > 0 && !ends_run(nodes, n - 1)
        }),
    decreases n,
{
    if n == 0 {
        assert(nodes.take(0) =~= seq![]);
    } else {
        let i = n - 1;
        let node = nodes[i];
        lemma_grouped_sums(nodes, shares, i as nat);
        let (rows, pending) = grouped_prefix(nodes, shares, i as nat)->0;
        let (after, waiting) = grouped_prefix(nodes, shares, n)->0;
        let before = nodes.take(i);
        let all = flushed(rows, pending);
        assert(nodes.take(n as int) =~= before.push(node));
        lemma_sums_push(before, node);
        lemma_sums_push(all, node);
        if pending is Some {
            assert(all.drop_last() =~= rows);
            assert(all[rows.len() as int] == pending->0);
            assert(well_formed(pending->0));
            assert forall|j: int| 0 <= j < rows.len() implies well_formed(#[trigger] rows[j]) by {
                assert(all[j] == rows[j]);
            }
            lemma_sums_push(rows, pending->0);
        }
        if !shares[i].above_relevant {
            let calls = with_pending(pending, node)->0;
            if pending is Some {
                law_aggregate_adds(pending->0, node);
            }
            lemma_sums_push(rows, calls);
            assert(flushed(after, waiting) == rows.push(calls));
            assert forall|key: Seq<char>| #[trigger]
                event_sum(rows.push(calls), key) == event_sum(nodes.take(n as int), key) by {
                assert(event_sum(all, key) == event_sum(before, key));
                if pending is Some {
                    assert(event_sum(rows.push(pending->0), key) == event_sum(rows, key) + total(
                        (pending->0).events,
                        key,
                    ));
                    assert(total(calls.events, key) == total((pending->0).events, key) + total(
                        node.events,
                        key,
                    ));
                }
                assert(event_sum(before.push(node), key) == event_sum(before, key) + total(
                    node.events,
                    key,
                ));
            }
        } else {
            let row = if ends_run(nodes, i) {
                node
            } else {
                indexed(node, named(nodes, n, node.name))
            };
            assert(well_formed(row)) by {
                assert forall|j: int| 0 <= j < row.children.len() implies well_formed(
                    #[trigger] row.children[j],
                ) by {
                    assert(well_formed(node.children[j]));
                }
            }
            if ends_run(nodes, i) {
                assert(flushed(after, waiting) == all.push(node));
            } else {
                lemma_sums_push(rows, row);
                if pending is Some {
                    lemma_sums_push(rows.push(row), pending->0);
                }
                assert(flushed(after, waiting) == flushed(rows.push(row), pending));
            }
            assert forall|key: Seq<char>| #[trigger]
                event_sum(flushed(after, waiting), key) == event_sum(nodes.take(n as int), key) by {
                assert(event_sum(all, key) == event_sum(before, key));
                assert(event_sum(before.push(node), key) == event_sum(before, key) + total(
                    node.events,
                    key,
                ));
                if !ends_run(nodes, i) {
                    assert(event_sum(rows.push(row), key) == event_sum(rows, key) + total(
                        row.events,
                        key,
                    ));
                    if pending is Some {
                        assert(event_sum(rows.push(pending->0), key) == event_sum(rows, key)
                            + total((pending->0).events, key));
                        assert(event_sum(rows.push(row).push(pending->0), key) == event_sum(
                            rows.push(row),
                            key,
                        ) + total((pending->0).events, key));
                    }
                } else {
                    assert(event_sum(all.push(node), key) == event_sum(all, key) + total(
                        node.events,
                        key,
                    ));
                }
            }
        }
    }
}

/// Grouping calls loses none of them: the rows come to the same time, calls and event
/// counts as the nodes that they were made of.
pub proof fn law_grouping_keeps_sums(nodes: Seq<SpanView>, shares: Seq<ShareView>)
    requires
        all_well_formed(nodes),
        grouped(nodes, shares) is Some,
    ensures
        same_sums(grouped(nodes, shares)->0, nodes),
        all_well_formed(grouped(nodes, shares)->0),
{
    lemma_grouped_sums(nodes, shares, nodes.len());
    assert(nodes.take(nodes.len() as int) =~= nodes);
}

pub(crate) proof fn lemma_collapsed_sums(rows: Seq<SpanView>, shares: Seq<ShareView>, n: nat)
    requires
        n <= rows.len(),
        all_well_formed(rows),
        collapsed_prefix(rows, shares, n) is Some,
    ensures
        same_sums(collapsed_prefix(rows, shares, n)->0, rows.take(n as int)),
        all_well_formed(collapsed_prefix(rows, shares, n)->0),
        n > 0 ==> (collapsed_prefix(rows, shares, n)->0).len() > 0,
    decreases n,
{
    if n == 0 {
        assert(rows.take(0) =~= seq![]);
    } else {
        let row = rows[n - 1];
        lemma_collapsed_sums(rows, shares, (n - 1) as nat);
        let shown = collapsed_prefix(rows, shares, (n - 1) as nat)->0;
        let after = collapsed_prefix(rows, shares, n)->0;
        let before = rows.take(n - 1);
        assert(rows.take(n as int) =~= before.push(row));
        lemma_sums_push(before, row);
        assert forall|key: Seq<char>| #[trigger]
            event_sum(before.push(row), key) == event_sum(shown, key) + total(row.events, key) by {
            assert(event_sum(shown, key) == event_sum(before, key));
        }
        if !shares[n - 1].below_hide {
            lemma_sums_push(shown, row);
        } else if shown.len() > 0 && shown.last().name == "[...]"@ {
            let last = shown.last();
            let init = shown.drop_last();
            assert(well_formed(shown[shown.len() - 1]));
            assert forall|j: int| 0 <= j < init.len() implies well_formed(#[trigger] init[j]) by {
                assert(init[j] == shown[j]);
            }
            law_aggregate_adds(last, row);
            lemma_sums_push(init, aggregated(last, row)->0);
            assert forall|key: Seq<char>| #[trigger]
                event_sum(after, key) == event_sum(rows.take(n as int), key) by {
                assert(event_sum(shown, key) == event_sum(init, key) + total(last.events, key));
                assert(event_sum(before.push(row), key) == event_sum(shown, key) + total(
                    row.events,
                    key,
                ));
            }
        } else {
            let none = blank("[...]"@);
            assert(well_formed(none));
            law_aggregate_adds(none, row);
            let sum = aggregated(none, row)->0;
            lemma_sums_push(shown, sum);
            assert forall|key: Seq<char>| #[trigger]
                event_sum(after, key) == event_sum(rows.take(n as int), key) by {
                assert(total(none.events, key) == 0);
                assert(total(sum.events, key) == total(none.events, key) + total(row.events, key));
                assert(event_sum(before.push(row), key) == event_sum(shown, key) + total(
                    row.events,
                    key,
                ));
            }
        }
    }
}

/// Collapsing rows loses none of them: what is shown comes to the same time, calls and
/// event counts as the rows, and is empty only where there is no row.
pub proof fn law_collapsing_keeps_sums(rows: Seq<SpanView>, shares: Seq<ShareView>)
    requires
        all_well_formed(rows),
        collapsed(rows, shares) is Some,
    ensures
        same_sums(collapsed(rows, shares)->0, rows),
        all_well_formed(collapsed(rows, shares)->0),
        rows.len() > 0 ==> (collapsed(rows, shares)->0).len() > 0,
{
    lemma_collapsed_sums(rows, shares, rows.len());
    assert(rows.take(rows.len() as int) =~= rows);
}

proof fn lemma_sums_front(first: SpanView, rows: Seq<SpanView>)
    ensures
        duration_sum(seq![first] + rows) == first.duration + duration_sum(rows),
        call_sum(seq![first] + rows) == first.calls + call_sum(rows),
        forall|key: Seq<char>| #[trigger]
            event_sum(seq![first] + rows, key) == total(first.events, key) + event_sum(rows, key),
    decreases rows.len(),
{
    let all = seq![first] + rows;
    if rows.len() == 0 {
        let none: Seq<SpanView> = seq![];
        assert(all =~= none.push(first));
        lemma_sums_push(none, first);
        assert forall|key: Seq<char>| #[trigger]
            event_sum(all, key) == total(first.events, key) + event_sum(rows, key) by {
            assert(event_sum(none.push(first), key) == event_sum(none, key) + total(
                first.events,
                key,
            ));
        }
    } else {
        let init = rows.drop_last();
        let front = seq![first] + init;
        lemma_sums_front(first, init);
        assert(all =~= front.push(rows.last()));
        lemma_sums_push(front, rows.last());
        assert forall|key: Seq<char>| #[trigger]
            event_sum(all, key) == total(first.events, key) + event_sum(rows, key) by {
            assert(event_sum(front.push(rows.last()), key) == event_sum(front, key) + total(
                rows.last().events,
                key,
            ));
        }
    }
}

/// The displayed rows stand for exactly the calls of the children, and come to the same
/// event counts. With unaccounted time
/// displayed, and where there is a row at all, they come to the time of the node itself;
/// without it, to the time of its children.
pub proof fn law_displayed_rows_account_for_the_node(
    node: SpanView,
    root_time: u128,
    scale: Scale,
    config: Config,
)
    requires
        well_formed(node),
        displayed_rows(node, root_time, scale, config) is Some,
    ensures
        ({
            let rows = displayed_rows(node, root_time, scale, config)->0;
            &&& all_well_formed(rows)
            &&& call_sum(rows) == call_sum(node.children)
            &&& forall|key: Seq<char>| #[trigger]
                event_sum(rows, key) == event_sum(node.children, key)
            &&& config.display_unaccounted && rows.len() > 0 ==> duration_sum(rows)
                == node.duration
            &&& !config.display_unaccounted ==> duration_sum(rows) == duration_sum(node.children)
        }),
{
    let nodes = node.children;
    assert(all_well_formed(nodes));
    law_grouping_keeps_sums(nodes, scaled(nodes, root_time, scale));
    let calls = grouped(nodes, scaled(nodes, root_time, scale))->0;
    if config.hide_small {
        law_collapsing_keeps_sums(calls, scaled(calls, root_time, scale));
    }
    let shown = if config.hide_small {
        collapsed(calls, scaled(calls, root_time, scale))->0
    } else {
        calls
    };
    assert forall|key: Seq<char>| #[trigger] event_sum(shown, key) == event_sum(nodes, key) by {
        assert(event_sum(calls, key) == event_sum(nodes, key));
    }
    if config.display_unaccounted && shown.len() > 0 {
        let first = unaccounted(node)->0;
        lemma_sums_front(first, shown);
        assert forall|key: Seq<char>| #[trigger]
            event_sum(seq![first] + shown, key) == event_sum(nodes, key) by {
            assert(total(first.events, key) == 0);
            assert(event_sum(shown, key) == event_sum(nodes, key));
        }
        assert(well_formed(first));
        assert forall|i: int| 0 <= i < shown.len() + 1 implies well_formed(
            #[trigger] (seq![first] + shown)[i],
        ) by {
            if i > 0 {
                assert(well_formed(shown[i - 1]));
            }
        }
    }
}

/// The row of a relevant call: the call itself, with its number unless it ends its run.
pub open spec fn relevant_row(nodes: Seq<SpanView>, i: int) -> SpanView {
    if ends_run(nodes, i) {
        nodes[i]
    } else {
        indexed(nodes[i], named(nodes, (i + 1) as nat, nodes[i].name))
    }
}

/// A call that is relevant has a row of its own, with or without its number, and nothing
/// is added to it.
pub proof fn law_relevant_calls_have_their_own_rows(
    nodes: Seq<SpanView>,
    shares: Seq<ShareView>,
    i: int,
)
    requires
        0 <= i < nodes.len(),
        shares[i].above_relevant,
        grouped(nodes, shares) is Some,
    ensures
        (grouped(nodes, shares)->0).contains(relevant_row(nodes, i)),
{
    let row = relevant_row(nodes, i);
    lemma_grouped_grows(nodes, shares, (i + 1) as nat, nodes.len());
    let (rows, _) = grouped_prefix(nodes, shares, (i + 1) as nat)->0;
    assert(rows.last() == row);
    let all = grouped(nodes, shares)->0;
    assert(all[rows.len() - 1] == row);
}

/// Rows that are there stay as further nodes are grouped.
pub(crate) proof fn lemma_grouped_grows(
    nodes: Seq<SpanView>,
    shares: Seq<ShareView>,
    m: nat,
    n: nat,
)
    requires
        m <= n,
        grouped_prefix(nodes, shares, n) is Some,
    ensures
        grouped_prefix(nodes, shares, m) is Some,
        ({
            let (less, _) = grouped_prefix(nodes, shares, m)->0;
            let (more, _) = grouped_prefix(nodes, shares, n)->0;
            &&& less.len() <= more.len()
            &&& forall|j: int| 0 <= j < less.len() ==> #[trigger] more[j] == less[j]
        }),
    decreases n,
{
    if m < n {
        lemma_grouped_grows(nodes, shares, m, (n - 1) as nat);
    }
}

/// The nodes `from..to` are all neighbouring calls of one name.
pub open spec fn is_run(nodes: Seq<SpanView>, from: int, to: int) -> bool {
    &&& 0 <= from < to <= nodes.len()
    &&& forall|i: int| from <= i < to ==> (#[trigger] nodes[i]).name == nodes[from].name
    &&& from == 0 || nodes[from - 1].name != nodes[from].name
    &&& ends_run(nodes, to - 1)
}

/// The calls among the nodes `from..to` that are not relevant, in order.
pub open spec fn minor_calls(
    nodes: Seq<SpanView>,
    shares: Seq<ShareView>,
    from: int,
    to: int,
) -> Seq<SpanView>
    decreases to - from,
{
    if to <= from {
        seq![]
    } else if shares[to - 1].above_relevant {
        minor_calls(nodes, shares, from, to - 1)
    } else {
        minor_calls(nodes, shares, from, to - 1).push(nodes[to - 1])
    }
}

/// The rows of the relevant calls among the nodes `from..to`, in order.
pub open spec fn relevant_rows(
    nodes: Seq<SpanView>,
    shares: Seq<ShareView>,
    from: int,
    to: int,
) -> Seq<SpanView>
    decreases to - from,
{
    if to <= from {
        seq![]
    } else if shares[to - 1].above_relevant {
        relevant_rows(nodes, shares, from, to - 1).push(relevant_row(nodes, to - 1))
    } else {
        relevant_rows(nodes, shares, from, to - 1)
    }
}

/// The calls, aggregated one after the other; none where there is no call, or a sum leaves
/// its range.
pub open spec fn aggregated_all(calls: Seq<SpanView>) -> Option<SpanView>
    decreases calls.len(),
{
    if calls.len() == 0 {
        None
    } else if calls.len() == 1 {
        Some(calls[0])
    } else {
        match aggregated_all(calls.drop_last()) {
            Some(sum) => aggregated(sum, calls.last()),
            None => None,
        }
    }
}

/// The rows of the run `from..to`: those of its relevant calls and, where it has calls that
/// are not relevant, a single one for all of these, behind the others but for a relevant
/// call that ends the run.
pub open spec fn run_rows(
    nodes: Seq<SpanView>,
    shares: Seq<ShareView>,
    from: int,
    to: int,
) -> Seq<SpanView> {
    let own = relevant_rows(nodes, shares, from, to);
    let minor = minor_calls(nodes, shares, from, to);
    if minor.len() == 0 {
        own
    } else if shares[to - 1].above_relevant {
        own.drop_last().push(aggregated_all(minor)->0).push(own.last())
    } else {
        own.push(aggregated_all(minor)->0)
    }
}

/// How many rows the first `n` nodes have.
pub open spec fn row_count(nodes: Seq<SpanView>, shares: Seq<ShareView>, n: int) -> int {
    (grouped_prefix(nodes, shares, n as nat)->0).0.len() as int
}

/// In every run of neighbouring calls of one name, the calls that are not relevant are
/// displayed as exactly one row of that name, which stands for all their time, calls and
/// event counts; every relevant call of the run has a row of its own, and the run has no
/// other rows.
pub proof fn law_one_row_for_the_calls_of_a_run_that_are_not_relevant(
    nodes: Seq<SpanView>,
    shares: Seq<ShareView>,
    from: int,
    to: int,
)
    requires
        all_well_formed(nodes),
        is_run(nodes, from, to),
        grouped(nodes, shares) is Some,
    ensures
        ({
            let rows = grouped(nodes, shares)->0;
            let first = row_count(nodes, shares, from);
            let end = row_count(nodes, shares, to);
            let minor = minor_calls(nodes, shares, from, to);
            &&& 0 <= first <= end <= rows.len()
            &&& rows.subrange(first, end) == run_rows(nodes, shares, from, to)
            &&& minor.len() > 0 ==> {
                &&& aggregated_all(minor) is Some
                &&& (aggregated_all(minor)->0).name == nodes[from].name
                &&& (aggregated_all(minor)->0).duration == duration_sum(minor)
                &&& (aggregated_all(minor)->0).calls == call_sum(minor)
                &&& (aggregated_all(minor)->0).children == minor[0].children
                &&& forall|key: Seq<char>| #[trigger]
                    total((aggregated_all(minor)->0).events, key) == event_sum(minor, key)
            }
        }),
{
    let all = grouped(nodes, shares)->0;
    lemma_grouped_grows(nodes, shares, from as nat, nodes.len());
    lemma_grouped_grows(nodes, shares, to as nat, nodes.len());
    lemma_run(nodes, shares, from, to, to);
    let (rows, _) = grouped_prefix(nodes, shares, from as nat)->0;
    let (more, _) = grouped_prefix(nodes, shares, to as nat)->0;
    let run = run_rows(nodes, shares, from, to);
    assert(more == rows + run);
    assert(all.subrange(rows.len() as int, more.len() as int) =~= run) by {
        assert forall|j: int| 0 <= j < run.len() implies #[trigger] all.subrange(
            rows.len() as int,
            more.len() as int,
        )[j] == run[j] by {
            assert(all[rows.len() + j] == more[rows.len() + j]);
        }
    }
    let minor = minor_calls(nodes, shares, from, to);
    if minor.len() > 0 {
        lemma_minor_calls(nodes, shares, from, to);
        lemma_aggregated_all(minor);
        assert(minor[0].name == nodes[from].name);
    }
}

/// The minor calls of a run are well formed and have its name.
proof fn lemma_minor_calls(nodes: Seq<SpanView>, shares: Seq<ShareView>, from: int, to: int)
    requires
        0 <= from <= to <= nodes.len(),
        all_well_formed(nodes),
        forall|i: int| from <= i < to ==> (#[trigger] nodes[i]).name == nodes[from].name,
    ensures
        all_well_formed(minor_calls(nodes, shares, from, to)),
        forall|i: int|
            0 <= i < minor_calls(nodes, shares, from, to).len() ==> (#[trigger] minor_calls(
                nodes,
                shares,
                from,
                to,
            )[i]).name == nodes[from].name,
    decreases to - from,
{
    if from < to {
        lemma_minor_calls(nodes, shares, from, to - 1);
        assert(nodes[to - 1].name == nodes[from].name);
    }
}

/// What aggregating a list of calls comes to.
proof fn lemma_aggregated_all(calls: Seq<SpanView>)
    requires
        calls.len() > 0,
        all_well_formed(calls),
        aggregated_all(calls) is Some,
    ensures
        ({
            let sum = aggregated_all(calls)->0;
            &&& well_formed(sum)
            &&& sum.name == calls[0].name
            &&& sum.children == calls[0].children
            &&& sum.duration == duration_sum(calls)
            &&& sum.calls == call_sum(calls)
            &&& forall|key: Seq<char>| #[trigger] total(sum.events, key) == event_sum(calls, key)
        }),
    decreases calls.len(),
{
    let none: Seq<SpanView> = seq![];
    let init = calls.drop_last();
    let last = calls.last();
    assert(calls =~= init.push(last));
    lemma_sums_push(init, last);
    assert(well_formed(calls[calls.len() - 1]));
    if calls.len() == 1 {
        assert(init =~= none);
        assert forall|key: Seq<char>| #[trigger]
            total(calls[0].events, key) == event_sum(calls, key) by {
            assert(event_sum(init.push(last), key) == event_sum(init, key) + total(
                last.events,
                key,
            ));
        }
    } else {
        assert forall|i: int| 0 <= i < init.len() implies well_formed(#[trigger] init[i]) by {
            assert(init[i] == calls[i]);
        }
        lemma_aggregated_all(init);
        let sum = aggregated_all(init)->0;
        law_aggregate_adds(sum, last);
        let after = aggregated(sum, last)->0;
        assert forall|key: Seq<char>| #[trigger]
            total(after.events, key) == event_sum(calls, key) by {
            assert(total(sum.events, key) == event_sum(init, key));
            assert(event_sum(init.push(last), key) == event_sum(init, key) + total(
                last.events,
                key,
            ));
        }
    }
}

/// Calls wait only inside of a run.
proof fn lemma_pending_inside_run(nodes: Seq<SpanView>, shares: Seq<ShareView>, n: nat)
    requires
        grouped_prefix(nodes, shares, n) is Some,
        n == 0 || ends_run(nodes, n - 1),
    ensures
        (grouped_prefix(nodes, shares, n)->0).1 is None,
{
}

/// The rows and the waiting calls in the middle of a run, and the rows at its end.
pub(crate) proof fn lemma_run(
    nodes: Seq<SpanView>,
    shares: Seq<ShareView>,
    from: int,
    to: int,
    n: int,
)
    requires
        is_run(nodes, from, to),
        from <= n <= to,
        grouped_prefix(nodes, shares, n as nat) is Some,
    ensures
        grouped_prefix(nodes, shares, from as nat) is Some,
        ({
            let (start, _) = grouped_prefix(nodes, shares, from as nat)->0;
            let (rows, pending) = grouped_prefix(nodes, shares, n as nat)->0;
            let minor = minor_calls(nodes, shares, from, n);
            let own = relevant_rows(nodes, shares, from, n);
            &&& minor.len() > 0 ==> aggregated_all(minor) is Some
            &&& n < to ==> rows == start + own && pending == aggregated_all(minor)
            &&& n == to ==> rows == start + run_rows(nodes, shares, from, to)
        }),
    decreases n,
{
    let minor = minor_calls(nodes, shares, from, n);
    if n == from {
        if from > 0 {
            assert(ends_run(nodes, from - 1));
        }
        lemma_pending_inside_run(nodes, shares, from as nat);
        let (start, _) = grouped_prefix(nodes, shares, from as nat)->0;
        assert(start + relevant_rows(nodes, shares, from, n) =~= start);
    } else {
        let i = n - 1;
        lemma_run(nodes, shares, from, to, i);
        let (start, _) = grouped_prefix(nodes, shares, from as nat)->0;
        let (rows, pending) = grouped_prefix(nodes, shares, i as nat)->0;
        let (after, waiting) = grouped_prefix(nodes, shares, n as nat)->0;
        let before = minor_calls(nodes, shares, from, i);
        let own = relevant_rows(nodes, shares, from, i);
        assert(nodes[i].name == nodes[from].name);
        assert(ends_run(nodes, i) == (n == to)) by {
            if n < to {
                assert(nodes[n].name == nodes[from].name);
            }
        }
        if shares[i].above_relevant {
            let row = relevant_row(nodes, i);
            assert(own.push(row).drop_last() =~= own);
            if n < to {
                assert(after =~= start + own.push(row));
            } else if before.len() == 0 {
                assert(after =~= start + own.push(row));
            } else {
                assert(after =~= start + own.push(aggregated_all(before)->0).push(row));
            }
        } else {
            assert(before.push(nodes[i]).drop_last() =~= before);
            assert(with_pending(pending, nodes[i]) == aggregated_all(minor));
            if n == to {
                assert(after =~= start + own.push(aggregated_all(minor)->0));
            }
        }
    }
}

/// Where no two neighbours have the same name, every node is displayed as it is.
pub proof fn law_different_neighbours_are_not_grouped(nodes: Seq<SpanView>, shares: Seq<ShareView>)
    requires
        forall|i: int| 0 <= i < nodes.len() ==> #[trigger] ends_run(nodes, i),
    ensures
        grouped(nodes, shares) == Some(nodes),
{
    lemma_single_runs(nodes, shares, nodes.len());
    assert(nodes.take(nodes.len() as int) =~= nodes);
}

proof fn lemma_single_runs(nodes: Seq<SpanView>, shares: Seq<ShareView>, n: nat)
    requires
        n <= nodes.len(),
        forall|i: int| 0 <= i < nodes.len() ==> #[trigger] ends_run(nodes, i),
    ensures
        grouped_prefix(nodes, shares, n) == Some((nodes.take(n as int), None::<SpanView>)),
    decreases n,
{
    if n == 0 {
        assert(nodes.take(0) =~= seq![]);
    } else {
        lemma_single_runs(nodes, shares, (n - 1) as nat);
        assert(ends_run(nodes, n - 1));
        assert(nodes.take(n as int) =~= nodes.take(n - 1).push(nodes[n - 1]));
    }
}

/// The first `n` rows that are not too small, in order.
pub open spec fn large_rows(rows: Seq<SpanView>, shares: Seq<ShareView>, n: nat) -> Seq<SpanView>
    decreases n,
{
    if n == 0 {
        seq![]
    } else if shares[n - 1].below_hide {
        large_rows(rows, shares, (n - 1) as nat)
    } else {
        large_rows(rows, shares, (n - 1) as nat).push(rows[n - 1])
    }
}

/// The rows of another name than `[...]`, in order.
pub open spec fn proper_rows(rows: Seq<SpanView>) -> Seq<SpanView>
    decreases rows.len(),
{
    if rows.len() == 0 {
        seq![]
    } else if rows.last().name == "[...]"@ {
        proper_rows(rows.drop_last())
    } else {
        proper_rows(rows.drop_last()).push(rows.last())
    }
}

/// Collapsing keeps the rows that are not too small as they are and in order; everything
/// else is inside `[...]`, and no two `[...]` are neighbours.
pub proof fn law_collapsing_hides_exactly_the_small_rows(
    rows: Seq<SpanView>,
    shares: Seq<ShareView>,
)
    requires
        forall|i: int| 0 <= i < rows.len() ==> (#[trigger] rows[i]).name != "[...]"@,
        collapsed(rows, shares) is Some,
    ensures
        ({
            let shown = collapsed(rows, shares)->0;
            &&& proper_rows(shown) == large_rows(rows, shares, rows.len())
            &&& forall|i: int|
                0 <= i < shown.len() - 1 ==> (#[trigger] shown[i]).name != "[...]"@ || shown[i
                    + 1].name != "[...]"@
        }),
{
    lemma_collapsed_proper(rows, shares, rows.len());
}

proof fn lemma_collapsed_proper(rows: Seq<SpanView>, shares: Seq<ShareView>, n: nat)
    requires
        n <= rows.len(),
        forall|i: int| 0 <= i < rows.len() ==> (#[trigger] rows[i]).name != "[...]"@,
        collapsed_prefix(rows, shares, n) is Some,
    ensures
        ({
            let shown = collapsed_prefix(rows, shares, n)->0;
            &&& proper_rows(shown) == large_rows(rows, shares, n)
            &&& forall|i: int|
                0 <= i < shown.len() - 1 ==> (#[trigger] shown[i]).name != "[...]"@ || shown[i
                    + 1].name != "[...]"@
        }),
    decreases n,
{
    if n > 0 {
        lemma_collapsed_proper(rows, shares, (n - 1) as nat);
        let shown = collapsed_prefix(rows, shares, (n - 1) as nat)->0;
        let after = collapsed_prefix(rows, shares, n)->0;
        assert(rows[n - 1].name != "[...]"@);
        if shares[n - 1].below_hide && shown.len() > 0 && shown.last().name == "[...]"@ {
            assert(after.drop_last() =~= shown.drop_last());
            assert forall|i: int| 0 <= i < after.len() - 1 implies (#[trigger] after[i]).name
                != "[...]"@ || after[i + 1].name != "[...]"@ by {
                assert(after[i] == shown[i]);
                assert(after[i + 1].name == shown[i + 1].name);
            }
        } else {
            assert(after.drop_last() =~= shown);
            assert forall|i: int| 0 <= i < after.len() - 1 implies (#[trigger] after[i]).name
                != "[...]"@ || after[i + 1].name != "[...]"@ by {
                assert(after[i] == shown[i]);
                if i + 1 < shown.len() {
                    assert(after[i + 1] == shown[i + 1]);
                }
            }
        }
    }
}

/// Where no row is too small, nothing is collapsed.
pub proof fn law_nothing_small_nothing_collapsed(rows: Seq<SpanView>, shares: Seq<ShareView>)
    requires
        forall|i: int| 0 <= i < rows.len() ==> !(#[trigger] shares[i]).below_hide,
    ensures
        collapsed(rows, shares) == Some(rows),
{
    lemma_nothing_small(rows, shares, rows.len());
    assert(rows.take(rows.len() as int) =~= rows);
}

proof fn lemma_nothing_small(rows: Seq<SpanView>, shares: Seq<ShareView>, n: nat)
    requires
        n <= rows.len(),
        forall|i: int| 0 <= i < rows.len() ==> !(#[trigger] shares[i]).below_hide,
    ensures
        collapsed_prefix(rows, shares, n) == Some(rows.take(n as int)),
    decreases n,
{
    if n == 0 {
        assert(rows.take(0) =~= seq![]);
    } else {
        lemma_nothing_small(rows, shares, (n - 1) as nat);
        assert(!shares[n - 1].below_hide);
        assert(rows.take(n as int) =~= rows.take(n - 1).push(rows[n - 1]));
    }
}

/// The configurations differ in nothing that concerns rows and their texts.
pub open spec fn same_display(a: Config, b: Config) -> bool {
    &&& a.hide_small == b.hide_small
    &&& a.display_unaccounted == b.display_unaccounted
    &&& a.no_color == b.no_color
}

proof fn lemma_same_display(node: SpanView, root_time: u128, scale: Scale, a: Config, b: Config)
    requires
        same_display(a, b),
    ensures
        rendered(node, root_time, scale, a) == rendered(node, root_time, scale, b),
    decreases height(node), 0nat,
{
    if displayed_rows(node, root_time, scale, a) is Some {
        lemma_rows_height(node, root_time, scale, a);
        lemma_same_display_all(displayed_rows(node, root_time, scale, a)->0, root_time, scale, a, b);
    }
}

proof fn lemma_same_display_all(
    rows: Seq<SpanView>,
    root_time: u128,
    scale: Scale,
    a: Config,
    b: Config,
)
    requires
        same_display(a, b),
    ensures
        rendered_all(rows, root_time, scale, a) == rendered_all(rows, root_time, scale, b),
    decreases tallest(rows), rows.len(),
{
    if rows.len() > 0 {
        lemma_same_display_all(rows.drop_last(), root_time, scale, a, b);
        lemma_same_display(rows[rows.len() - 1], root_time, scale, a, b);
    }
}

/// Counting spans has effect only if events are accumulated.
pub proof fn law_counting_spans_needs_accumulation(
    node: SpanView,
    scale: Scale,
    config: Config,
    accumulate_spans_count: bool,
)
    requires
        !config.accumulate_events,
    ensures
        printed(node, scale, Config { accumulate_spans_count, ..config }) == printed(
            node,
            scale,
            config,
        ),
{
    let other = Config { accumulate_spans_count, ..config };
    lemma_same_display(node, node.duration, scale, other, config);
}

/// The tree of a node has one child for each displayed row, in order: the tree of that
/// row.
pub proof fn law_tree_follows_the_rows(
    node: SpanView,
    root_time: u128,
    scale: Scale,
    config: Config,
)
    requires
        rendered(node, root_time, scale, config) is Some,
    ensures
        displayed_rows(node, root_time, scale, config) is Some,
        ({
            let tree = rendered(node, root_time, scale, config)->0;
            let rows = displayed_rows(node, root_time, scale, config)->0;
            &&& tree.children.len() == rows.len()
            &&& forall|i: int|
                0 <= i < rows.len() ==> Some(#[trigger] tree.children[i]) == rendered(
                    rows[i],
                    root_time,
                    scale,
                    config,
                )
        }),
{
    let rows = displayed_rows(node, root_time, scale, config)->0;
    lemma_rendered_all(rows, root_time, scale, config);
}

pub(crate) proof fn lemma_rendered_all(
    rows: Seq<SpanView>,
    root_time: u128,
    scale: Scale,
    config: Config,
)
    requires
        rendered_all(rows, root_time, scale, config) is Some,
    ensures
        ({
            let trees = rendered_all(rows, root_time, scale, config)->0;
            &&& trees.len() == rows.len()
            &&& forall|i: int|
                0 <= i < rows.len() ==> Some(#[trigger] trees[i]) == rendered(
                    rows[i],
                    root_time,
                    scale,
                    config,
                )
        }),
    decreases rows.len(),
{
    if rows.len() > 0 {
        let init = rows.drop_last();
        lemma_rendered_all(init, root_time, scale, config);
        let trees = rendered_all(rows, root_time, scale, config)->0;
        let less = rendered_all(init, root_time, scale, config)->0;
        assert forall|i: int| 0 <= i < rows.len() implies Some(#[trigger] trees[i]) == rendered(
            rows[i],
            root_time,
            scale,
            config,
        ) by {
            if i < init.len() {
                assert(trees[i] == less[i]);
                assert(init[i] == rows[i]);
            }
        }
    }
}

} // verus!
