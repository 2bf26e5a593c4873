//! How calls are grouped run by run, and small rows collapsed one by one.

use vstd::prelude::*;

use crate::assoc::lemma_put;
use crate::assoc::lookup;
use crate::config::ShareView;
use crate::field_laws::{first_with, lacks, law_storing_replaces_or_appends};
use crate::node::{aggregated, SpanView};
use crate::rows::{collapsed, collapsed_prefix, duration_sum, ends_run, grouped, grouped_prefix};
use crate::rows::{indexed, named, unaccounted, with_pending};
use crate::rows_laws::{aggregated_all, is_run, minor_calls, run_rows};
use crate::rows_laws::{lemma_grouped_grows, lemma_run};
use crate::text::decimal;

verus! {

/// A run ends at the last node, and where the next node has another name.
pub proof fn law_a_run_ends_where_the_name_changes(nodes: Seq<SpanView>, i: int)
    requires
        0 <= i < nodes.len(),
    ensures
        i == nodes.len() - 1 ==> ends_run(nodes, i),
        i < nodes.len() - 1 ==> (ends_run(nodes, i) <==> nodes[i].name != nodes[i + 1].name),
{
}

/// The number of a call is how many of the nodes up to it have its name.
pub proof fn law_calls_are_numbered_by_name(nodes: Seq<SpanView>, n: nat, name: Seq<char>)
    requires
        n <= nodes.len(),
    ensures
        named(nodes, n, name) == nodes.take(n as int).filter(
            |node: SpanView| node.name == name,
        ).len(),
    decreases n,
{
    reveal(Seq::filter);
    if n > 0 {
        law_calls_are_numbered_by_name(nodes, (n - 1) as nat, name);
        assert(nodes.take(n as int).drop_last() =~= nodes.take(n - 1));
    }
}

/// A numbered call has its number as the field `index`, in place of a field of that name or
/// behind all others; nothing else of it changes.
pub proof fn law_a_numbered_call_has_an_index(node: SpanView, number: nat)
    ensures
        ({
            let row = indexed(node, number);
            &&& lookup(row.metadata, "index"@) == Some(decimal(number))
            &&& lacks(node.metadata, "index"@) ==> row.metadata == node.metadata.push(
                ("index"@, decimal(number)),
            )
            &&& forall|at: int| #[trigger]
                first_with(node.metadata, "index"@, at) ==> row.metadata == node.metadata.update(
                    at,
                    ("index"@, decimal(number)),
                )
            &&& row.name == node.name
            &&& row.started == node.started
            &&& row.duration == node.duration
            &&& row.events == node.events
            &&& row.children == node.children
            &&& row.calls == node.calls
        }),
{
    lemma_put(node.metadata, "index"@, decimal(number));
    law_storing_replaces_or_appends(node.metadata, "index"@, decimal(number));
}

/// Grouping nothing gives nothing. The last run of a list is grouped by itself, behind the
/// rows of the nodes in front of it: each relevant call has a row of its own, numbered unless
/// it ends the run, and all other calls have one row together. That fails where the nodes in
/// front cannot be grouped, and where the time, calls or events of the run leave their range.
pub proof fn law_the_last_run_is_grouped_by_itself(
    nodes: Seq<SpanView>,
    shares: Seq<ShareView>,
    from: int,
)
    requires
        is_run(nodes, from, nodes.len() as int),
        shares.len() == nodes.len(),
    ensures
        grouped(Seq::empty(), Seq::empty()) == Some(Seq::<SpanView>::empty()),
        ({
            let front = grouped(nodes.take(from), shares.take(from));
            let minor = minor_calls(nodes, shares, from, nodes.len() as int);
            &&& front is None ==> grouped(nodes, shares) is None
            &&& minor.len() > 0 && aggregated_all(minor) is None ==> grouped(nodes, shares) is None
            &&& front is Some && (minor.len() == 0 || aggregated_all(minor) is Some) ==> grouped(
                nodes,
                shares,
            ) == Some(front->0 + run_rows(nodes, shares, from, nodes.len() as int))
        }),
{
    let to = nodes.len() as int;
    let minor = minor_calls(nodes, shares, from, to);
    lemma_front(nodes, shares, from, from as nat);
    if grouped(nodes, shares) is Some {
        lemma_grouped_grows(nodes, shares, from as nat, to as nat);
        lemma_run(nodes, shares, from, to, to);
    }
    if grouped(nodes.take(from), shares.take(from)) is Some && (minor.len() == 0 || aggregated_all(
        minor,
    ) is Some) {
        lemma_run_succeeds(nodes, shares, from, to, to);
        lemma_run(nodes, shares, from, to, to);
    }
}

proof fn lemma_named_front(nodes: Seq<SpanView>, from: int, n: nat, name: Seq<char>)
    requires
        n <= from <= nodes.len(),
    ensures
        named(nodes.take(from), n, name) == named(nodes, n, name),
    decreases n,
{
    if n > 0 {
        lemma_named_front(nodes, from, (n - 1) as nat, name);
    }
}

/// The nodes in front of a run are grouped as if there were no others.
proof fn lemma_front(nodes: Seq<SpanView>, shares: Seq<ShareView>, from: int, n: nat)
    requires
        n <= from < nodes.len(),
        shares.len() == nodes.len(),
        from == 0 || nodes[from - 1].name != nodes[from].name,
    ensures
        grouped_prefix(nodes.take(from), shares.take(from), n) == grouped_prefix(nodes, shares, n),
    decreases n,
{
    if n > 0 {
        let i = n - 1;
        lemma_front(nodes, shares, from, i as nat);
        lemma_named_front(nodes, from, n, nodes[i].name);
        assert(ends_run(nodes.take(from), i) == ends_run(nodes, i));
    }
}

/// Calls that cannot be aggregated cannot be aggregated with more calls behind them either.
proof fn lemma_minor_succeeds(
    nodes: Seq<SpanView>,
    shares: Seq<ShareView>,
    from: int,
    n: int,
    to: int,
)
    requires
        from <= n <= to,
        minor_calls(nodes, shares, from, n).len() > 0,
        aggregated_all(minor_calls(nodes, shares, from, to)) is Some,
    ensures
        aggregated_all(minor_calls(nodes, shares, from, n)) is Some,
        minor_calls(nodes, shares, from, to).len() > 0,
    decreases to - n,
{
    if n < to {
        let before = minor_calls(nodes, shares, from, to - 1);
        lemma_minor_grows(nodes, shares, from, n, to - 1);
        assert(before.push(nodes[to - 1]).drop_last() =~= before);
        lemma_minor_succeeds(nodes, shares, from, n, to - 1);
    }
}

proof fn lemma_minor_grows(
    nodes: Seq<SpanView>,
    shares: Seq<ShareView>,
    from: int,
    n: int,
    to: int,
)
    requires
        from <= n <= to,
    ensures
        minor_calls(nodes, shares, from, n).len() <= minor_calls(nodes, shares, from, to).len(),
    decreases to - n,
{
    if n < to {
        lemma_minor_grows(nodes, shares, from, n, to - 1);
    }
}

/// A run can be grouped where its calls can be aggregated.
proof fn lemma_run_succeeds(
    nodes: Seq<SpanView>,
    shares: Seq<ShareView>,
    from: int,
    to: int,
    n: int,
)
    requires
        is_run(nodes, from, to),
        from <= n <= to,
        grouped_prefix(nodes, shares, from as nat) is Some,
        ({
            let minor = minor_calls(nodes, shares, from, to);
            minor.len() == 0 || aggregated_all(minor) is Some
        }),
    ensures
        grouped_prefix(nodes, shares, n as nat) is Some,
    decreases n - from,
{
    if n > from {
        let i = n - 1;
        lemma_run_succeeds(nodes, shares, from, to, i);
        lemma_run(nodes, shares, from, to, i);
        if !shares[i].above_relevant {
            let (rows, pending) = grouped_prefix(nodes, shares, i as nat)->0;
            let before = minor_calls(nodes, shares, from, i);
            let minor = minor_calls(nodes, shares, from, n);
            assert(minor == before.push(nodes[i]));
            assert(minor.drop_last() =~= before);
            assert(with_pending(pending, nodes[i]) == aggregated_all(minor));
            lemma_minor_grows(nodes, shares, from, n, to);
            lemma_minor_succeeds(nodes, shares, from, n, to);
        }
    }
}

/// Collapsing nothing gives nothing. A further row that is not too small is displayed as it is.
/// One that is too small goes into the `[...]` in front of it, and starts a new `[...]`, which
/// stands for that row alone, where there is none. That fails where the rows in front cannot be
/// collapsed, and where the sum of the times, calls or events leaves its range.
pub proof fn law_rows_are_collapsed_one_by_one(
    rows: Seq<SpanView>,
    shares: Seq<ShareView>,
    row: SpanView,
    share: ShareView,
)
    requires
        rows.len() == shares.len(),
    ensures
        collapsed(Seq::empty(), Seq::empty()) == Some(Seq::<SpanView>::empty()),
        ({
            let after = collapsed(rows.push(row), shares.push(share));
            let start = SpanView {
                name: "[...]"@,
                started: None,
                duration: 0,
                metadata: Seq::empty(),
                events: Seq::empty(),
                children: Seq::empty(),
                calls: 0,
            };
            &&& collapsed(rows, shares) is None ==> after is None
            &&& collapsed(rows, shares) matches Some(shown) ==> {
                let follows_small = rows.len() > 0 && (shares.last().below_hide
                    || rows.last().name == "[...]"@);
                let sum = aggregated(
                    if follows_small {
                        shown.last()
                    } else {
                        start
                    },
                    row,
                );
                &&& !share.below_hide ==> after == Some(shown.push(row))
                &&& share.below_hide && sum is None ==> after is None
                &&& share.below_hide && sum is Some ==> after == (if follows_small {
                    Some(shown.drop_last().push(sum->0))
                } else {
                    Some(shown.push(sum->0))
                })
            }
        }),
{
    let n = rows.len();
    lemma_collapsed_front(rows, shares, row, share, n);
    if let Some(shown) = collapsed(rows, shares) {
        lemma_collapsed_last(rows, shares);
    }
}

proof fn lemma_collapsed_front(
    rows: Seq<SpanView>,
    shares: Seq<ShareView>,
    row: SpanView,
    share: ShareView,
    n: nat,
)
    requires
        n <= rows.len(),
        rows.len() == shares.len(),
    ensures
        collapsed_prefix(rows.push(row), shares.push(share), n) == collapsed_prefix(
            rows,
            shares,
            n,
        ),
    decreases n,
{
    if n > 0 {
        lemma_collapsed_front(rows, shares, row, share, (n - 1) as nat);
    }
}

/// What the last row is named once the rows are collapsed.
proof fn lemma_collapsed_last(rows: Seq<SpanView>, shares: Seq<ShareView>)
    requires
        rows.len() == shares.len(),
        collapsed(rows, shares) is Some,
    ensures
        ({
            let shown = collapsed(rows, shares)->0;
            &&& shown.len() > 0 <==> rows.len() > 0
            &&& rows.len() > 0 ==> (shown.last().name == "[...]"@ <==> shares.last().below_hide
                || rows.last().name == "[...]"@)
        }),
{
    let n = rows.len();
    if n > 0 {
        assert(rows[n - 1] == rows.last());
        assert(shares[n - 1] == shares.last());
        let before = collapsed_prefix(rows, shares, (n - 1) as nat)->0;
        let shown = collapsed(rows, shares)->0;
        if !shares[n - 1].below_hide {
            assert(shown.last() == rows.last());
        }
    }
}

/// The time of a list is the sum of its times.
pub proof fn law_times_add_up(nodes: Seq<SpanView>, node: SpanView)
    ensures
        duration_sum(Seq::empty()) == 0,
        duration_sum(nodes.push(node)) == duration_sum(nodes) + node.duration,
{
    assert(nodes.push(node).drop_last() =~= nodes);
}

/// The row for unaccounted time has the time of the node less that of its children, and no
/// calls, fields, events or children. There is none where the children ran longer.
pub proof fn law_unaccounted_time_is_the_rest(node: SpanView)
    ensures
        duration_sum(node.children) > node.duration ==> unaccounted(node) is None,
        duration_sum(node.children) <= node.duration ==> unaccounted(node) == Some(
            SpanView {
                name: "[unaccounted]"@,
                started: None,
                duration: (node.duration - duration_sum(node.children)) as u128,
                metadata: Seq::empty(),
                events: Seq::empty(),
                children: Seq::empty(),
                calls: 0,
            },
        ),
{
}

} // verus!
