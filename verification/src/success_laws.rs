//! When a call graph can be displayed.

use vstd::prelude::*;

use crate::accumulate_laws::law_accumulate_adds_up_the_tree;
use crate::accumulate_laws::law_accumulate_keeps_all_but_events;
use crate::accumulate_laws::{law_aggregate_adds, same_but_events};
use crate::assoc::distinct;
use crate::assoc::{lemma_position, lemma_position_is};
use crate::config::{Config, ShareView};
use crate::events::{increased, merged, total, Counts};
use crate::events::{law_increase_adds_to_one_counter, law_merge_adds_name_by_name};
use crate::node::{accumulated, accumulated_child, accumulated_prefix, aggregated, blank};
use crate::node::{well_formed, SpanView, DURATION_MAX};
use crate::render::{displayed_rows, height, printed, rendered, rendered_all, scaled, tallest};
use crate::render::{lemma_rows_height, lemma_tallest, Scale};
use crate::rows::{collapsed_prefix, duration_sum, ends_run, flushed, grouped};
use crate::rows::{grouped_prefix, unaccounted, with_pending};
use crate::rows_laws::{all_well_formed, call_sum, relevant_row};
use crate::rows_laws::{lemma_collapsed_sums, lemma_grouped_sums};

verus! {

/// A number as far as it is above zero.
pub open spec fn rise(n: int) -> int {
    if n > 0 {
        n
    } else {
        0
    }
}

/// How far a number is below zero.
pub open spec fn fall(n: int) -> int {
    if n < 0 {
        -n
    } else {
        0
    }
}

/// What a node weighs.
pub type Load = spec_fn(SpanView) -> int;

/// What a list of nodes weighs.
pub open spec fn load_sum(nodes: Seq<SpanView>, load: Load) -> int
    decreases nodes.len(),
{
    if nodes.len() == 0 {
        0
    } else {
        load_sum(nodes.drop_last(), load) + load(nodes.last())
    }
}

/// A node's time.
pub open spec fn time_load() -> Load {
    |node: SpanView| node.duration as int
}

/// A node's calls.
pub open spec fn call_load() -> Load {
    |node: SpanView| node.calls as int
}

/// A node's counter as far as it is above zero.
pub open spec fn rise_load(key: Seq<char>) -> Load {
    |node: SpanView| rise(total(node.events, key))
}

/// How far a node's counter is below zero.
pub open spec fn fall_load(key: Seq<char>) -> Load {
    |node: SpanView| fall(total(node.events, key))
}

/// However the values of a counter on a list of nodes are added up, the sum stays in the
/// range of a counter.
pub open spec fn counter_fits(nodes: Seq<SpanView>, key: Seq<char>) -> bool {
    &&& load_sum(nodes, rise_load(key)) <= i64::MAX
    &&& load_sum(nodes, fall_load(key)) <= -(i64::MIN as int)
}

/// However the nodes of the list are aggregated, no sum leaves its range.
pub open spec fn list_fits(nodes: Seq<SpanView>) -> bool {
    &&& duration_sum(nodes) <= DURATION_MAX
    &&& call_sum(nodes) <= usize::MAX
    &&& forall|key: Seq<char>| #[trigger] counter_fits(nodes, key)
}

/// At every node of the tree, durations exist and no event is listed twice, the calls of
/// the children fit, and the children ran no longer than the node or, where unaccounted
/// time is not displayed, no longer than the longest duration.
pub open spec fn times_fit(node: SpanView, config: Config) -> bool
    decreases node,
{
    &&& node.duration <= DURATION_MAX
    &&& distinct(node.events)
    &&& duration_sum(node.children) <= (if config.display_unaccounted {
        node.duration
    } else {
        DURATION_MAX
    })
    &&& call_sum(node.children) <= usize::MAX
    &&& forall|i: int|
        0 <= i < node.children.len() ==> times_fit(#[trigger] node.children[i], config)
}

/// At every node of the tree, the counters of the children can be added up.
pub open spec fn counters_fit(node: SpanView) -> bool
    decreases node,
{
    &&& forall|key: Seq<char>| #[trigger] counter_fits(node.children, key)
    &&& forall|i: int| 0 <= i < node.children.len() ==> counters_fit(#[trigger] node.children[i])
}

/// Every node of the list can be displayed.
pub open spec fn all_fit(nodes: Seq<SpanView>, config: Config) -> bool {
    forall|i: int|
        0 <= i < nodes.len() ==> times_fit(#[trigger] nodes[i], config) && counters_fit(nodes[i])
}

/// The most that a counter can come to at a node when events are accumulated: what is
/// above zero on the node and everything below it, and one for each span of that name
/// below it where spans are counted.
pub open spec fn most(node: SpanView, key: Seq<char>, count_spans: bool) -> int
    decreases node, node.children.len() + 1,
{
    rise(total(node.events, key)) + most_below(node, node.children.len(), key, count_spans)
}

/// The most that a counter can come to on the first `n` children of a node together.
pub open spec fn most_below(node: SpanView, n: nat, key: Seq<char>, count_spans: bool) -> int
    decreases node, n,
{
    if n == 0 || n > node.children.len() {
        0
    } else {
        let child = node.children[n - 1];
        most_below(node, (n - 1) as nat, key, count_spans) + most(child, key, count_spans) + if
            count_spans && child.name == key {
            1int
        } else {
            0
        }
    }
}

/// How far a counter can come below zero at a node when events are accumulated: what is
/// below zero on the node and everything below it.
pub open spec fn depth(node: SpanView, key: Seq<char>) -> int
    decreases node, node.children.len() + 1,
{
    fall(total(node.events, key)) + depth_below(node, node.children.len(), key)
}

/// How far a counter can come below zero on the first `n` children of a node together.
pub open spec fn depth_below(node: SpanView, n: nat, key: Seq<char>) -> int
    decreases node, n,
{
    if n == 0 || n > node.children.len() {
        0
    } else {
        depth_below(node, (n - 1) as nat, key) + depth(node.children[n - 1], key)
    }
}

/// The counter stays in its range when the events of the tree are accumulated.
pub open spec fn accumulation_fits(node: SpanView, key: Seq<char>, count_spans: bool) -> bool {
    &&& most(node, key, count_spans) <= i64::MAX
    &&& depth(node, key) <= -(i64::MIN as int)
}

/// The load is never negative, aggregating two well-formed nodes adds nothing to it, it
/// does not depend on fields, and a node that has not run has none.
pub open spec fn is_load(load: Load) -> bool {
    &&& forall|node: SpanView| #[trigger] load(node) >= 0
    &&& forall|a: SpanView, b: SpanView| #[trigger]
        aggregated(a, b) is Some && well_formed(a) && well_formed(b) ==> load(
            aggregated(a, b)->0,
        ) <= load(a) + load(b)
    &&& forall|node: SpanView, metadata: Seq<(Seq<char>, Seq<char>)>| #[trigger]
        load(SpanView { metadata, ..node }) == load(node)
    &&& forall|name: Seq<char>| load(#[trigger] blank(name)) == 0
}

proof fn lemma_loads(key: Seq<char>)
    ensures
        is_load(time_load()),
        is_load(call_load()),
        is_load(rise_load(key)),
        is_load(fall_load(key)),
{
    assert forall|a: SpanView, b: SpanView| #[trigger]
        aggregated(a, b) is Some && well_formed(a) && well_formed(b) implies rise_load(key)(
        aggregated(a, b)->0,
    ) <= rise_load(key)(a) + rise_load(key)(b) && fall_load(key)(aggregated(a, b)->0) <= fall_load(
        key,
    )(a) + fall_load(key)(b) by {
        law_aggregate_adds(a, b);
        assert(total((aggregated(a, b)->0).events, key) == total(a.events, key) + total(
            b.events,
            key,
        ));
    }
}

proof fn lemma_load_push(nodes: Seq<SpanView>, node: SpanView, load: Load)
    ensures
        load_sum(nodes.push(node), load) == load_sum(nodes, load) + load(node),
{
    assert(nodes.push(node).drop_last() =~= nodes);
}

/// The first nodes weigh no more than all of them.
proof fn lemma_load_take(nodes: Seq<SpanView>, load: Load, n: int)
    requires
        is_load(load),
        0 <= n <= nodes.len(),
    ensures
        0 <= load_sum(nodes.take(n), load) <= load_sum(nodes, load),
    decreases nodes.len(),
{
    if n == nodes.len() {
        assert(nodes.take(n) =~= nodes);
        if n > 0 {
            lemma_load_take(nodes.drop_last(), load, n - 1);
        }
    } else {
        lemma_load_take(nodes.drop_last(), load, n);
        assert(nodes.drop_last().take(n) =~= nodes.take(n));
    }
}

proof fn lemma_time_and_call_sums(nodes: Seq<SpanView>)
    ensures
        load_sum(nodes, time_load()) == duration_sum(nodes),
        load_sum(nodes, call_load()) == call_sum(nodes),
    decreases nodes.len(),
{
    if nodes.len() > 0 {
        lemma_time_and_call_sums(nodes.drop_last());
    }
}

/// A list that weighs no more in any way fits where the other does.
proof fn lemma_lighter_list_fits(nodes: Seq<SpanView>, lighter: Seq<SpanView>)
    requires
        list_fits(nodes),
        forall|load: Load| #[trigger]
            is_load(load) ==> load_sum(lighter, load) <= load_sum(nodes, load),
    ensures
        list_fits(lighter),
{
    lemma_time_and_call_sums(nodes);
    lemma_time_and_call_sums(lighter);
    lemma_loads(seq![]);
    assert forall|key: Seq<char>| #[trigger] counter_fits(lighter, key) by {
        lemma_loads(key);
        assert(counter_fits(nodes, key));
    }
}

/// Both counters, and their sum in any order, stay in range.
pub open spec fn pair_fits(a: Counts, b: Counts, key: Seq<char>) -> bool {
    &&& rise(total(a, key)) + rise(total(b, key)) <= i64::MAX
    &&& fall(total(a, key)) + fall(total(b, key)) <= -(i64::MIN as int)
}

proof fn lemma_merge_succeeds(counts: Counts, more: Counts)
    requires
        distinct(counts),
        distinct(more),
        forall|key: Seq<char>| #[trigger] pair_fits(counts, more, key),
    ensures
        merged(counts, more) is Some,
    decreases more.len(),
{
    if more.len() > 0 {
        let init = more.drop_last();
        let last = more.last();
        assert(forall|i: int| 0 <= i < init.len() ==> init[i] == more[i]);
        lemma_position_is(more, last.0, more.len() - 1);
        lemma_position(init, last.0);
        assert(total(init, last.0) == 0);
        assert(total(more, last.0) == last.1);
        assert forall|key: Seq<char>| #[trigger] pair_fits(counts, init, key) by {
            assert(pair_fits(counts, more, key));
            if key != last.0 {
                lemma_position(init, key);
                lemma_position(more, key);
                assert(total(init, key) == total(more, key));
            }
        }
        lemma_merge_succeeds(counts, init);
        law_merge_adds_name_by_name(counts, init);
        let sum = merged(counts, init)->0;
        assert(total(sum, last.0) == total(counts, last.0) + total(init, last.0));
        assert(pair_fits(counts, more, last.0));
    }
}

/// Two nodes that weigh no more than a list that fits can be aggregated.
proof fn lemma_aggregate_succeeds(a: SpanView, b: SpanView, nodes: Seq<SpanView>)
    requires
        well_formed(a),
        well_formed(b),
        list_fits(nodes),
        forall|load: Load| #[trigger] is_load(load) ==> load(a) + load(b) <= load_sum(nodes, load),
    ensures
        aggregated(a, b) is Some,
{
    lemma_time_and_call_sums(nodes);
    lemma_loads(seq![]);
    assert(time_load()(a) + time_load()(b) <= load_sum(nodes, time_load()));
    assert(call_load()(a) + call_load()(b) <= load_sum(nodes, call_load()));
    assert forall|key: Seq<char>| #[trigger] pair_fits(a.events, b.events, key) by {
        lemma_loads(key);
        assert(counter_fits(nodes, key));
        assert(rise_load(key)(a) + rise_load(key)(b) <= load_sum(nodes, rise_load(key)));
        assert(fall_load(key)(a) + fall_load(key)(b) <= load_sum(nodes, fall_load(key)));
    }
    lemma_merge_succeeds(a.events, b.events);
}

/// A row that ran no shorter than a node, and has the same children, can be displayed
/// where the node can.
proof fn lemma_fits_like(row: SpanView, node: SpanView, config: Config)
    requires
        times_fit(node, config),
        counters_fit(node),
        row.children == node.children,
        node.duration <= row.duration <= DURATION_MAX,
        distinct(row.events),
    ensures
        times_fit(row, config),
        counters_fit(row),
{
    assert forall|i: int| 0 <= i < row.children.len() implies times_fit(
        #[trigger] row.children[i],
        config,
    ) && counters_fit(row.children[i]) by {
        assert(times_fit(node.children[i], config));
        assert(counters_fit(node.children[i]));
    }
    assert forall|key: Seq<char>| #[trigger] counter_fits(row.children, key) by {
        assert(counter_fits(node.children, key));
    }
}

/// Nodes that can be displayed are well formed.
proof fn lemma_fits_well_formed(node: SpanView, config: Config)
    requires
        times_fit(node, config),
    ensures
        well_formed(node),
    decreases node,
{
    assert forall|i: int| 0 <= i < node.children.len() implies well_formed(
        #[trigger] node.children[i],
    ) by {
        assert(times_fit(node.children[i], config));
        lemma_fits_well_formed(node.children[i], config);
    }
}

proof fn lemma_all_fit_well_formed(nodes: Seq<SpanView>, config: Config)
    requires
        all_fit(nodes, config),
    ensures
        all_well_formed(nodes),
{
    assert forall|i: int| 0 <= i < nodes.len() implies well_formed(#[trigger] nodes[i]) by {
        lemma_fits_well_formed(nodes[i], config);
    }
}

/// A node without children that has not been counted can be displayed.
proof fn lemma_leaf_fits(node: SpanView, config: Config)
    requires
        node.children == Seq::<SpanView>::empty(),
        node.duration <= DURATION_MAX,
        distinct(node.events),
    ensures
        times_fit(node, config),
        counters_fit(node),
{
    assert(duration_sum(node.children) == 0);
    assert(call_sum(node.children) == 0);
    assert forall|key: Seq<char>| #[trigger] counter_fits(node.children, key) by {
        assert(load_sum(node.children, rise_load(key)) == 0);
        assert(load_sum(node.children, fall_load(key)) == 0);
    }
}

/// Grouping adds nothing to any load.
proof fn lemma_grouped_load(nodes: Seq<SpanView>, shares: Seq<ShareView>, load: Load, n: nat)
    requires
        is_load(load),
        n <= nodes.len(),
        all_well_formed(nodes),
        grouped_prefix(nodes, shares, n) is Some,
    ensures
        ({
            let (rows, pending) = grouped_prefix(nodes, shares, n)->0;
            load_sum(flushed(rows, pending), load) <= load_sum(nodes.take(n as int), load)
        }),
    decreases n,
{
    if n == 0 {
        assert(nodes.take(0) =~= seq![]);
    } else {
        let i = n - 1;
        let node = nodes[i];
        lemma_grouped_load(nodes, shares, load, i as nat);
        lemma_grouped_sums(nodes, shares, i as nat);
        let (rows, pending) = grouped_prefix(nodes, shares, i as nat)->0;
        let (after, waiting) = grouped_prefix(nodes, shares, n)->0;
        let all = flushed(rows, pending);
        assert(nodes.take(n as int) =~= nodes.take(i).push(node));
        lemma_load_push(nodes.take(i), node, load);
        lemma_load_push(all, node, load);
        if pending is Some {
            lemma_load_push(rows, pending->0, load);
            assert(all[rows.len() as int] == pending->0);
            assert(well_formed(pending->0));
        }
        if !shares[i].above_relevant {
            let calls = with_pending(pending, node)->0;
            if pending is Some {
                assert(aggregated(pending->0, node) is Some);
            }
            lemma_load_push(rows, calls, load);
            assert(flushed(after, waiting) == rows.push(calls));
        } else if ends_run(nodes, i) {
            assert(flushed(after, waiting) == all.push(node));
        } else {
            let row = relevant_row(nodes, i);
            assert(load(row) == load(node));
            lemma_load_push(rows, row, load);
            if pending is Some {
                lemma_load_push(rows.push(row), pending->0, load);
            }
            assert(flushed(after, waiting) == flushed(rows.push(row), pending));
        }
    }
}

/// Nodes that fit can be grouped, and their rows can be displayed.
proof fn lemma_grouping_succeeds(
    nodes: Seq<SpanView>,
    shares: Seq<ShareView>,
    config: Config,
    n: nat,
)
    requires
        n <= nodes.len(),
        list_fits(nodes),
        all_fit(nodes, config),
    ensures
        grouped_prefix(nodes, shares, n) is Some,
        ({
            let (rows, pending) = grouped_prefix(nodes, shares, n)->0;
            all_fit(flushed(rows, pending), config)
        }),
    decreases n,
{
    if n > 0 {
        let i = n - 1;
        let node = nodes[i];
        lemma_all_fit_well_formed(nodes, config);
        lemma_grouping_succeeds(nodes, shares, config, i as nat);
        let (rows, pending) = grouped_prefix(nodes, shares, i as nat)->0;
        let all = flushed(rows, pending);
        lemma_grouped_sums(nodes, shares, i as nat);
        assert(times_fit(node, config) && counters_fit(node) && well_formed(node));
        assert forall|j: int| 0 <= j < rows.len() implies times_fit(#[trigger] rows[j], config)
            && counters_fit(rows[j]) by {
            assert(all[j] == rows[j]);
        }
        if pending is Some {
            assert(all[rows.len() as int] == pending->0);
            assert(well_formed(pending->0));
            assert(times_fit(pending->0, config) && counters_fit(pending->0));
            assert forall|load: Load| #[trigger] is_load(load) implies load(pending->0) + load(node)
                <= load_sum(nodes, load) by {
                lemma_grouped_load(nodes, shares, load, i as nat);
                lemma_load_push(rows, pending->0, load);
                assert(rows.take(rows.len() as int) =~= rows);
                lemma_load_take(rows, load, rows.len() as int);
                assert(nodes.take(n as int) =~= nodes.take(i).push(node));
                lemma_load_push(nodes.take(i), node, load);
                lemma_load_take(nodes, load, n as int);
            }
            lemma_aggregate_succeeds(pending->0, node, nodes);
            law_aggregate_adds(pending->0, node);
            let calls = aggregated(pending->0, node)->0;
            assert(well_formed(calls));
            lemma_fits_like(calls, pending->0, config);
        }
        lemma_fits_like(relevant_row(nodes, i), node, config);
    }
}

/// Collapsing adds nothing to any load.
proof fn lemma_collapsed_load(rows: Seq<SpanView>, shares: Seq<ShareView>, load: Load, n: nat)
    requires
        is_load(load),
        n <= rows.len(),
        all_well_formed(rows),
        collapsed_prefix(rows, shares, n) is Some,
    ensures
        load_sum(collapsed_prefix(rows, shares, n)->0, load) <= load_sum(rows.take(n as int), load),
    decreases n,
{
    if n == 0 {
        assert(rows.take(0) =~= seq![]);
    } else {
        let row = rows[n - 1];
        lemma_collapsed_load(rows, shares, load, (n - 1) as nat);
        lemma_collapsed_sums(rows, shares, (n - 1) as nat);
        let shown = collapsed_prefix(rows, shares, (n - 1) as nat)->0;
        assert(rows.take(n as int) =~= rows.take(n - 1).push(row));
        lemma_load_push(rows.take(n - 1), row, load);
        if !shares[n - 1].below_hide {
            lemma_load_push(shown, row, load);
        } else if shown.len() > 0 && shown.last().name == "[...]"@ {
            assert(well_formed(shown[shown.len() - 1]));
            lemma_load_push(shown.drop_last(), aggregated(shown.last(), row)->0, load);
        } else {
            assert(well_formed(blank("[...]"@)));
            lemma_load_push(shown, aggregated(blank("[...]"@), row)->0, load);
        }
    }
}

/// Rows that fit can be collapsed, and what is shown can be displayed.
proof fn lemma_collapsing_succeeds(
    rows: Seq<SpanView>,
    shares: Seq<ShareView>,
    config: Config,
    n: nat,
)
    requires
        n <= rows.len(),
        list_fits(rows),
        all_fit(rows, config),
    ensures
        collapsed_prefix(rows, shares, n) is Some,
        all_fit(collapsed_prefix(rows, shares, n)->0, config),
    decreases n,
{
    if n > 0 {
        let row = rows[n - 1];
        lemma_all_fit_well_formed(rows, config);
        lemma_collapsing_succeeds(rows, shares, config, (n - 1) as nat);
        let shown = collapsed_prefix(rows, shares, (n - 1) as nat)->0;
        lemma_collapsed_sums(rows, shares, (n - 1) as nat);
        assert(times_fit(row, config) && counters_fit(row) && well_formed(row));
        let continues = shown.len() > 0 && shown.last().name == "[...]"@;
        let target = if continues {
            shown.last()
        } else {
            blank("[...]"@)
        };
        if continues {
            assert(well_formed(shown[shown.len() - 1]));
            assert(times_fit(shown[shown.len() - 1], config));
        } else {
            lemma_leaf_fits(target, config);
        }
        assert(well_formed(target));
        assert forall|load: Load| #[trigger] is_load(load) implies load(target) + load(row)
            <= load_sum(rows, load) by {
            lemma_collapsed_load(rows, shares, load, (n - 1) as nat);
            assert(rows.take(n as int) =~= rows.take(n - 1).push(row));
            lemma_load_push(rows.take(n - 1), row, load);
            lemma_load_take(rows, load, n as int);
            lemma_load_take(shown, load, 0);
            if continues {
                lemma_load_take(shown.drop_last(), load, 0);
            }
        }
        lemma_aggregate_succeeds(target, row, rows);
        law_aggregate_adds(target, row);
        let sum = aggregated(target, row)->0;
        assert(well_formed(sum));
        lemma_fits_like(sum, target, config);
    }
}

/// The rows below a node that fits exist and can be displayed.
proof fn lemma_rows_succeed(node: SpanView, root_time: u128, scale: Scale, config: Config)
    requires
        times_fit(node, config),
        counters_fit(node),
    ensures
        displayed_rows(node, root_time, scale, config) is Some,
        all_fit(displayed_rows(node, root_time, scale, config)->0, config),
{
    let nodes = node.children;
    let shares = scaled(nodes, root_time, scale);
    assert(list_fits(nodes));
    assert forall|i: int| 0 <= i < nodes.len() implies times_fit(#[trigger] nodes[i], config)
        && counters_fit(nodes[i]) by {}
    lemma_all_fit_well_formed(nodes, config);
    lemma_grouping_succeeds(nodes, shares, config, nodes.len());
    lemma_grouped_sums(nodes, shares, nodes.len());
    let calls = grouped(nodes, shares)->0;
    assert forall|load: Load| #[trigger] is_load(load) implies load_sum(calls, load) <= load_sum(
        nodes,
        load,
    ) by {
        lemma_grouped_load(nodes, shares, load, nodes.len());
        assert(nodes.take(nodes.len() as int) =~= nodes);
    }
    lemma_lighter_list_fits(nodes, calls);
    if config.hide_small {
        lemma_collapsing_succeeds(calls, scaled(calls, root_time, scale), config, calls.len());
    }
    if config.display_unaccounted {
        let first = unaccounted(node)->0;
        lemma_leaf_fits(first, config);
    }
}

/// Where the times, calls and counters of a tree fit, its display exists: the children of
/// each node ran no longer than the node or, where unaccounted time is not displayed, no
/// longer than the longest duration, and the calls and counters of the children of each
/// node can be added up.
pub proof fn law_rendering_succeeds(
    node: SpanView,
    root_time: u128,
    scale: Scale,
    config: Config,
)
    requires
        times_fit(node, config),
        counters_fit(node),
    ensures
        rendered(node, root_time, scale, config) is Some,
    decreases height(node), 0nat,
{
    lemma_rows_succeed(node, root_time, scale, config);
    lemma_rows_height(node, root_time, scale, config);
    lemma_all_render(displayed_rows(node, root_time, scale, config)->0, root_time, scale, config);
}

proof fn lemma_all_render(rows: Seq<SpanView>, root_time: u128, scale: Scale, config: Config)
    requires
        all_fit(rows, config),
    ensures
        rendered_all(rows, root_time, scale, config) is Some,
    decreases tallest(rows), rows.len(),
{
    if rows.len() > 0 {
        let init = rows.drop_last();
        assert forall|i: int| 0 <= i < init.len() implies times_fit(#[trigger] init[i], config)
            && counters_fit(init[i]) by {
            assert(init[i] == rows[i]);
        }
        lemma_all_render(init, root_time, scale, config);
        lemma_tallest(rows, rows.len() - 1);
        law_rendering_succeeds(rows[rows.len() - 1], root_time, scale, config);
    }
}

/// The bounds of the first children grow with their number.
proof fn lemma_bounds_grow(node: SpanView, m: nat, n: nat, key: Seq<char>, count_spans: bool)
    requires
        m <= n <= node.children.len(),
    ensures
        0 <= most_below(node, m, key, count_spans) <= most_below(node, n, key, count_spans),
        0 <= depth_below(node, m, key) <= depth_below(node, n, key),
    decreases node, n,
{
    if n > 0 {
        let child = node.children[n - 1];
        lemma_bounds_grow(child, 0, child.children.len(), key, count_spans);
        assert(most(child, key, count_spans) == rise(total(child.events, key)) + most_below(
            child,
            child.children.len(),
            key,
            count_spans,
        ));
        assert(depth(child, key) == fall(total(child.events, key)) + depth_below(
            child,
            child.children.len(),
            key,
        ));
        if m < n {
            lemma_bounds_grow(node, m, (n - 1) as nat, key, count_spans);
        } else {
            lemma_bounds_grow(node, (n - 1) as nat, (n - 1) as nat, key, count_spans);
        }
    }
}

/// The counter of a node stays within the bounds.
pub open spec fn within(after: SpanView, node: SpanView, key: Seq<char>, count_spans: bool) -> bool {
    &&& rise(total(after.events, key)) <= most(node, key, count_spans)
    &&& fall(total(after.events, key)) <= depth(node, key)
}

/// Where each counter, as far as it is above zero on the nodes of a tree and as far as it
/// is below zero there, adds up within its range, with one for each span below the root
/// where spans are counted, the events of the tree can be accumulated. No counter leaves
/// these bounds then, and the counters of the children of each node can be added up.
pub proof fn law_accumulation_succeeds(node: SpanView, count_spans: bool)
    requires
        well_formed(node),
        forall|key: Seq<char>| #[trigger] accumulation_fits(node, key, count_spans),
    ensures
        accumulated(node, count_spans) is Some,
        counters_fit(accumulated(node, count_spans)->0),
        forall|key: Seq<char>| #[trigger]
            within(accumulated(node, count_spans)->0, node, key, count_spans),
    decreases node, node.children.len() + 1,
{
    let n = node.children.len();
    lemma_accumulation_prefix(node, n, count_spans);
    let after = accumulated(node, count_spans)->0;
    let (done, events) = accumulated_prefix(node, n, count_spans)->0;
    assert forall|key: Seq<char>| #[trigger] counter_fits(after.children, key) by {
        assert(prefix_within(node, done, events, n, key, count_spans));
        assert(accumulation_fits(node, key, count_spans));
    }
    assert forall|key: Seq<char>| #[trigger] within(after, node, key, count_spans) by {
        assert(prefix_within(node, done, events, n, key, count_spans));
    }
}

/// The counter of a node with the first `n` children added, and those of the children
/// themselves, stay within the bounds.
pub open spec fn prefix_within(
    node: SpanView,
    done: Seq<SpanView>,
    events: Counts,
    n: nat,
    key: Seq<char>,
    count_spans: bool,
) -> bool {
    &&& rise(total(events, key)) <= rise(total(node.events, key)) + most_below(
        node,
        n,
        key,
        count_spans,
    )
    &&& fall(total(events, key)) <= fall(total(node.events, key)) + depth_below(node, n, key)
    &&& load_sum(done, rise_load(key)) <= most_below(node, n, key, count_spans)
    &&& load_sum(done, fall_load(key)) <= depth_below(node, n, key)
}

proof fn lemma_accumulation_prefix(node: SpanView, n: nat, count_spans: bool)
    requires
        n <= node.children.len(),
        well_formed(node),
        forall|key: Seq<char>| #[trigger] accumulation_fits(node, key, count_spans),
    ensures
        accumulated_prefix(node, n, count_spans) is Some,
        ({
            let (done, events) = accumulated_prefix(node, n, count_spans)->0;
            &&& done.len() == n
            &&& distinct(events)
            &&& forall|i: int| 0 <= i < n ==> counters_fit(#[trigger] done[i])
            &&& forall|key: Seq<char>| #[trigger]
                prefix_within(node, done, events, n, key, count_spans)
        }),
    decreases node, n,
{
    if n == 0 {
        let (done, events) = accumulated_prefix(node, n, count_spans)->0;
        assert forall|key: Seq<char>| #[trigger]
            prefix_within(node, done, events, n, key, count_spans) by {}
    } else {
        let m = (n - 1) as nat;
        let len = node.children.len();
        lemma_accumulation_prefix(node, m, count_spans);
        let (done, events) = accumulated_prefix(node, m, count_spans)->0;
        let child = node.children[n - 1];
        assert(well_formed(child));
        assert forall|key: Seq<char>| #[trigger] accumulation_fits(child, key, count_spans) by {
            assert(accumulation_fits(node, key, count_spans));
            lemma_bounds_grow(node, m, len, key, count_spans);
            lemma_bounds_grow(node, n, len, key, count_spans);
        }
        law_accumulation_succeeds(child, count_spans);
        law_accumulate_adds_up_the_tree(child, count_spans);
        law_accumulate_keeps_all_but_events(child, count_spans);
        let plain = accumulated(child, count_spans)->0;
        if count_spans {
            assert(accumulation_fits(node, child.name, count_spans));
            assert(within(plain, child, child.name, count_spans));
            lemma_bounds_grow(node, 0, m, child.name, count_spans);
            lemma_bounds_grow(node, n, len, child.name, count_spans);
            assert(increased(plain.events, plain.name, 1) is Some);
            law_increase_adds_to_one_counter(plain.events, plain.name, 1);
        }
        let counted = accumulated_child(child, count_spans)->0;
        assert(counters_fit(counted)) by {
            assert forall|i: int| 0 <= i < counted.children.len() implies counters_fit(
                #[trigger] counted.children[i],
            ) by {
                assert(counters_fit(plain.children[i]));
            }
            assert forall|key: Seq<char>| #[trigger] counter_fits(counted.children, key) by {
                assert(counter_fits(plain.children, key));
            }
        }
        assert forall|key: Seq<char>| #[trigger] pair_fits(events, counted.events, key) by {
            lemma_counted_within(plain, counted, child, key, count_spans);
            assert(prefix_within(node, done, events, m, key, count_spans));
            assert(accumulation_fits(node, key, count_spans));
            lemma_bounds_grow(node, n, len, key, count_spans);
        }
        lemma_merge_succeeds(events, counted.events);
        law_merge_adds_name_by_name(events, counted.events);
        let sum = merged(events, counted.events)->0;
        assert forall|key: Seq<char>| #[trigger]
            prefix_within(node, done.push(counted), sum, n, key, count_spans) by {
            lemma_counted_within(plain, counted, child, key, count_spans);
            assert(prefix_within(node, done, events, m, key, count_spans));
            assert(total(sum, key) == total(events, key) + total(counted.events, key));
            lemma_load_push(done, counted, rise_load(key));
            lemma_load_push(done, counted, fall_load(key));
        }
    }
}

/// Counting a span as an event adds at most one to the counter of its name.
proof fn lemma_counted_within(
    plain: SpanView,
    counted: SpanView,
    child: SpanView,
    key: Seq<char>,
    count_spans: bool,
)
    requires
        well_formed(plain),
        well_formed(child),
        accumulated(child, count_spans) == Some(plain),
        accumulated_child(child, count_spans) == Some(counted),
        plain.name == child.name,
        forall|key: Seq<char>| #[trigger] within(plain, child, key, count_spans),
    ensures
        rise(total(counted.events, key)) <= most(child, key, count_spans) + if count_spans
            && child.name == key {
            1int
        } else {
            0
        },
        fall(total(counted.events, key)) <= depth(child, key),
        distinct(counted.events),
{
    assert(within(plain, child, key, count_spans));
    if count_spans {
        law_increase_adds_to_one_counter(plain.events, plain.name, 1);
        if key != plain.name {
            assert(total(increased(plain.events, plain.name, 1)->0, key) == total(
                plain.events,
                key,
            ));
        }
    }
}

/// Trees that differ in nothing but events have times that fit alike.
proof fn lemma_times_fit_like(node: SpanView, after: SpanView, config: Config)
    requires
        times_fit(node, config),
        same_but_events(node, after),
        well_formed(after),
    ensures
        times_fit(after, config),
    decreases node,
{
    assert forall|i: int| 0 <= i < after.children.len() implies times_fit(
        #[trigger] after.children[i],
        config,
    ) by {
        assert(same_but_events(node.children[i], after.children[i]));
        assert(times_fit(node.children[i], config));
        lemma_times_fit_like(node.children[i], after.children[i], config);
    }
    assert forall|i: int| 0 <= i < after.children.len() implies (#[trigger] node.children[i]).duration
        == after.children[i].duration && node.children[i].calls == after.children[i].calls by {
        assert(same_but_events(node.children[i], after.children[i]));
    }
    lemma_same_sums(node.children, after.children);
}

proof fn lemma_same_sums(a: Seq<SpanView>, b: Seq<SpanView>)
    requires
        a.len() == b.len(),
        forall|i: int|
            0 <= i < a.len() ==> (#[trigger] a[i]).duration == b[i].duration && a[i].calls
                == b[i].calls,
    ensures
        duration_sum(a) == duration_sum(b),
        call_sum(a) == call_sum(b),
    decreases a.len(),
{
    if a.len() > 0 {
        let init = a.drop_last();
        assert forall|i: int| 0 <= i < init.len() implies (#[trigger] init[i]).duration
            == b.drop_last()[i].duration && init[i].calls == b.drop_last()[i].calls by {
            assert(a[i].duration == b[i].duration);
        }
        lemma_same_sums(init, b.drop_last());
        assert(a[a.len() - 1].duration == b[b.len() - 1].duration);
    }
}

/// Where the times and calls of a call graph fit, and its counters fit as they are or, if
/// events are accumulated, over the whole tree, there is a text to print.
pub proof fn law_printing_succeeds(node: SpanView, scale: Scale, config: Config)
    requires
        times_fit(node, config),
        config.accumulate_events ==> forall|key: Seq<char>| #[trigger]
            accumulation_fits(node, key, config.accumulate_spans_count),
        !config.accumulate_events ==> counters_fit(node),
    ensures
        printed(node, scale, config) is Some,
{
    if config.accumulate_events {
        let count_spans = config.accumulate_spans_count;
        lemma_fits_well_formed(node, config);
        law_accumulation_succeeds(node, count_spans);
        law_accumulate_adds_up_the_tree(node, count_spans);
        law_accumulate_keeps_all_but_events(node, count_spans);
        let summed = accumulated(node, count_spans)->0;
        lemma_times_fit_like(node, summed, config);
        law_rendering_succeeds(summed, node.duration, scale, config);
    } else {
        law_rendering_succeeds(node, node.duration, scale, config);
    }
}

} // verus!
