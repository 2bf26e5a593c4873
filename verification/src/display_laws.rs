//! Which rows and texts a displayed graph has, at every depth.

use vstd::prelude::*;

use crate::config::{Config, Share, ShareView};
use crate::events::count_texts;
use crate::group_laws::law_unaccounted_time_is_the_rest;
use crate::label::label_text;
use crate::layer::graph_view;
use crate::node::{accumulated, node_views, GraphNode, SpanView};
use crate::render::{answers, displayed_rows, follows, printed, rendered, rendered_all, scaled};
use crate::render::{text_view, tree_view, Scale};
use crate::rows::{collapsed, duration_sum, grouped, grouped_prefix, share_views};
use crate::rows_laws::{large_rows, proper_rows};
use crate::rows_laws::{law_collapsing_hides_exactly_the_small_rows, lemma_rendered_all};
use crate::text::{text_pairs, texts};
use crate::tree::{drawing, tree_views, LogTree, TreeView};

verus! {

/// A judge that follows a scale gives for every duration what the scale says of it in the
/// graph of that time, and one that gives that follows the scale. It answers where it can be
/// asked about every duration.
pub proof fn law_a_judge_follows_its_scale<F: Fn(u128, u128) -> Share>(judge: &F, scale: Scale)
    ensures
        follows(judge, scale) <==> (forall|nanos: u128, root_time: u128, share: Share| #[trigger]
            call_ensures(judge, (nanos, root_time), share) ==> {
                &&& share.percent@ == scale(nanos, root_time).percent
                &&& share.above_attention == scale(nanos, root_time).above_attention
                &&& share.above_relevant == scale(nanos, root_time).above_relevant
                &&& share.below_hide == scale(nanos, root_time).below_hide
            }),
        answers(judge) <==> (forall|nanos: u128, root_time: u128| #[trigger]
            call_requires(judge, (nanos, root_time))),
{
    if forall|nanos: u128, root_time: u128, share: Share| #[trigger]
        call_ensures(judge, (nanos, root_time), share) ==> {
            &&& share.percent@ == scale(nanos, root_time).percent
            &&& share.above_attention == scale(nanos, root_time).above_attention
            &&& share.above_relevant == scale(nanos, root_time).above_relevant
            &&& share.below_hide == scale(nanos, root_time).below_hide
        } {
        assert forall|nanos: u128, root_time: u128, share: Share| #[trigger]
            call_ensures(judge, (nanos, root_time), share) implies share@ == scale(
            nanos,
            root_time,
        ) by {}
    }
}

/// Lists and optional values hold what each of their items holds, all of them and in order.
pub proof fn law_lists_hold_their_items(
    nodes: Seq<GraphNode>,
    trees: Seq<LogTree>,
    shares: Seq<Share>,
    strings: Seq<String>,
    pairs: Seq<(String, String)>,
    node: GraphNode,
    tree: LogTree,
    text: String,
)
    ensures
        node_views(nodes) == Seq::new(nodes.len(), |i: int| nodes[i]@),
        tree_views(trees) == Seq::new(trees.len(), |i: int| trees[i]@),
        share_views(shares) == Seq::new(shares.len(), |i: int| shares[i]@),
        texts(strings) == Seq::new(strings.len(), |i: int| strings[i]@),
        text_pairs(pairs) == Seq::new(pairs.len(), |i: int| (pairs[i].0@, pairs[i].1@)),
        graph_view(Some(node)) == Some(node@),
        graph_view(None) is None,
        tree_view(Some(tree)) == Some(tree@),
        tree_view(None) is None,
        text_view(Some(text)) == Some(text@),
        text_view(None) is None,
{
    assert(node_views(nodes) =~= Seq::new(nodes.len(), |i: int| nodes[i]@));
    assert(tree_views(trees) =~= Seq::new(trees.len(), |i: int| trees[i]@));
    assert(share_views(shares) =~= Seq::new(shares.len(), |i: int| shares[i]@));
    assert(texts(strings) =~= Seq::new(strings.len(), |i: int| strings[i]@));
    assert(text_pairs(pairs) =~= Seq::new(pairs.len(), |i: int| (pairs[i].0@, pairs[i].1@)));
}

/// The rows below a node, without the one for unaccounted time.
pub open spec fn proper_display(rows: Seq<SpanView>, config: Config) -> Seq<SpanView> {
    if config.display_unaccounted && rows.len() > 0 {
        rows.skip(1)
    } else {
        rows
    }
}

/// Below every node of a graph, however deep, small rows are told by their share in the time
/// of the whole graph: where they are hidden, the rows under their own names are exactly the
/// grouped calls that are not too small for the graph, in order. Where they are not hidden, all
/// grouped calls are displayed.
pub proof fn law_rows_are_hidden_on_the_scale_of_the_graph(
    node: SpanView,
    root_time: u128,
    scale: Scale,
    config: Config,
)
    requires
        displayed_rows(node, root_time, scale, config) is Some,
        forall|i: int| 0 <= i < node.children.len() ==> (#[trigger] node.children[i]).name
            != "[...]"@,
    ensures
        ({
            let shares = Seq::new(
                node.children.len(),
                |i: int| scale(node.children[i].duration, root_time),
            );
            let calls = grouped(node.children, shares);
            let shown = proper_display(
                displayed_rows(node, root_time, scale, config)->0,
                config,
            );
            &&& calls is Some
            &&& !config.hide_small ==> shown == calls->0
            &&& config.hide_small ==> shown.filter(|row: SpanView| row.name != "[...]"@) == (
            calls->0).filter(|row: SpanView| !scale(row.duration, root_time).below_hide)
        }),
{
    let shares = Seq::new(
        node.children.len(),
        |i: int| scale(node.children[i].duration, root_time),
    );
    assert(shares =~= scaled(node.children, root_time, scale));
    let calls = grouped(node.children, shares)->0;
    let rows = displayed_rows(node, root_time, scale, config)->0;
    let shown = proper_display(rows, config);
    let own = scaled(calls, root_time, scale);
    let kept = if config.hide_small {
        collapsed(calls, own)->0
    } else {
        calls
    };
    assert(shown =~= kept);
    if config.hide_small {
        lemma_names_of_calls(node.children, shares, node.children.len());
        law_collapsing_hides_exactly_the_small_rows(calls, own);
        let named = |row: SpanView| row.name != "[...]"@;
        let large = |row: SpanView| !scale(row.duration, root_time).below_hide;
        lemma_proper_filtered(shown, named);
        lemma_large_filtered(calls, root_time, scale, large, calls.len());
        assert(calls.take(calls.len() as int) =~= calls);
    }
}

/// No grouped call is named `[...]` where no call is.
proof fn lemma_names_of_calls(nodes: Seq<SpanView>, shares: Seq<ShareView>, n: nat)
    requires
        n <= nodes.len(),
        forall|i: int| 0 <= i < nodes.len() ==> (#[trigger] nodes[i]).name != "[...]"@,
        grouped_prefix(nodes, shares, n) is Some,
    ensures
        ({
            let (rows, pending) = grouped_prefix(nodes, shares, n)->0;
            &&& forall|i: int| 0 <= i < rows.len() ==> (#[trigger] rows[i]).name != "[...]"@
            &&& pending matches Some(calls) ==> calls.name != "[...]"@
        }),
    decreases n,
{
    if n > 0 {
        lemma_names_of_calls(nodes, shares, (n - 1) as nat);
        assert(nodes[n - 1].name != "[...]"@);
    }
}

proof fn lemma_proper_filtered(rows: Seq<SpanView>, kept: spec_fn(SpanView) -> bool)
    requires
        forall|row: SpanView| #[trigger] kept(row) == (row.name != "[...]"@),
    ensures
        proper_rows(rows) == rows.filter(kept),
    decreases rows.len(),
{
    reveal(Seq::filter);
    if rows.len() > 0 {
        lemma_proper_filtered(rows.drop_last(), kept);
    }
}

proof fn lemma_large_filtered(
    rows: Seq<SpanView>,
    root_time: u128,
    scale: Scale,
    kept: spec_fn(SpanView) -> bool,
    n: nat,
)
    requires
        n <= rows.len(),
        forall|row: SpanView| #[trigger]
            kept(row) == !scale(row.duration, root_time).below_hide,
    ensures
        large_rows(rows, scaled(rows, root_time, scale), n) == rows.take(n as int).filter(kept),
    decreases n,
{
    reveal(Seq::filter);
    if n > 0 {
        lemma_large_filtered(rows, root_time, scale, kept, (n - 1) as nat);
        assert(rows.take(n as int).drop_last() =~= rows.take(n - 1));
    }
}

/// Without hiding and unaccounted time, the rows below a node are its grouped calls. Hiding
/// collapses these by their own shares in the time of the graph.
pub proof fn law_rows_are_grouped_and_then_collapsed(
    node: SpanView,
    root_time: u128,
    scale: Scale,
    config: Config,
)
    requires
        !config.display_unaccounted,
    ensures
        ({
            let calls = grouped(
                node.children,
                Seq::new(
                    node.children.len(),
                    |i: int| scale(node.children[i].duration, root_time),
                ),
            );
            let rows = displayed_rows(node, root_time, scale, config);
            &&& calls is None ==> rows is None
            &&& !config.hide_small ==> rows == calls
            &&& config.hide_small && calls is Some ==> rows == collapsed(
                calls->0,
                Seq::new(
                    (calls->0).len(),
                    |i: int| scale((calls->0)[i].duration, root_time),
                ),
            )
        }),
{
    let shares = Seq::new(
        node.children.len(),
        |i: int| scale(node.children[i].duration, root_time),
    );
    assert(shares =~= scaled(node.children, root_time, scale));
    if let Some(calls) = grouped(node.children, shares) {
        let own = Seq::new(calls.len(), |i: int| scale(calls[i].duration, root_time));
        assert(own =~= scaled(calls, root_time, scale));
    }
}

/// Asking for unaccounted time adds one row in front of the others, with the time of the node
/// that its children do not account for, and changes nothing else. It adds none where there is
/// no row, and fails where the children ran longer than the node.
pub proof fn law_unaccounted_time_comes_first(
    node: SpanView,
    root_time: u128,
    scale: Scale,
    config: Config,
)
    ensures
        ({
            let plain = displayed_rows(
                node,
                root_time,
                scale,
                Config { display_unaccounted: false, ..config },
            );
            let more = displayed_rows(
                node,
                root_time,
                scale,
                Config { display_unaccounted: true, ..config },
            );
            &&& plain is None ==> more is None
            &&& plain matches Some(rows) ==> {
                &&& rows.len() == 0 ==> more == plain
                &&& rows.len() > 0 && duration_sum(node.children) > node.duration ==> more is None
                &&& rows.len() > 0 && duration_sum(node.children) <= node.duration ==> more == Some(
                    seq![
                        SpanView {
                            name: "[unaccounted]"@,
                            started: None,
                            duration: (node.duration - duration_sum(node.children)) as u128,
                            metadata: Seq::empty(),
                            events: Seq::empty(),
                            children: Seq::empty(),
                            calls: 0,
                        },
                    ] + rows,
                )
            }
        }),
{
    law_unaccounted_time_is_the_rest(node);
}

/// The row of a displayed node has its label, on the scale of the whole graph, and lists all its
/// counts. Everything below it is displayed in the time of the same graph.
pub proof fn law_a_row_is_labelled_on_the_scale_of_the_graph(
    node: SpanView,
    root_time: u128,
    scale: Scale,
    config: Config,
)
    requires
        rendered(node, root_time, scale, config) is Some,
    ensures
        displayed_rows(node, root_time, scale, config) is Some,
        ({
            let tree = rendered(node, root_time, scale, config)->0;
            let rows = displayed_rows(node, root_time, scale, config)->0;
            &&& tree.label == label_text(node, scale(node.duration, root_time), config)
            &&& tree.events == count_texts(node.events)
            &&& tree.children == Seq::new(
                rows.len(),
                |i: int| rendered(rows[i], root_time, scale, config)->0,
            )
        }),
{
    let tree = rendered(node, root_time, scale, config)->0;
    let rows = displayed_rows(node, root_time, scale, config)->0;
    lemma_rendered_all(rows, root_time, scale, config);
    let stated = Seq::new(rows.len(), |i: int| rendered(rows[i], root_time, scale, config)->0);
    assert forall|i: int| 0 <= i < rows.len() implies tree.children[i] == stated[i] by {
        assert(Some(tree.children[i]) == rendered(rows[i], root_time, scale, config));
    }
    assert(tree.children =~= stated);
}

/// A node can be displayed exactly where its duration exists, its rows do, and each of these
/// can be displayed.
pub proof fn law_when_a_node_is_displayed(
    node: SpanView,
    root_time: u128,
    scale: Scale,
    config: Config,
)
    ensures
        rendered(node, root_time, scale, config) is Some <==> {
            &&& node.duration <= 18_446_744_073_709_551_615_999_999_999
            &&& displayed_rows(node, root_time, scale, config) matches Some(rows)
            &&& forall|i: int|
                0 <= i < rows.len() ==> rendered(
                    #[trigger] rows[i],
                    root_time,
                    scale,
                    config,
                ) is Some
        },
{
    if let Some(rows) = displayed_rows(node, root_time, scale, config) {
        if rendered(node, root_time, scale, config) is Some {
            lemma_rendered_all(rows, root_time, scale, config);
            let trees = rendered_all(rows, root_time, scale, config)->0;
            assert forall|i: int| 0 <= i < rows.len() implies rendered(
                #[trigger] rows[i],
                root_time,
                scale,
                config,
            ) is Some by {
                assert(Some(trees[i]) == rendered(rows[i], root_time, scale, config));
            }
        }
        if forall|i: int|
            0 <= i < rows.len() ==> rendered(#[trigger] rows[i], root_time, scale, config) is Some {
            lemma_all_rendered(rows, root_time, scale, config);
        }
    }
}

proof fn lemma_all_rendered(rows: Seq<SpanView>, root_time: u128, scale: Scale, config: Config)
    requires
        forall|i: int|
            0 <= i < rows.len() ==> rendered(#[trigger] rows[i], root_time, scale, config) is Some,
    ensures
        rendered_all(rows, root_time, scale, config) is Some,
    decreases rows.len(),
{
    if rows.len() > 0 {
        let init = rows.drop_last();
        assert forall|i: int| 0 <= i < init.len() implies rendered(
            #[trigger] init[i],
            root_time,
            scale,
            config,
        ) is Some by {
            assert(init[i] == rows[i]);
        }
        lemma_all_rendered(init, root_time, scale, config);
        assert(rendered(rows[rows.len() - 1], root_time, scale, config) is Some);
    }
}

/// A graph is printed in its own time: as the drawing of its displayed tree, with the events
/// of its tree accumulated where that is asked for, and as it is where it is not.
pub proof fn law_a_graph_is_printed_in_its_own_time(node: SpanView, scale: Scale, config: Config)
    ensures
        !config.accumulate_events ==> {
            let tree = rendered(node, node.duration, scale, config);
            &&& tree is None ==> printed(node, scale, config) is None
            &&& tree is Some ==> printed(node, scale, config) == Some(drawing(tree->0))
        },
        config.accumulate_events ==> {
            let summed = accumulated(node, config.accumulate_spans_count);
            &&& summed is None ==> printed(node, scale, config) is None
            &&& summed is Some ==> {
                let tree = rendered(summed->0, node.duration, scale, config);
                &&& tree is None ==> printed(node, scale, config) is None
                &&& tree is Some ==> printed(node, scale, config) == Some(drawing(tree->0))
            }
        },
{
}

/// The displayed node that a path, which names a row at each step, leads to.
pub open spec fn shown_at(
    node: SpanView,
    root_time: u128,
    scale: Scale,
    config: Config,
    path: Seq<int>,
) -> Option<SpanView>
    decreases path.len(),
{
    if path.len() == 0 {
        Some(node)
    } else {
        match displayed_rows(node, root_time, scale, config) {
            Some(rows) => if 0 <= path[0] < rows.len() {
                shown_at(rows[path[0]], root_time, scale, config, path.skip(1))
            } else {
                None
            },
            None => None,
        }
    }
}

/// The part of a tree that a path, which names a child at each step, leads to.
pub open spec fn tree_at(tree: TreeView, path: Seq<int>) -> Option<TreeView>
    decreases path.len(),
{
    if path.len() == 0 {
        Some(tree)
    } else if 0 <= path[0] < tree.children.len() {
        tree_at(tree.children[path[0]], path.skip(1))
    } else {
        None
    }
}

/// However deep a row stands, it is the row of the displayed node in the same place, labelled
/// by the share of that node in the time of the whole graph, with all the counts of that node.
/// The tree has no other rows and lacks none.
pub proof fn law_every_row_is_on_the_scale_of_the_graph(
    node: SpanView,
    root_time: u128,
    scale: Scale,
    config: Config,
    path: Seq<int>,
)
    requires
        rendered(node, root_time, scale, config) is Some,
    ensures
        ({
            let row = tree_at(rendered(node, root_time, scale, config)->0, path);
            let shown = shown_at(node, root_time, scale, config, path);
            &&& row is Some <==> shown is Some
            &&& row is Some ==> {
                &&& (row->0).label == label_text(
                    shown->0,
                    scale((shown->0).duration, root_time),
                    config,
                )
                &&& (row->0).events == count_texts((shown->0).events)
            }
        }),
    decreases path.len(),
{
    law_a_row_is_labelled_on_the_scale_of_the_graph(node, root_time, scale, config);
    law_when_a_node_is_displayed(node, root_time, scale, config);
    let tree = rendered(node, root_time, scale, config)->0;
    let rows = displayed_rows(node, root_time, scale, config)->0;
    if path.len() > 0 && 0 <= path[0] < rows.len() {
        let next = rows[path[0]];
        assert(tree.children[path[0]] == rendered(next, root_time, scale, config)->0);
        law_every_row_is_on_the_scale_of_the_graph(next, root_time, scale, config, path.skip(1));
    }
}

} // verus!
