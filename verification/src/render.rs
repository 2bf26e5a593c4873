//! From a call graph to the tree that is displayed.

use vstd::prelude::*;

use crate::config::{Config, Share, ShareView};
use crate::events::count_texts;
use crate::label::label_text;
use crate::node::lemma_children_view;
use crate::node::{accumulated, blank, node_views, GraphNode, SpanView, DURATION_MAX};
use crate::rows::{collapse_small, group_calls};
use crate::rows::{collapsed, collapsed_prefix, grouped, grouped_prefix, share_views, unaccounted};
use crate::tree::lemma_tree_children_view;
use crate::tree::{drawing, tree_views, LogTree, TreeView};

verus! {

/// How a duration compares with the time of the whole graph, which comes second.
pub type Scale = spec_fn(u128, u128) -> ShareView;

/// The function can be asked about every duration in every graph.
pub open spec fn answers<F: Fn(u128, u128) -> Share>(judge: &F) -> bool {
    forall|nanos: u128, root_time: u128| call_requires(judge, (nanos, root_time))
}

/// Whatever the function returns for a duration is what `scale` says of it.
pub open spec fn follows<F: Fn(u128, u128) -> Share>(judge: &F, scale: Scale) -> bool {
    forall|nanos: u128, root_time: u128, share: Share| #[trigger]
        call_ensures(judge, (nanos, root_time), share) ==> share@ == scale(nanos, root_time)
}

/// The shares that a list of nodes has in a graph.
pub open spec fn scaled(nodes: Seq<SpanView>, root_time: u128, scale: Scale) -> Seq<ShareView> {
    nodes.map_values(|node: SpanView| scale(node.duration, root_time))
}

/// The rows below a node: its children with neighbouring calls grouped, rows that are too
/// small collapsed, and in front of them, where there is any row, the time that the
/// children do not account for. None where a sum leaves its range, or where that time is
/// asked for and the children ran longer than the node.
pub open spec fn displayed_rows(
    node: SpanView,
    root_time: u128,
    scale: Scale,
    config: Config,
) -> Option<Seq<SpanView>> {
    match grouped(node.children, scaled(node.children, root_time, scale)) {
        Some(calls) => match (if config.hide_small {
            collapsed(calls, scaled(calls, root_time, scale))
        } else {
            Some(calls)
        }) {
            Some(rows) => if config.display_unaccounted && rows.len() > 0 {
                match unaccounted(node) {
                    Some(first) => Some(seq![first] + rows),
                    None => None,
                }
            } else {
                Some(rows)
            },
            None => None,
        },
        None => None,
    }
}

/// How many nodes the longest path down from a node has, the node included.
pub open spec fn height(node: SpanView) -> nat
    decreases node,
{
    1 + tallest(node.children)
}

/// The greatest height in a list of nodes.
pub open spec fn tallest(nodes: Seq<SpanView>) -> nat
    decreases nodes,
{
    if nodes.len() == 0 {
        0
    } else {
        let rest = tallest(nodes.drop_last());
        let last = height(nodes[nodes.len() - 1]);
        if rest < last {
            last
        } else {
            rest
        }
    }
}

/// The displayed tree of a node; none where [`displayed_rows`] is none for a displayed
/// node, or a displayed duration does not exist.
pub open spec fn rendered(
    node: SpanView,
    root_time: u128,
    scale: Scale,
    config: Config,
) -> Option<TreeView>
    decreases height(node), 0nat,
{
    if node.duration > DURATION_MAX {
        None
    } else {
        match displayed_rows(node, root_time, scale, config) {
            Some(rows) => {
                proof {
                    lemma_rows_height(node, root_time, scale, config);
                }
                match rendered_all(rows, root_time, scale, config) {
                    Some(children) => Some(
                        TreeView {
                            label: label_text(node, scale(node.duration, root_time), config),
                            events: count_texts(node.events),
                            children,
                        },
                    ),
                    None => None,
                }
            },
            None => None,
        }
    }
}

/// The displayed trees of a list of nodes.
pub open spec fn rendered_all(
    rows: Seq<SpanView>,
    root_time: u128,
    scale: Scale,
    config: Config,
) -> Option<Seq<TreeView>>
    decreases tallest(rows), rows.len(),
{
    if rows.len() == 0 {
        Some(seq![])
    } else {
        match rendered_all(rows.drop_last(), root_time, scale, config) {
            Some(trees) => match rendered(rows[rows.len() - 1], root_time, scale, config) {
                Some(tree) => Some(trees.push(tree)),
                None => None,
            },
            None => None,
        }
    }
}

/// The drawing of a call graph on the scale of its own time, with its events accumulated
/// where that is asked for.
pub open spec fn printed(node: SpanView, scale: Scale, config: Config) -> Option<Seq<char>> {
    match (if config.accumulate_events {
        accumulated(node, config.accumulate_spans_count)
    } else {
        Some(node)
    }) {
        Some(summed) => match rendered(summed, node.duration, scale, config) {
            Some(tree) => Some(drawing(tree)),
            None => None,
        },
        None => None,
    }
}

proof fn lemma_tallest_push(nodes: Seq<SpanView>, node: SpanView)
    ensures
        tallest(nodes.push(node)) == (if tallest(nodes) < height(node) {
            height(node)
        } else {
            tallest(nodes)
        }),
{
    assert(nodes.push(node).drop_last() =~= nodes);
}

/// A list is as tall as its tallest node.
pub(crate) proof fn lemma_tallest(nodes: Seq<SpanView>, i: int)
    requires
        0 <= i < nodes.len(),
    ensures
        1 <= height(nodes[i]) <= tallest(nodes),
    decreases nodes.len(),
{
    if i < nodes.len() - 1 {
        lemma_tallest(nodes.drop_last(), i);
    }
}

/// Grouping makes nothing taller.
proof fn lemma_grouped_height(nodes: Seq<SpanView>, shares: Seq<ShareView>, n: nat)
    requires
        n <= nodes.len(),
        grouped_prefix(nodes, shares, n) is Some,
    ensures
        ({
            let (rows, pending) = grouped_prefix(nodes, shares, n)->0;
            &&& tallest(rows) <= tallest(nodes)
            &&& pending matches Some(calls) ==> height(calls) <= tallest(nodes)
        }),
    decreases n,
{
    if n > 0 {
        let node = nodes[n - 1];
        lemma_grouped_height(nodes, shares, (n - 1) as nat);
        lemma_tallest(nodes, n - 1);
        let (rows, pending) = grouped_prefix(nodes, shares, (n - 1) as nat)->0;
        let (after, _) = grouped_prefix(nodes, shares, n)->0;
        if pending is Some {
            lemma_tallest_push(rows, pending->0);
            lemma_tallest_push(rows.push(pending->0), node);
        }
        if after.len() > 0 {
            lemma_tallest_push(rows, after.last());
        }
    }
}

/// Collapsing makes nothing taller.
proof fn lemma_collapsed_height(rows: Seq<SpanView>, shares: Seq<ShareView>, n: nat)
    requires
        n <= rows.len(),
        collapsed_prefix(rows, shares, n) is Some,
    ensures
        tallest(collapsed_prefix(rows, shares, n)->0) <= tallest(rows),
    decreases n,
{
    if n > 0 {
        let row = rows[n - 1];
        lemma_collapsed_height(rows, shares, (n - 1) as nat);
        lemma_tallest(rows, n - 1);
        let shown = collapsed_prefix(rows, shares, (n - 1) as nat)->0;
        let after = collapsed_prefix(rows, shares, n)->0;
        assert(height(blank("[...]"@)) == 1);
        lemma_tallest_push(shown, after.last());
        if shown.len() > 0 {
            lemma_tallest(shown, shown.len() - 1);
            lemma_tallest_push(shown.drop_last(), after.last());
        }
    }
}

/// A row in front makes a list of rows no taller where it has no children itself.
proof fn lemma_tallest_front(first: SpanView, rows: Seq<SpanView>)
    requires
        first.children.len() == 0,
        rows.len() > 0,
    ensures
        tallest(seq![first] + rows) == tallest(rows),
    decreases rows.len(),
{
    let none: Seq<SpanView> = seq![];
    let init = rows.drop_last();
    assert(tallest(none) == 0);
    assert(height(first) == 1);
    assert(seq![first] + rows =~= (seq![first] + init).push(rows.last()));
    lemma_tallest_push(seq![first] + init, rows.last());
    if rows.len() == 1 {
        assert(seq![first] + init =~= none.push(first));
        lemma_tallest_push(none, first);
        assert(init =~= none);
    } else {
        lemma_tallest_front(first, init);
    }
}

/// The rows below a node are less tall than the node.
pub proof fn lemma_rows_height(node: SpanView, root_time: u128, scale: Scale, config: Config)
    requires
        displayed_rows(node, root_time, scale, config) is Some,
    ensures
        tallest(displayed_rows(node, root_time, scale, config)->0) < height(node),
{
    let nodes = node.children;
    let shares = scaled(nodes, root_time, scale);
    lemma_grouped_height(nodes, shares, nodes.len());
    let calls = grouped(nodes, shares)->0;
    if config.hide_small {
        lemma_collapsed_height(calls, scaled(calls, root_time, scale), calls.len());
    }
    let rows = if config.hide_small {
        collapsed(calls, scaled(calls, root_time, scale))->0
    } else {
        calls
    };
    if config.display_unaccounted && rows.len() > 0 {
        lemma_tallest_front(unaccounted(node)->0, rows);
    }
}

/// A list that fails to render on its first nodes fails on all of them.
proof fn lemma_render_overflow(
    rows: Seq<SpanView>,
    root_time: u128,
    scale: Scale,
    config: Config,
    n: int,
)
    requires
        0 <= n <= rows.len(),
        rendered_all(rows.take(n), root_time, scale, config) is None,
    ensures
        rendered_all(rows, root_time, scale, config) is None,
    decreases rows.len() - n,
{
    if n == rows.len() {
        assert(rows.take(n) =~= rows);
    } else {
        assert(rows.take(n + 1).drop_last() =~= rows.take(n));
        lemma_render_overflow(rows, root_time, scale, config, n + 1);
    }
}

/// What a rendering that may have failed holds.
pub open spec fn tree_view(tree: Option<LogTree>) -> Option<TreeView> {
    match tree {
        Some(tree) => Some(tree@),
        None => None,
    }
}

/// What a text that may be missing holds.
pub open spec fn text_view(text: Option<String>) -> Option<Seq<char>> {
    match text {
        Some(text) => Some(text@),
        None => None,
    }
}

/// Asks for the shares of a list of nodes.
fn judge_all<F: Fn(u128, u128) -> Share>(
    nodes: &Vec<GraphNode>,
    root_time: u128,
    judge: &F,
) -> (shares: Vec<Share>)
    requires
        answers(judge),
    ensures
        shares@.len() == nodes@.len(),
        forall|scale: Scale| #[trigger]
            follows(judge, scale) ==> share_views(shares@) == scaled(
                node_views(nodes@),
                root_time,
                scale,
            ),
{
    let mut shares: Vec<Share> = Vec::new();
    let mut i: usize = 0;
    while i < nodes.len()
        invariant
            i <= nodes@.len(),
            shares@.len() == i,
            answers(judge),
            forall|scale: Scale, j: int| #[trigger]
                follows(judge, scale) && 0 <= j < i ==> (#[trigger] shares@[j])@ == scale(
                    nodes@[j].execution_duration,
                    root_time,
                ),
        decreases nodes.len() - i,
    {
        let share = judge(nodes[i].execution_duration, root_time);
        shares.push(share);
        i += 1;
    }
    assert forall|scale: Scale| #[trigger] follows(judge, scale) implies share_views(shares@)
        == scaled(node_views(nodes@), root_time, scale) by {
        assert(share_views(shares@) =~= scaled(node_views(nodes@), root_time, scale));
    }
    shares
}

impl GraphNode {
    /// The rows below the node, unless a sum leaves its range or the children ran longer
    /// than the node and that is asked for.
    fn checked_rows<F: Fn(u128, u128) -> Share>(
        &self,
        root_time: u128,
        judge: &F,
        config: &Config,
    ) -> (rows: Option<Vec<GraphNode>>)
        requires
            answers(judge),
        ensures
            forall|scale: Scale| #[trigger]
                follows(judge, scale) ==> match rows {
                    Some(list) => displayed_rows(self@, root_time, scale, *config) == Some(
                        node_views(list@),
                    ),
                    None => displayed_rows(self@, root_time, scale, *config) is None,
                },
            rows matches Some(list) ==> tallest(node_views(list@)) < height(self@),
    {
        proof {
            lemma_children_view(*self);
        }
        let shares = judge_all(&self.child_nodes, root_time, judge);
        let calls = match group_calls(&self.child_nodes, &shares) {
            Some(calls) => calls,
            None => {
                return None;
            },
        };
        proof {
            lemma_grouped_height(self@.children, share_views(shares@), self@.children.len());
        }
        let ghost grouped_calls = node_views(calls@);
        let mut rows = if config.hide_small {
            let row_shares = judge_all(&calls, root_time, judge);
            match collapse_small(&calls, &row_shares) {
                Some(rows) => {
                    proof {
                        lemma_collapsed_height(
                            grouped_calls,
                            share_views(row_shares@),
                            grouped_calls.len(),
                        );
                    }
                    rows
                },
                None => {
                    return None;
                },
            }
        } else {
            calls
        };
        let ghost before = node_views(rows@);
        if config.display_unaccounted && rows.len() > 0 {
            match self.unaccounted() {
                Some(first) => {
                    rows.insert(0, first);
                    assert(node_views(rows@) =~= seq![first@] + before);
                    proof {
                        lemma_tallest_front(first@, before);
                    }
                },
                None => {
                    return None;
                },
            }
        }
        Some(rows)
    }

    /// The displayed tree of the node. `judge` says how a duration compares with
    /// `root_time`, the time of the whole graph. The result is `None` where a sum leaves its
    /// range, or where unaccounted time is asked for and the children of a displayed node
    /// ran longer than the node.
    pub fn checked_render_tree<F: Fn(u128, u128) -> Share>(
        &self,
        root_time: u128,
        judge: &F,
        config: &Config,
    ) -> (tree: Option<LogTree>)
        requires
            answers(judge),
        ensures
            forall|scale: Scale| #[trigger]
                follows(judge, scale) ==> tree_view(tree) == rendered(
                    self@,
                    root_time,
                    scale,
                    *config,
                ),
        decreases height(self@),
    {
        if self.execution_duration > DURATION_MAX {
            return None;
        }
        let rows = match self.checked_rows(root_time, judge, config) {
            Some(rows) => rows,
            None => {
                return None;
            },
        };
        let ghost views = node_views(rows@);
        let mut children: Vec<LogTree> = Vec::new();
        let mut i: usize = 0;
        assert(views.take(0) =~= seq![]);
        assert(tree_views(children@) =~= seq![]);
        while i < rows.len()
            invariant
                i <= rows@.len(),
                answers(judge),
                views == node_views(rows@),
                tallest(views) < height(self@),
                self.execution_duration <= DURATION_MAX,
                forall|scale: Scale| #[trigger]
                    follows(judge, scale) ==> displayed_rows(self@, root_time, scale, *config)
                        == Some(views),
                forall|scale: Scale| #[trigger]
                    follows(judge, scale) ==> rendered_all(
                        views.take(i as int),
                        root_time,
                        scale,
                        *config,
                    ) == Some(tree_views(children@)),
            decreases rows.len() - i,
        {
            let ghost done = tree_views(children@);
            assert(views[i as int] == rows@[i as int]@);
            proof {
                lemma_tallest(views, i as int);
            }
            assert(views.take(i + 1).drop_last() =~= views.take(i as int));
            assert(views.take(i + 1)[i as int] == views[i as int]);
            match rows[i].checked_render_tree(root_time, judge, config) {
                Some(child) => {
                    children.push(child);
                    assert(tree_views(children@) =~= done.push(child@));
                },
                None => {
                    assert forall|scale: Scale| #[trigger] follows(judge, scale) implies rendered(
                        self@,
                        root_time,
                        scale,
                        *config,
                    ) is None by {
                        lemma_render_overflow(views, root_time, scale, *config, i + 1);
                    }
                    return None;
                },
            }
            i += 1;
        }
        assert(views.take(i as int) =~= views);
        let share = judge(self.execution_duration, root_time);
        let tree = LogTree {
            label: self.label(&share, config),
            events: self.events.format(),
            children,
        };
        proof {
            lemma_tree_children_view(tree);
        }
        assert forall|scale: Scale| #[trigger] follows(judge, scale) implies Some(tree@)
            == rendered(self@, root_time, scale, *config) by {
            assert(share@ == scale(self.execution_duration, root_time));
        }
        Some(tree)
    }

    /// The displayed tree of the node. `judge` says how a duration compares with
    /// `root_time`, the time of the whole graph.
    pub fn render_tree<F: Fn(u128, u128) -> Share>(
        &self,
        root_time: u128,
        judge: &F,
        config: &Config,
    ) -> (tree: LogTree)
        requires
            answers(judge),
            exists|scale: Scale| #[trigger]
                follows(judge, scale) && rendered(self@, root_time, scale, *config) is Some,
        ensures
            forall|scale: Scale| #[trigger]
                follows(judge, scale) ==> Some(tree@) == rendered(self@, root_time, scale, *config),
    {
        self.checked_render_tree(root_time, judge, config).unwrap()
    }

    /// The text to print for a finished call graph. `judge` says how a duration compares
    /// with the time of the whole graph, here that of this node. The result is `None` where
    /// a sum leaves its range, or where unaccounted time is asked for and the children of a
    /// displayed node ran longer than the node.
    pub fn checked_print<F: Fn(u128, u128) -> Share>(
        self,
        judge: &F,
        config: &Config,
    ) -> (text: Option<String>)
        requires
            answers(judge),
        ensures
            forall|scale: Scale| #[trigger]
                follows(judge, scale) ==> text_view(text) == printed(self@, scale, *config),
    {
        let root_time: u128 = self.execution_duration;
        let summed = if config.accumulate_events {
            match self.checked_accumulate(config.accumulate_spans_count) {
                Some(node) => node,
                None => {
                    return None;
                },
            }
        } else {
            self
        };
        match summed.checked_render_tree(root_time, judge, config) {
            Some(tree) => Some(tree.to_text()),
            None => None,
        }
    }

    /// The text to print for a finished call graph. `judge` says how a duration compares
    /// with the time of the whole graph, here that of this node.
    pub fn print<F: Fn(u128, u128) -> Share>(self, judge: &F, config: &Config) -> (text: String)
        requires
            answers(judge),
            exists|scale: Scale| #[trigger]
                follows(judge, scale) && printed(self@, scale, *config) is Some,
        ensures
            forall|scale: Scale| #[trigger]
                follows(judge, scale) ==> Some(text@) == printed(self@, scale, *config),
    {
        self.checked_print(judge, config).unwrap()
    }
}

} // verus!
