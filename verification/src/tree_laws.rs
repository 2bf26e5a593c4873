//! What the drawing of a tree holds.

use vstd::prelude::*;

use crate::text::led;
use crate::tree::{children_text, drawing, events_text, node_text, LogTree, TreeView};

verus! {

/// How many nodes a tree has.
pub open spec fn node_count(tree: TreeView) -> nat
    decreases tree, tree.children.len() + 1,
{
    1 + node_count_below(tree, tree.children.len())
}

/// How many nodes the first `n` children of a node and everything below them are.
pub open spec fn node_count_below(tree: TreeView, n: nat) -> nat
    decreases tree, n,
{
    if n == 0 || n > tree.children.len() {
        0
    } else {
        node_count_below(tree, (n - 1) as nat) + node_count(tree.children[n - 1])
    }
}

/// How many lines the events of a tree take: none on a node without events, else one for
/// each event, one in front of them and one behind.
pub open spec fn event_line_count(tree: TreeView) -> nat
    decreases tree, tree.children.len() + 1,
{
    (if tree.events.len() == 0 {
        0
    } else {
        tree.events.len() + 2
    }) + event_line_count_below(tree, tree.children.len())
}

/// How many lines the events of the first `n` children of a node and of everything below
/// them take.
pub open spec fn event_line_count_below(tree: TreeView, n: nat) -> nat
    decreases tree, n,
{
    if n == 0 || n > tree.children.len() {
        0
    } else {
        event_line_count_below(tree, (n - 1) as nat) + event_line_count(tree.children[n - 1])
    }
}

/// The labels of a tree, each node before its children and the children in order.
pub open spec fn preorder(tree: TreeView) -> Seq<Seq<char>>
    decreases tree, tree.children.len() + 1,
{
    seq![tree.label] + preorder_below(tree, tree.children.len())
}

/// The labels of the first `n` children of a node and of everything below them.
pub open spec fn preorder_below(tree: TreeView, n: nat) -> Seq<Seq<char>>
    decreases tree, n,
{
    if n == 0 || n > tree.children.len() {
        seq![]
    } else {
        preorder_below(tree, (n - 1) as nat) + preorder(tree.children[n - 1])
    }
}

/// The text holds no line break.
pub open spec fn one_line(text: Seq<char>) -> bool {
    forall|i: int| 0 <= i < text.len() ==> #[trigger] text[i] != '\n'
}

/// No label and no event of the tree holds a line break.
pub open spec fn one_line_each(tree: TreeView) -> bool
    decreases tree,
{
    &&& one_line(tree.label)
    &&& forall|i: int| 0 <= i < tree.events.len() ==> one_line(#[trigger] tree.events[i])
    &&& forall|i: int| 0 <= i < tree.children.len() ==> one_line_each(#[trigger] tree.children[i])
}

/// How many line breaks a text holds.
pub open spec fn line_breaks(text: Seq<char>) -> nat {
    text.filter(|c: char| c == '\n').len()
}

/// The pieces occur in the text one behind the other, in order.
pub open spec fn holds_in_order(text: Seq<char>, pieces: Seq<Seq<char>>) -> bool
    decreases pieces.len(),
{
    if pieces.len() == 0 {
        true
    } else {
        exists|at: int|
            0 <= at <= text.len() - pieces.last().len() && #[trigger] text.skip(at).take(
                pieces.last().len() as int,
            ) == pieces.last() && holds_in_order(text.take(at), pieces.drop_last())
    }
}

/// A node is drawn as its label behind `lead`, the listing of its events, and then every
/// one of its children, in order: each behind `indent` and a branch, of which the last
/// child has the one that ends there, with what is below it indented by that branch.
pub proof fn law_a_node_is_drawn_with_all_its_children(
    tree: TreeView,
    lead: Seq<char>,
    margin: Seq<char>,
    indent: Seq<char>,
)
    ensures
        node_text(tree, lead, margin, indent) == lead + tree.label + seq!['\n'] + events_text(
            tree.events,
            margin,
        ) + Seq::new(
            tree.children.len(),
            |i: int|
                if i + 1 == tree.children.len() {
                    node_text(
                        tree.children[i],
                        indent + "└── "@,
                        indent + "    "@,
                        indent + "   "@,
                    )
                } else {
                    node_text(
                        tree.children[i],
                        indent + "├── "@,
                        indent + "│   "@,
                        indent + "│  "@,
                    )
                },
        ).flatten(),
        drawing(tree) == node_text(tree, seq![], seq![], seq![]),
{
    reveal_strlit("\n");
    reveal_strlit("");
    assert("\n"@ =~= seq!['\n']);
    assert(""@ =~= seq![]);
    lemma_children_flattened(tree, indent, tree.children.len());
    let all = child_texts(tree, indent);
    assert(all.take(all.len() as int) =~= all);
    assert(node_text(tree, lead, margin, indent) =~= lead + tree.label + seq!['\n'] + events_text(
        tree.events,
        margin,
    ) + all.flatten());
}

/// The drawings of the children of a node.
spec fn child_texts(tree: TreeView, indent: Seq<char>) -> Seq<Seq<char>> {
    Seq::new(
        tree.children.len(),
        |i: int|
            if i + 1 == tree.children.len() {
                node_text(
                    tree.children[i],
                    indent + "└── "@,
                    indent + "    "@,
                    indent + "   "@,
                )
            } else {
                node_text(
                    tree.children[i],
                    indent + "├── "@,
                    indent + "│   "@,
                    indent + "│  "@,
                )
            },
    )
}

proof fn lemma_children_flattened(tree: TreeView, indent: Seq<char>, n: nat)
    requires
        n <= tree.children.len(),
    ensures
        children_text(tree, n, indent) == child_texts(tree, indent).take(n as int).flatten(),
    decreases n,
{
    let all = child_texts(tree, indent);
    if n == 0 {
        assert(all.take(0) =~= seq![]);
        assert(children_text(tree, n, indent) =~= all.take(0).flatten());
    } else {
        lemma_children_flattened(tree, indent, (n - 1) as nat);
        assert(all.take(n as int) =~= all.take(n - 1).push(all[n - 1]));
        all.take(n - 1).lemma_flatten_push(all[n - 1]);
    }
}

/// The listing of events is empty where there is no event. Else it is a heading, one line
/// for each event, in order and indented, and an empty line, all behind `margin`.
pub proof fn law_events_are_listed_one_to_a_line(events: Seq<Seq<char>>, margin: Seq<char>)
    ensures
        events.len() == 0 ==> events_text(events, margin) == Seq::<char>::empty(),
        events.len() > 0 ==> events_text(events, margin) == margin + "Events:\n"@ + Seq::new(
            events.len(),
            |i: int| margin + "  "@ + events[i] + seq!['\n'],
        ).flatten() + margin + seq!['\n'],
{
    reveal_strlit("\n");
    reveal_strlit("Events:");
    reveal_strlit("Events:\n");
    assert("\n"@ =~= seq!['\n']);
    assert("Events:\n"@ =~= "Events:"@ + seq!['\n']);
    if events.len() > 0 {
        lemma_led_lines(events, margin);
        let lines = Seq::new(events.len(), |i: int| margin + "  "@ + events[i] + seq!['\n']);
        let lead = "\n"@ + margin + "  "@;
        assert(events_text(events, margin) =~= margin + "Events:"@ + (led(events, lead) + seq![
            '\n',
        ]) + margin + seq!['\n']);
        assert(margin + "Events:"@ + (seq!['\n'] + lines.flatten()) + margin + seq!['\n']
            =~= margin + "Events:\n"@ + lines.flatten() + margin + seq!['\n']);
    }
}

proof fn lemma_led_lines(events: Seq<Seq<char>>, margin: Seq<char>)
    ensures
        led(events, "\n"@ + margin + "  "@) + seq!['\n'] == seq!['\n'] + Seq::new(
            events.len(),
            |i: int| margin + "  "@ + events[i] + seq!['\n'],
        ).flatten(),
    decreases events.len(),
{
    reveal_strlit("\n");
    assert("\n"@ =~= seq!['\n']);
    let lead = "\n"@ + margin + "  "@;
    let lines = Seq::new(events.len(), |i: int| margin + "  "@ + events[i] + seq!['\n']);
    if events.len() == 0 {
        assert(lines =~= seq![]);
        assert(led(events, lead) + seq!['\n'] =~= seq!['\n'] + lines.flatten());
    } else {
        let init = events.drop_last();
        let before = Seq::new(init.len(), |i: int| margin + "  "@ + init[i] + seq!['\n']);
        let last = margin + "  "@ + events.last() + seq!['\n'];
        lemma_led_lines(init, margin);
        assert(lines =~= before.push(last));
        before.lemma_flatten_push(last);
        assert(led(events, lead) + seq!['\n'] =~= (led(init, lead) + seq!['\n']) + last);
        assert((seq!['\n'] + before.flatten()) + last =~= seq!['\n'] + (before.flatten() + last));
    }
}

proof fn lemma_breaks_add(a: Seq<char>, b: Seq<char>)
    ensures
        line_breaks(a + b) == line_breaks(a) + line_breaks(b),
{
    Seq::filter_distributes_over_add(a, b, |c: char| c == '\n');
}

proof fn lemma_breaks_one_line(text: Seq<char>)
    requires
        one_line(text),
    ensures
        line_breaks(text) == 0,
    decreases text.len(),
{
    reveal(Seq::filter);
    if text.len() > 0 {
        assert(text[text.len() - 1] != '\n');
        lemma_breaks_one_line(text.drop_last());
    }
}

proof fn lemma_breaks_newline()
    ensures
        line_breaks(seq!['\n']) == 1,
        line_breaks(Seq::empty()) == 0,
{
    reveal(Seq::filter);
    assert(seq!['\n'].drop_last() =~= Seq::<char>::empty());
}

/// The drawing of a tree has exactly one line for each node and the lines of the event
/// listings, where no label and no event holds a line break.
pub proof fn law_one_line_for_each_node(tree: TreeView)
    requires
        one_line_each(tree),
    ensures
        line_breaks(drawing(tree)) == node_count(tree) + event_line_count(tree),
{
    reveal_strlit("");
    lemma_node_breaks(tree, ""@, ""@, ""@);
}

proof fn lemma_events_breaks(events: Seq<Seq<char>>, margin: Seq<char>)
    requires
        one_line(margin),
        forall|i: int| 0 <= i < events.len() ==> one_line(#[trigger] events[i]),
    ensures
        line_breaks(events_text(events, margin)) == (if events.len() == 0 {
            0
        } else {
            events.len() + 2
        }),
{
    reveal_strlit("\n");
    reveal_strlit("Events:");
    reveal_strlit("  ");
    assert("\n"@ =~= seq!['\n']);
    lemma_breaks_newline();
    if events.len() > 0 {
        let lead = "\n"@ + margin + "  "@;
        lemma_breaks_one_line(margin);
        lemma_breaks_one_line("Events:"@);
        lemma_breaks_one_line("  "@);
        lemma_breaks_add("\n"@, margin);
        lemma_breaks_add("\n"@ + margin, "  "@);
        lemma_led_breaks(events, lead);
        lemma_breaks_add(margin, "Events:"@);
        lemma_breaks_add(margin + "Events:"@, led(events, lead));
        lemma_breaks_add(margin + "Events:"@ + led(events, lead), "\n"@);
        lemma_breaks_add(margin + "Events:"@ + led(events, lead) + "\n"@, margin);
        lemma_breaks_add(margin + "Events:"@ + led(events, lead) + "\n"@ + margin, "\n"@);
    }
}

proof fn lemma_led_breaks(events: Seq<Seq<char>>, lead: Seq<char>)
    requires
        line_breaks(lead) == 1,
        forall|i: int| 0 <= i < events.len() ==> one_line(#[trigger] events[i]),
    ensures
        line_breaks(led(events, lead)) == events.len(),
    decreases events.len(),
{
    lemma_breaks_newline();
    if events.len() > 0 {
        let init = events.drop_last();
        assert(forall|i: int| 0 <= i < init.len() ==> init[i] == events[i]);
        lemma_led_breaks(init, lead);
        assert(one_line(events[events.len() - 1]));
        lemma_breaks_one_line(events.last());
        lemma_breaks_add(led(init, lead), lead);
        lemma_breaks_add(led(init, lead) + lead, events.last());
    }
}

proof fn lemma_node_breaks(
    tree: TreeView,
    lead: Seq<char>,
    margin: Seq<char>,
    indent: Seq<char>,
)
    requires
        one_line_each(tree),
        one_line(lead),
        one_line(margin),
        one_line(indent),
    ensures
        line_breaks(node_text(tree, lead, margin, indent)) == node_count(tree) + event_line_count(
            tree,
        ),
    decreases tree, tree.children.len() + 1,
{
    reveal_strlit("\n");
    assert("\n"@ =~= seq!['\n']);
    lemma_breaks_newline();
    lemma_breaks_one_line(lead);
    lemma_breaks_one_line(tree.label);
    lemma_events_breaks(tree.events, margin);
    lemma_children_breaks(tree, indent, tree.children.len());
    lemma_breaks_add(lead, tree.label);
    lemma_breaks_add(lead + tree.label, "\n"@);
    lemma_breaks_add(lead + tree.label + "\n"@, events_text(tree.events, margin));
    lemma_breaks_add(
        lead + tree.label + "\n"@ + events_text(tree.events, margin),
        children_text(tree, tree.children.len(), indent),
    );
}

proof fn lemma_children_breaks(tree: TreeView, indent: Seq<char>, n: nat)
    requires
        n <= tree.children.len(),
        one_line_each(tree),
        one_line(indent),
    ensures
        line_breaks(children_text(tree, n, indent)) == node_count_below(tree, n)
            + event_line_count_below(tree, n),
    decreases tree, n,
{
    lemma_breaks_newline();
    if n > 0 {
        reveal_strlit("└── ");
        reveal_strlit("    ");
        reveal_strlit("   ");
        reveal_strlit("├── ");
        reveal_strlit("│   ");
        reveal_strlit("│  ");
        lemma_children_breaks(tree, indent, (n - 1) as nat);
        let child = tree.children[n - 1];
        assert(one_line_each(child));
        let before = children_text(tree, (n - 1) as nat, indent);
        if n == tree.children.len() {
            lemma_node_breaks(child, indent + "└── "@, indent + "    "@, indent + "   "@);
            lemma_breaks_add(
                before,
                node_text(child, indent + "└── "@, indent + "    "@, indent + "   "@),
            );
        } else {
            lemma_node_breaks(child, indent + "├── "@, indent + "│   "@, indent + "│  "@);
            lemma_breaks_add(
                before,
                node_text(child, indent + "├── "@, indent + "│   "@, indent + "│  "@),
            );
        }
    }
}

/// The drawing of a tree holds the labels of all its nodes, each one behind that of its
/// parent and of the nodes that come before it.
pub proof fn law_labels_are_drawn_in_order(tree: TreeView)
    ensures
        holds_in_order(drawing(tree), preorder(tree)),
        preorder(tree).len() == node_count(tree),
{
    lemma_node_labels(tree, ""@, ""@, ""@);
}

/// What stands behind or in front of the pieces does not matter.
proof fn lemma_holds_around(
    before: Seq<char>,
    text: Seq<char>,
    after: Seq<char>,
    pieces: Seq<Seq<char>>,
)
    requires
        holds_in_order(text, pieces),
    ensures
        holds_in_order(before + text + after, pieces),
    decreases pieces.len(),
{
    if pieces.len() > 0 {
        let piece = pieces.last();
        let at = choose|at: int|
            0 <= at <= text.len() - piece.len() && #[trigger] text.skip(at).take(
                piece.len() as int,
            ) == piece && holds_in_order(text.take(at), pieces.drop_last());
        let whole = before + text + after;
        let there = before.len() + at;
        lemma_holds_around(before, text.take(at), seq![], pieces.drop_last());
        assert(whole.take(there) =~= before + text.take(at) + seq![]);
        assert(whole.skip(there).take(piece.len() as int) =~= text.skip(at).take(
            piece.len() as int,
        ));
    }
}

/// Pieces in one text and more pieces in the next are pieces in the two together.
proof fn lemma_holds_both(
    first: Seq<char>,
    pieces: Seq<Seq<char>>,
    second: Seq<char>,
    more: Seq<Seq<char>>,
)
    requires
        holds_in_order(first, pieces),
        holds_in_order(second, more),
    ensures
        holds_in_order(first + second, pieces + more),
    decreases more.len(),
{
    if more.len() == 0 {
        assert(pieces + more =~= pieces);
        lemma_holds_around(seq![], first, second, pieces);
        assert(Seq::<char>::empty() + first + second =~= first + second);
    } else {
        let piece = more.last();
        let at = choose|at: int|
            0 <= at <= second.len() - piece.len() && #[trigger] second.skip(at).take(
                piece.len() as int,
            ) == piece && holds_in_order(second.take(at), more.drop_last());
        let whole = first + second;
        let there = first.len() + at;
        lemma_holds_both(first, pieces, second.take(at), more.drop_last());
        assert((pieces + more).drop_last() =~= pieces + more.drop_last());
        assert((pieces + more).last() == piece);
        assert(whole.take(there) =~= first + second.take(at));
        assert(whole.skip(there).take(piece.len() as int) =~= second.skip(at).take(
            piece.len() as int,
        ));
    }
}

proof fn lemma_node_labels(tree: TreeView, lead: Seq<char>, margin: Seq<char>, indent: Seq<char>)
    ensures
        holds_in_order(node_text(tree, lead, margin, indent), preorder(tree)),
        preorder(tree).len() == node_count(tree),
    decreases tree, tree.children.len() + 1,
{
    let none: Seq<Seq<char>> = seq![];
    let own = lead + tree.label;
    let at = lead.len() as int;
    let first = seq![tree.label];
    assert(first.last() == tree.label);
    assert(first.drop_last() =~= none);
    assert(holds_in_order(own.take(at), none));
    assert(own.skip(at).take(first.last().len() as int) =~= first.last());
    assert(holds_in_order(own, first));
    let middle = "\n"@ + events_text(tree.events, margin);
    let rest = children_text(tree, tree.children.len(), indent);
    lemma_children_labels(tree, indent, tree.children.len());
    lemma_holds_around(middle, rest, seq![], preorder_below(tree, tree.children.len()));
    assert(middle + rest + seq![] =~= middle + rest);
    lemma_holds_both(
        own,
        seq![tree.label],
        middle + rest,
        preorder_below(tree, tree.children.len()),
    );
    assert(node_text(tree, lead, margin, indent) =~= own + (middle + rest));
}

proof fn lemma_children_labels(tree: TreeView, indent: Seq<char>, n: nat)
    requires
        n <= tree.children.len(),
    ensures
        holds_in_order(children_text(tree, n, indent), preorder_below(tree, n)),
        preorder_below(tree, n).len() == node_count_below(tree, n),
    decreases tree, n,
{
    if n > 0 {
        lemma_children_labels(tree, indent, (n - 1) as nat);
        let child = tree.children[n - 1];
        let before = children_text(tree, (n - 1) as nat, indent);
        let labels = preorder_below(tree, (n - 1) as nat);
        if n == tree.children.len() {
            let text = node_text(child, indent + "└── "@, indent + "    "@, indent + "   "@);
            lemma_node_labels(child, indent + "└── "@, indent + "    "@, indent + "   "@);
            lemma_holds_both(before, labels, text, preorder(child));
        } else {
            let text = node_text(child, indent + "├── "@, indent + "│   "@, indent + "│  "@);
            lemma_node_labels(child, indent + "├── "@, indent + "│   "@, indent + "│  "@);
            lemma_holds_both(before, labels, text, preorder(child));
        }
    }
}

/// What a tree holds is its label, its events and its children, all of them and in order.
pub proof fn law_a_tree_holds_its_parts(tree: LogTree)
    ensures
        tree@.label == tree.label@,
        tree@.events.len() == tree.events@.len(),
        forall|i: int| 0 <= i < tree.events@.len() ==> tree@.events[i] == (#[trigger] tree.events@[
            i
        ])@,
        tree@.children.len() == tree.children@.len(),
        forall|i: int|
            0 <= i < tree.children@.len() ==> tree@.children[i] == (#[trigger] tree.children@[i])@,
{
    reveal_with_fuel(<LogTree as View>::view, 2);
}

} // verus!
