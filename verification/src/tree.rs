//! A tree of texts, and how it is drawn.

use vstd::prelude::*;
use vstd::string::*;

use crate::text::{led, texts};

verus! {

/// A displayed node: its row, the events listed below it, and the nodes below it.
#[derive(Debug)]
pub struct LogTree {
    pub label: String,
    pub events: Vec<String>,
    pub children: Vec<LogTree>,
}

/// What a [`LogTree`] holds.
#[verifier::ext_equal]
pub struct TreeView {
    pub label: Seq<char>,
    pub events: Seq<Seq<char>>,
    pub children: Seq<TreeView>,
}

impl View for LogTree {
    type V = TreeView;

    open spec fn view(&self) -> TreeView
        decreases self,
    {
        TreeView {
            label: self.label@,
            events: texts(self.events@),
            children: Seq::new(
                self.children@.len(),
                |i: int|
                    if 0 <= i < self.children@.len() {
                        self.children@[i].view()
                    } else {
                        arbitrary()
                    },
            ),
        }
    }
}

/// What a list of trees holds.
pub open spec fn tree_views(trees: Seq<LogTree>) -> Seq<TreeView> {
    trees.map_values(|tree: LogTree| tree@)
}

/// A tree's children are what its list of children holds.
pub proof fn lemma_tree_children_view(tree: LogTree)
    ensures
        tree@.children == tree_views(tree.children@),
{
    reveal_with_fuel(<LogTree as View>::view, 2);
    assert forall|i: int| 0 <= i < tree.children@.len() implies tree@.children[i] == tree_views(
        tree.children@,
    )[i] by {
        assert(tree@.children[i] == tree.children@[i]@);
    }
    assert(tree@.children =~= tree_views(tree.children@));
}

/// The listing of events, every line behind `margin`, with an empty line at its end; no
/// line at all where there is no event.
pub open spec fn events_text(events: Seq<Seq<char>>, margin: Seq<char>) -> Seq<char> {
    if events.len() == 0 {
        seq![]
    } else {
        margin + "Events:"@ + led(events, "\n"@ + margin + "  "@) + "\n"@ + margin + "\n"@
    }
}

/// A node behind `lead`, its events behind `margin`, and the nodes below it behind
/// `indent`.
pub open spec fn node_text(
    tree: TreeView,
    lead: Seq<char>,
    margin: Seq<char>,
    indent: Seq<char>,
) -> Seq<char>
    decreases tree, tree.children.len() + 1,
{
    lead + tree.label + "\n"@ + events_text(tree.events, margin) + children_text(
        tree,
        tree.children.len(),
        indent,
    )
}

/// The first `n` nodes below a node, each hung on a branch behind `indent`.
pub open spec fn children_text(tree: TreeView, n: nat, indent: Seq<char>) -> Seq<char>
    decreases tree, n,
{
    if n == 0 || n > tree.children.len() {
        seq![]
    } else {
        children_text(tree, (n - 1) as nat, indent) + if n == tree.children.len() {
            node_text(
                tree.children[n - 1],
                indent + "└── "@,
                indent + "    "@,
                indent + "   "@,
            )
        } else {
            node_text(
                tree.children[n - 1],
                indent + "├── "@,
                indent + "│   "@,
                indent + "│  "@,
            )
        }
    }
}

/// The drawing of a whole tree.
pub open spec fn drawing(tree: TreeView) -> Seq<char> {
    node_text(tree, ""@, ""@, ""@)
}

/// The two texts as one.
fn concat_text(first: &str, second: &str) -> (text: String)
    ensures
        text@ == first@ + second@,
{
    let mut text = first.to_owned();
    text.append(second);
    text
}

impl LogTree {
    /// Appends the listing of events.
    fn draw_events(&self, text: &mut String, margin: &str)
        ensures
            final(text)@ == old(text)@ + events_text(self@.events, margin@),
    {
        let ghost before = text@;
        if self.events.len() > 0 {
            text.append(margin);
            text.append("Events:");
            let mut lead = "\n".to_owned();
            lead.append(margin);
            lead.append("  ");
            let ghost events = self@.events;
            let ghost head = text@;
            let mut i: usize = 0;
            assert(events.take(0) =~= seq![]);
            assert(text@ =~= head + led(events.take(0), lead@));
            while i < self.events.len()
                invariant
                    i <= self.events@.len(),
                    events == texts(self.events@),
                    text@ == head + led(events.take(i as int), lead@),
                decreases self.events.len() - i,
            {
                text.append(lead.as_str());
                text.append(self.events[i].as_str());
                assert(events.take(i + 1).drop_last() =~= events.take(i as int));
                assert(events.take(i + 1).last() == self.events@[i as int]@);
                i += 1;
                assert(text@ =~= head + led(events.take(i as int), lead@));
            }
            assert(events.take(i as int) =~= events);
            text.append("\n");
            text.append(margin);
            text.append("\n");
            assert(lead@ =~= "\n"@ + margin@ + "  "@);
            assert(text@ =~= before + events_text(events, margin@));
        } else {
            assert(self@.events.len() == 0);
            assert(text@ =~= before + events_text(self@.events, margin@));
        }
    }

    /// Appends the node behind `lead`, its events behind `margin`, and the nodes below it
    /// behind `indent`.
    fn draw(&self, text: &mut String, lead: &str, margin: &str, indent: &str)
        ensures
            final(text)@ == old(text)@ + node_text(self@, lead@, margin@, indent@),
        decreases self,
    {
        let ghost before = text@;
        proof {
            lemma_tree_children_view(*self);
        }
        text.append(lead);
        text.append(self.label.as_str());
        text.append("\n");
        self.draw_events(text, margin);
        let ghost head = text@;
        let mut i: usize = 0;
        assert(text@ =~= head + children_text(self@, 0, indent@));
        while i < self.children.len()
            invariant
                i <= self.children@.len(),
                self@.children == tree_views(self.children@),
                text@ == head + children_text(self@, i as nat, indent@),
            decreases self.children.len() - i,
        {
            assert(self@.children[i as int] == self.children@[i as int]@);
            if i + 1 == self.children.len() {
                self.children[i].draw(
                    text,
                    concat_text(indent, "└── ").as_str(),
                    concat_text(indent, "    ").as_str(),
                    concat_text(indent, "   ").as_str(),
                );
            } else {
                self.children[i].draw(
                    text,
                    concat_text(indent, "├── ").as_str(),
                    concat_text(indent, "│   ").as_str(),
                    concat_text(indent, "│  ").as_str(),
                );
            }
            i += 1;
            assert(text@ =~= head + children_text(self@, i as nat, indent@));
        }
        assert(text@ =~= before + node_text(self@, lead@, margin@, indent@));
    }

    /// The drawing of the tree.
    pub fn to_text(&self) -> (text: String)
        ensures
            text@ == drawing(self@),
    {
        let mut text = String::new();
        self.draw(&mut text, "", "", "");
        assert(text@ =~= drawing(self@));
        text
    }
}

} // verus!
