//! What a whole history of spans and events comes to.

use vstd::prelude::*;

use crate::accumulate_laws::{children_total, subtree_total};
use crate::events::EventView;
use crate::layer::Parent;
use crate::node::SpanView;
use crate::state::StateView;

verus! {

/// One thing that happens.
pub enum Step {
    NewSpan { id: u64, fields: Seq<(Seq<char>, Seq<char>)> },
    Record { id: u64, fields: Seq<(Seq<char>, Seq<char>)> },
    Enter { thread: u64, id: u64, now: u128 },
    Exit { thread: u64, id: u64, name: Seq<char>, parent: Parent, now: u128 },
    Occur {
        thread: u64,
        is_root: bool,
        named: Option<u64>,
        context: Option<u64>,
        event: EventView,
    },
}

impl Step {
    /// The step makes the span.
    pub open spec fn makes(self, span: u64) -> bool {
        self matches Step::NewSpan { id, .. } && id == span
    }

    /// The step leaves the span, on the main thread or with a parent that was named.
    pub open spec fn leaves(self, main_thread: u64, span: u64) -> bool {
        self matches Step::Exit { thread, id, parent, .. } && id == span && parent.captured(
            main_thread,
            thread,
        )
    }

    /// The step leaves a span whose parent is the given one, on the main thread or with a
    /// parent that was named.
    pub open spec fn leaves_child_of(self, main_thread: u64, span: u64) -> bool {
        self matches Step::Exit { thread, parent, .. } && parent.id() == Some(span)
            && parent.captured(main_thread, thread)
    }

    /// The step leaves a span without a parent on a thread other than the main thread.
    pub open spec fn leaves_root_elsewhere(self, main_thread: u64) -> bool {
        self matches Step::Exit { thread, parent, .. } && thread != main_thread && parent is Root
    }
}

impl StateView {
    /// The state after one step; none where a counter leaves its range.
    pub open spec fn after_step(self, main_thread: u64, step: Step) -> Option<StateView> {
        match step {
            Step::NewSpan { id, fields } => Some(self.after_new_span(id, fields)),
            Step::Record { id, fields } => Some(self.after_record(id, fields)),
            Step::Enter { thread, id, now } => Some(self.after_enter(thread, id, now)),
            Step::Exit { thread, id, name, parent, now } => Some(
                self.after_exit(main_thread, thread, id, name, parent, now),
            ),
            Step::Occur { thread, is_root, named, context, event } => self.after_event(
                thread,
                is_root,
                named,
                context,
                event,
            ),
        }
    }

    /// The state after the first `n` steps; none where a counter leaves its range.
    pub open spec fn after_steps(self, main_thread: u64, steps: Seq<Step>, n: nat) -> Option<
        StateView,
    >
        decreases n,
    {
        if n == 0 {
            Some(self)
        } else {
            match self.after_steps(main_thread, steps, (n - 1) as nat) {
                Some(state) => state.after_step(main_thread, steps[n - 1]),
                None => None,
            }
        }
    }
}

/// The numbers of the spans with the given parent that the first `n` steps leave, in
/// order.
pub open spec fn children_left(main_thread: u64, steps: Seq<Step>, n: nat, parent: u64) -> Seq<u64>
    decreases n,
{
    if n == 0 {
        seq![]
    } else {
        let before = children_left(main_thread, steps, (n - 1) as nat, parent);
        if steps[n - 1].leaves_child_of(main_thread, parent) {
            before.push(steps[n - 1]->Exit_id)
        } else {
            before
        }
    }
}

/// The names of the spans with the given parent that the first `n` steps leave, in order.
pub open spec fn child_names_left(
    main_thread: u64,
    steps: Seq<Step>,
    n: nat,
    parent: u64,
) -> Seq<Seq<char>>
    decreases n,
{
    if n == 0 {
        seq![]
    } else {
        let before = child_names_left(main_thread, steps, (n - 1) as nat, parent);
        if steps[n - 1].leaves_child_of(main_thread, parent) {
            before.push(steps[n - 1]->Exit_name)
        } else {
            before
        }
    }
}

/// The span is made once, at step `made`, and left once, later, at step `left`, in a way
/// that is captured.
pub open spec fn lives(main_thread: u64, steps: Seq<Step>, span: u64, made: int, left: int) -> bool {
    &&& 0 <= made < left < steps.len()
    &&& steps[made].makes(span)
    &&& steps[left].leaves(main_thread, span)
    &&& forall|i: int| 0 <= i < steps.len() && #[trigger] steps[i].makes(span) ==> i == made
    &&& forall|i: int|
        0 <= i < steps.len() && #[trigger] steps[i].leaves(main_thread, span) ==> i == left
}

/// The span is made once and later left once.
pub open spec fn lives_once(main_thread: u64, steps: Seq<Step>, span: u64) -> bool {
    exists|made: int, left: int| lives(main_thread, steps, span, made, left)
}

/// Captured spans hang below their open parent exactly in the order in which they were
/// left, each once and as one call, and none of them is left open; this holds whatever
/// else happens in between, except that a span without a parent is left on another thread,
/// since that span may join the same parent.
pub proof fn law_siblings_hang_below_their_parent_in_order(
    state: StateView,
    main_thread: u64,
    steps: Seq<Step>,
    parent: u64,
)
    requires
        state.unfinished.contains_key(parent),
        forall|i: int|
            0 <= i < steps.len() ==> !(#[trigger] steps[i]).makes(parent) && !steps[i].leaves(
                main_thread,
                parent,
            ),
        forall|i: int|
            0 <= i < steps.len() ==> !(#[trigger] steps[i]).leaves_root_elsewhere(main_thread),
        forall|i: int|
            0 <= i < steps.len() && (#[trigger] steps[i]).leaves_child_of(main_thread, parent)
                ==> lives_once(main_thread, steps, steps[i]->Exit_id),
        state.after_steps(main_thread, steps, steps.len()) is Some,
    ensures
        ({
            let after = state.after_steps(main_thread, steps, steps.len())->0;
            let before = state.unfinished[parent].children;
            let ids = children_left(main_thread, steps, steps.len(), parent);
            let names = child_names_left(main_thread, steps, steps.len(), parent);
            &&& after.unfinished.contains_key(parent)
            &&& ids.no_duplicates()
            &&& ids.len() == names.len()
            &&& after.unfinished[parent].children.len() == before.len() + ids.len()
            &&& after.unfinished[parent].children.take(before.len() as int) == before
            &&& forall|i: int|
                0 <= i < ids.len() ==> {
                    let child = #[trigger] after.unfinished[parent].children[before.len() + i];
                    child.name == names[i] && child.calls == 1
                }
            &&& forall|i: int|
                0 <= i < ids.len() ==> !after.unfinished.contains_key(#[trigger] ids[i])
        }),
{
    let n = steps.len();
    lemma_siblings(state, main_thread, steps, parent, n);
    let ids = children_left(main_thread, steps, n, parent);
    assert forall|i: int| 0 <= i < ids.len() implies !(state.after_steps(
        main_thread,
        steps,
        n,
    )->0).unfinished.contains_key(#[trigger] ids[i]) by {
        let k = lemma_children_left_at(main_thread, steps, n, parent, i);
        let (made, left) = choose|made: int, left: int| lives(main_thread, steps, ids[i], made, left);
        assert(steps[k].leaves(main_thread, ids[i]));
        lemma_life(state, main_thread, steps, ids[i], made, left, n);
    }
    assert forall|i: int, j: int| 0 <= i < j < ids.len() implies ids[i] != ids[j] by {
        lemma_children_left_distinct(main_thread, steps, n, parent, i, j);
    }
}

/// The first `n` steps hang the children that they leave below the parent, in order.
proof fn lemma_siblings(
    state: StateView,
    main_thread: u64,
    steps: Seq<Step>,
    parent: u64,
    n: nat,
)
    requires
        n <= steps.len(),
        state.unfinished.contains_key(parent),
        forall|i: int|
            0 <= i < steps.len() ==> !(#[trigger] steps[i]).makes(parent) && !steps[i].leaves(
                main_thread,
                parent,
            ),
        forall|i: int|
            0 <= i < steps.len() ==> !(#[trigger] steps[i]).leaves_root_elsewhere(main_thread),
        forall|i: int|
            0 <= i < steps.len() && (#[trigger] steps[i]).leaves_child_of(main_thread, parent)
                ==> lives_once(main_thread, steps, steps[i]->Exit_id),
        state.after_steps(main_thread, steps, n) is Some,
    ensures
        ({
            let after = state.after_steps(main_thread, steps, n)->0;
            let before = state.unfinished[parent].children;
            let names = child_names_left(main_thread, steps, n, parent);
            &&& after.unfinished.contains_key(parent)
            &&& children_left(main_thread, steps, n, parent).len() == names.len()
            &&& after.unfinished[parent].children.len() == before.len() + names.len()
            &&& after.unfinished[parent].children.take(before.len() as int) == before
            &&& forall|i: int|
                0 <= i < names.len() ==> {
                    let child = #[trigger] after.unfinished[parent].children[before.len() + i];
                    child.name == names[i] && child.calls == 1
                }
        }),
    decreases n,
{
    let before = state.unfinished[parent].children;
    if n == 0 {
        assert(before.take(before.len() as int) =~= before);
    } else {
        let m = (n - 1) as nat;
        let step = steps[n - 1];
        lemma_siblings(state, main_thread, steps, parent, m);
        let middle = state.after_steps(main_thread, steps, m)->0;
        let after = state.after_steps(main_thread, steps, n)->0;
        assert(!step.makes(parent) && !step.leaves(main_thread, parent));
        if step.leaves_child_of(main_thread, parent) {
            let id = step->Exit_id;
            let name = step->Exit_name;
            let now = step->Exit_now;
            assert(lives_once(main_thread, steps, id));
            let (made, left) = choose|made: int, left: int| lives(main_thread, steps, id, made, left);
            assert(step.leaves(main_thread, id));
            lemma_life(state, main_thread, steps, id, made, left, m);
            assert(after.unfinished[parent].children == middle.unfinished[parent].children.push(
                middle.finished(id, name, now),
            ));
            assert(after.unfinished[parent].children.take(before.len() as int)
                =~= middle.unfinished[parent].children.take(before.len() as int));
            let names = child_names_left(main_thread, steps, n, parent);
            assert forall|i: int| 0 <= i < names.len() implies {
                let child = #[trigger] after.unfinished[parent].children[before.len() + i];
                child.name == names[i] && child.calls == 1
            } by {
                if i < names.len() - 1 {
                    assert(after.unfinished[parent].children[before.len() + i]
                        == middle.unfinished[parent].children[before.len() + i]);
                }
            }
        } else {
            assert(after.unfinished.contains_key(parent));
            assert(after.unfinished[parent].children == middle.unfinished[parent].children);
        }
    }
}

/// A span that is made once and left once is open, as one call, in between and no longer
/// afterwards.
proof fn lemma_life(
    state: StateView,
    main_thread: u64,
    steps: Seq<Step>,
    span: u64,
    made: int,
    left: int,
    n: nat,
)
    requires
        lives(main_thread, steps, span, made, left),
        n <= steps.len(),
        forall|i: int|
            0 <= i < steps.len() ==> !(#[trigger] steps[i]).leaves_root_elsewhere(main_thread),
        state.after_steps(main_thread, steps, n) is Some,
    ensures
        ({
            let after = state.after_steps(main_thread, steps, n)->0;
            &&& made < n <= left ==> after.unfinished.contains_key(span)
                && after.unfinished[span].calls == 1
            &&& left < n ==> !after.unfinished.contains_key(span)
        }),
    decreases n,
{
    if n > 0 {
        let m = (n - 1) as nat;
        let step = steps[n - 1];
        lemma_life(state, main_thread, steps, span, made, left, m);
        assert(step.makes(span) ==> m == made);
        assert(step.leaves(main_thread, span) ==> m == left);
        assert(!step.leaves_root_elsewhere(main_thread));
    }
}

/// Every number in the list of children that were left comes from a step.
proof fn lemma_children_left_at(
    main_thread: u64,
    steps: Seq<Step>,
    n: nat,
    parent: u64,
    i: int,
) -> (k: int)
    requires
        n <= steps.len(),
        0 <= i < children_left(main_thread, steps, n, parent).len(),
    ensures
        0 <= k < n,
        steps[k].leaves_child_of(main_thread, parent),
        steps[k]->Exit_id == children_left(main_thread, steps, n, parent)[i],
        children_left(main_thread, steps, k as nat, parent).len() == i,
    decreases n,
{
    let m = (n - 1) as nat;
    if i < children_left(main_thread, steps, m, parent).len() {
        lemma_children_left_at(main_thread, steps, m, parent, i)
    } else {
        n - 1
    }
}

/// Spans that are left once are listed once.
proof fn lemma_children_left_distinct(
    main_thread: u64,
    steps: Seq<Step>,
    n: nat,
    parent: u64,
    i: int,
    j: int,
)
    requires
        n <= steps.len(),
        0 <= i < j < children_left(main_thread, steps, n, parent).len(),
        forall|i: int|
            0 <= i < steps.len() && (#[trigger] steps[i]).leaves_child_of(main_thread, parent)
                ==> lives_once(main_thread, steps, steps[i]->Exit_id),
    ensures
        children_left(main_thread, steps, n, parent)[i] != children_left(
            main_thread,
            steps,
            n,
            parent,
        )[j],
{
    let ids = children_left(main_thread, steps, n, parent);
    let k = lemma_children_left_at(main_thread, steps, n, parent, i);
    let l = lemma_children_left_at(main_thread, steps, n, parent, j);
    if ids[i] == ids[j] {
        let (made, left) = choose|made: int, left: int| lives(main_thread, steps, ids[i], made, left);
        assert(steps[k].leaves(main_thread, ids[i]));
        assert(steps[l].leaves(main_thread, ids[i]));
        assert(k == left && l == left);
    }
}

/// Capturing a span loses no count: each counter, summed over the span that it hangs below
/// and everything below that, grows by its sum over the span that was left. On another
/// thread that span may be the one that the main thread is in.
pub proof fn law_a_captured_span_hands_on_its_counts(
    state: StateView,
    main_thread: u64,
    thread: u64,
    id: u64,
    name: Seq<char>,
    parent: Parent,
    now: u128,
)
    requires
        state.unfinished.contains_key(id),
        state.captures_exit(main_thread, thread, id, parent),
        state.takes_in(id, state.parent_at_exit(main_thread, thread, parent)),
    ensures
        ({
            let below = state.parent_at_exit(main_thread, thread, parent)->0;
            let after = state.after_exit(main_thread, thread, id, name, parent, now);
            &&& after.unfinished.contains_key(below)
            &&& forall|key: Seq<char>| #[trigger]
                subtree_total(after.unfinished[below], key) == subtree_total(
                    state.unfinished[below],
                    key,
                ) + subtree_total(state.unfinished[id], key)
        }),
{
    let below = state.parent_at_exit(main_thread, thread, parent)->0;
    let after = state.after_exit(main_thread, thread, id, name, parent, now);
    let node = state.finished(id, name, now);
    let old_parent = state.unfinished[below];
    let new_parent = after.unfinished[below];
    assert(new_parent.children == old_parent.children.push(node));
    assert forall|key: Seq<char>| #[trigger]
        subtree_total(new_parent, key) == subtree_total(old_parent, key) + subtree_total(
            state.unfinished[id],
            key,
        ) by {
        lemma_children_total_like(new_parent, old_parent, old_parent.children.len(), key);
        lemma_children_total_like(node, state.unfinished[id], node.children.len(), key);
        assert(children_total(new_parent, new_parent.children.len(), key) == children_total(
            new_parent,
            old_parent.children.len(),
            key,
        ) + subtree_total(node, key));
    }
}

/// Nodes that begin with the same children have the same sums over them.
proof fn lemma_children_total_like(a: SpanView, b: SpanView, n: nat, key: Seq<char>)
    requires
        n <= a.children.len(),
        n <= b.children.len(),
        forall|i: int| 0 <= i < n ==> #[trigger] a.children[i] == b.children[i],
    ensures
        children_total(a, n, key) == children_total(b, n, key),
    decreases n,
{
    if n > 0 {
        lemma_children_total_like(a, b, (n - 1) as nat, key);
        assert(a.children[n - 1] == b.children[n - 1]);
    }
}

} // verus!
