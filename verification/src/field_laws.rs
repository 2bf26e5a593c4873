//! What is found of the fields that were recorded on a span.

use vstd::prelude::*;

use crate::assoc::{distinct, lookup, put, put_all};
use crate::assoc::{lemma_position, lemma_position_is, lemma_put};
use crate::node::SpanView;
use crate::state::StateView;

verus! {

/// A list of fields: names and texts.
pub type Fields = Seq<(Seq<char>, Seq<char>)>;

/// No pair of the list has the key.
pub open spec fn lacks<V>(pairs: Seq<(Seq<char>, V)>, key: Seq<char>) -> bool {
    forall|i: int| 0 <= i < pairs.len() ==> (#[trigger] pairs[i]).0 != key
}

/// The pair at the index has the key, and none before it does.
pub open spec fn first_with<V>(pairs: Seq<(Seq<char>, V)>, key: Seq<char>, at: int) -> bool {
    &&& 0 <= at < pairs.len()
    &&& pairs[at].0 == key
    &&& forall|i: int| 0 <= i < at ==> (#[trigger] pairs[i]).0 != key
}

/// The pair at the index has the key, and none behind it does.
pub open spec fn last_with<V>(pairs: Seq<(Seq<char>, V)>, key: Seq<char>, at: int) -> bool {
    &&& 0 <= at < pairs.len()
    &&& pairs[at].0 == key
    &&& forall|i: int| at < i < pairs.len() ==> (#[trigger] pairs[i]).0 != key
}

/// What belongs to a key is the value of the first pair that has the key, and nothing where
/// no pair has it.
pub proof fn law_lookup_finds_the_first<V>(pairs: Seq<(Seq<char>, V)>, key: Seq<char>)
    ensures
        forall|at: int| #[trigger]
            first_with(pairs, key, at) ==> lookup(pairs, key) == Some(pairs[at].1),
        lacks(pairs, key) ==> lookup(pairs, key) is None,
        lookup(pairs, key) is None ==> lacks(pairs, key),
{
    lemma_position(pairs, key);
    assert forall|at: int| #[trigger] first_with(pairs, key, at) implies lookup(pairs, key) == Some(
        pairs[at].1,
    ) by {
        lemma_position_is(pairs, key, at);
    }
}

/// A value that is stored takes the place of the first pair with its key, and goes behind
/// all others where no pair has the key.
pub proof fn law_storing_replaces_or_appends<V>(
    pairs: Seq<(Seq<char>, V)>,
    key: Seq<char>,
    value: V,
)
    ensures
        forall|at: int| #[trigger]
            first_with(pairs, key, at) ==> put(pairs, key, value) == pairs.update(at, (key, value)),
        lacks(pairs, key) ==> put(pairs, key, value) == pairs.push((key, value)),
{
    lemma_position(pairs, key);
    assert forall|at: int| #[trigger] first_with(pairs, key, at) implies put(pairs, key, value)
        == pairs.update(at, (key, value)) by {
        lemma_position_is(pairs, key, at);
    }
}

/// Storing one list and then another is storing the two as one list, and storing nothing
/// changes nothing.
pub proof fn law_storing_lists_one_after_the_other<V>(
    pairs: Seq<(Seq<char>, V)>,
    first: Seq<(Seq<char>, V)>,
    second: Seq<(Seq<char>, V)>,
)
    ensures
        put_all(pairs, Seq::empty()) == pairs,
        put_all(pairs, first + second) == put_all(put_all(pairs, first), second),
    decreases second.len(),
{
    if second.len() == 0 {
        assert(first + second =~= first);
    } else {
        law_storing_lists_one_after_the_other(pairs, first, second.drop_last());
        assert((first + second).drop_last() =~= first + second.drop_last());
        assert((first + second).last() == second.last());
    }
}

/// Once a list of pairs has been stored, each of its keys has the last value that the list
/// gives it, every other key has what it had, and the keys that were there keep their
/// places.
pub proof fn law_the_last_value_stays<V>(pairs: Seq<(Seq<char>, V)>, more: Seq<(Seq<char>, V)>)
    ensures
        forall|key: Seq<char>, at: int| #[trigger]
            last_with(more, key, at) ==> lookup(put_all(pairs, more), key) == Some(more[at].1),
        forall|key: Seq<char>| #[trigger]
            lacks(more, key) ==> lookup(put_all(pairs, more), key) == lookup(pairs, key),
        pairs.len() <= put_all(pairs, more).len(),
        forall|i: int|
            0 <= i < pairs.len() ==> (#[trigger] put_all(pairs, more)[i]).0 == pairs[i].0,
        distinct(pairs) ==> distinct(put_all(pairs, more)),
    decreases more.len(),
{
    let after = put_all(pairs, more);
    if more.len() > 0 {
        let init = more.drop_last();
        let last = more.last();
        let before = put_all(pairs, init);
        law_the_last_value_stays(pairs, init);
        lemma_put(before, last.0, last.1);
        lemma_position(before, last.0);
        assert(forall|i: int| 0 <= i < init.len() ==> init[i] == more[i]);
        assert(more[more.len() - 1] == last);
        assert forall|key: Seq<char>, at: int| #[trigger] last_with(more, key, at) implies lookup(
            after,
            key,
        ) == Some(more[at].1) by {
            if at < more.len() - 1 {
                assert(last_with(init, key, at));
            }
        }
        assert forall|key: Seq<char>| #[trigger] lacks(more, key) implies lookup(after, key)
            == lookup(pairs, key) by {
            assert(lacks(init, key));
        }
    }
}

/// After fields have been recorded on an open span, whether it has been entered or not, each
/// of their names has the last text recorded for it, every other name has what it had, and
/// names that were there keep their places. Nothing else of the span changes, and nothing
/// else of the state.
pub proof fn law_recorded_fields_are_found(state: StateView, id: u64, fields: Fields)
    requires
        state.unfinished.contains_key(id),
    ensures
        ({
            let after = state.after_record(id, fields);
            let old_node = state.unfinished[id];
            let node = after.unfinished[id];
            &&& forall|name: Seq<char>, at: int| #[trigger]
                last_with(fields, name, at) ==> lookup(node.metadata, name) == Some(fields[at].1)
            &&& forall|name: Seq<char>| #[trigger]
                lacks(fields, name) ==> lookup(node.metadata, name) == lookup(
                    old_node.metadata,
                    name,
                )
            &&& old_node.metadata.len() <= node.metadata.len()
            &&& forall|i: int|
                0 <= i < old_node.metadata.len() ==> (#[trigger] node.metadata[i]).0
                    == old_node.metadata[i].0
            &&& distinct(old_node.metadata) ==> distinct(node.metadata)
            &&& node.name == old_node.name
            &&& node.started == old_node.started
            &&& node.duration == old_node.duration
            &&& node.events == old_node.events
            &&& node.children == old_node.children
            &&& node.calls == old_node.calls
            &&& after.current == state.current
            &&& after.zero_level == state.zero_level
            &&& after.unfinished.dom() == state.unfinished.dom()
            &&& forall|other: u64|
                other != id && #[trigger] state.unfinished.contains_key(other)
                    ==> after.unfinished[other] == state.unfinished[other]
        }),
{
    let old_node = state.unfinished[id];
    law_the_last_value_stays(old_node.metadata, fields);
    assert(state.after_record(id, fields).unfinished.dom() =~= state.unfinished.dom());
}

/// Recording fields on a span that is not open changes nothing.
pub proof fn law_closed_spans_take_no_fields(state: StateView, id: u64, fields: Fields)
    requires
        !state.unfinished.contains_key(id),
    ensures
        state.after_record(id, fields) == state,
{
}

/// Recording no field changes nothing; recording one more field has the effect of recording
/// it afterwards.
pub proof fn law_fields_are_recorded_one_by_one(
    state: StateView,
    id: u64,
    fields: Fields,
    field: (Seq<char>, Seq<char>),
)
    ensures
        state.after_record(id, Seq::empty()) == state,
        state.after_record(id, fields.push(field)) == state.after_record(id, fields).after_record(
            id,
            seq![field],
        ),
{
    if state.unfinished.contains_key(id) {
        let node = state.unfinished[id];
        let none: Fields = Seq::empty();
        assert(fields.push(field).drop_last() =~= fields);
        assert(seq![field].drop_last() =~= none);
        let before = put_all(node.metadata, fields);
        assert(put_all(before, seq![field]) == put(put_all(before, none), field.0, field.1));
        assert(put_all(node.metadata, fields.push(field)) == put_all(before, seq![field]));
        assert(state.after_record(id, Seq::empty()) =~= state);
        assert(state.after_record(id, fields.push(field)) =~= state.after_record(
            id,
            fields,
        ).after_record(id, seq![field]));
    }
}

/// A field that is recorded on an open span takes the place of the field of its name, and
/// goes behind all others where there is none.
pub proof fn law_a_recorded_field_replaces_or_is_appended(
    state: StateView,
    id: u64,
    field: (Seq<char>, Seq<char>),
)
    requires
        state.unfinished.contains_key(id),
    ensures
        ({
            let before = state.unfinished[id].metadata;
            let after = state.after_record(id, seq![field]).unfinished[id].metadata;
            &&& forall|at: int| #[trigger]
                first_with(before, field.0, at) ==> after == before.update(at, field)
            &&& lacks(before, field.0) ==> after == before.push(field)
        }),
{
    let before = state.unfinished[id].metadata;
    let none: Fields = Seq::empty();
    assert(seq![field].drop_last() =~= none);
    assert(put_all(before, seq![field]) == put(put_all(before, none), field.0, field.1));
    law_storing_replaces_or_appends(before, field.0, field.1);
}

/// A span that was made has one call and its fields, and no name, time, event or child. What
/// its number stood for before is gone, and nothing else changes.
pub proof fn law_a_new_span_has_one_call_and_its_fields(state: StateView, id: u64, fields: Fields)
    ensures
        ({
            let after = state.after_new_span(id, fields);
            let node = SpanView {
                name: Seq::empty(),
                started: None,
                duration: 0,
                metadata: Seq::empty(),
                events: Seq::empty(),
                children: Seq::empty(),
                calls: 1,
            };
            let bare = StateView {
                current: state.current,
                unfinished: state.unfinished.insert(id, node),
                zero_level: state.zero_level,
            };
            &&& after == bare.after_record(id, fields)
            &&& state.after_new_span(id, Seq::empty()) == bare
        }),
{
    let node = SpanView {
        name: Seq::empty(),
        started: None,
        duration: 0,
        metadata: Seq::empty(),
        events: Seq::empty(),
        children: Seq::empty(),
        calls: 1,
    };
    let bare = StateView {
        current: state.current,
        unfinished: state.unfinished.insert(id, node),
        zero_level: state.zero_level,
    };
    assert(bare.unfinished.contains_key(id));
    assert(state.after_new_span(id, fields) =~= bare.after_record(id, fields));
    assert(state.after_new_span(id, Seq::empty()) =~= bare);
}

} // verus!
