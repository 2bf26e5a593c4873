//! Sequences of key-value pairs, read as maps that remember the order in which
//! their keys arrived.

use vstd::prelude::*;

verus! {

/// The index of the first pair whose key is `key`.
pub open spec fn position<V>(pairs: Seq<(Seq<char>, V)>, key: Seq<char>) -> Option<int>
    decreases pairs.len(),
{
    if pairs.len() == 0 {
        None
    } else {
        match position(pairs.drop_last(), key) {
            Some(i) => Some(i),
            None => if pairs.last().0 == key {
                Some(pairs.len() - 1)
            } else {
                None
            },
        }
    }
}

/// The value that belongs to `key`.
pub open spec fn lookup<V>(pairs: Seq<(Seq<char>, V)>, key: Seq<char>) -> Option<V> {
    match position(pairs, key) {
        Some(i) => Some(pairs[i].1),
        None => None,
    }
}

/// The pairs once `key` belongs to `value`: a key that is already there keeps its
/// place, a new one goes to the end.
pub open spec fn put<V>(pairs: Seq<(Seq<char>, V)>, key: Seq<char>, value: V) -> Seq<
    (Seq<char>, V),
> {
    match position(pairs, key) {
        Some(i) => pairs.update(i, (key, value)),
        None => pairs.push((key, value)),
    }
}

/// The pairs of `more`, put into `pairs` one after the other.
pub open spec fn put_all<V>(pairs: Seq<(Seq<char>, V)>, more: Seq<(Seq<char>, V)>) -> Seq<
    (Seq<char>, V),
>
    decreases more.len(),
{
    if more.len() == 0 {
        pairs
    } else {
        put(put_all(pairs, more.drop_last()), more.last().0, more.last().1)
    }
}

/// No key occurs twice.
pub open spec fn distinct<V>(pairs: Seq<(Seq<char>, V)>) -> bool {
    forall|i: int, j: int| 0 <= i < j < pairs.len() ==> #[trigger] pairs[i].0 != #[trigger] pairs[j].0
}

/// `position` finds a pair with the key, the first one, whenever there is one.
pub proof fn lemma_position<V>(pairs: Seq<(Seq<char>, V)>, key: Seq<char>)
    ensures
        match position(pairs, key) {
            Some(i) => 0 <= i < pairs.len() && pairs[i].0 == key && forall|j: int|
                0 <= j < i ==> #[trigger] pairs[j].0 != key,
            None => forall|j: int| 0 <= j < pairs.len() ==> #[trigger] pairs[j].0 != key,
        },
    decreases pairs.len(),
{
    if pairs.len() > 0 {
        let init = pairs.drop_last();
        lemma_position(init, key);
        assert(forall|j: int| 0 <= j < init.len() ==> init[j] == pairs[j]);
    }
}

/// An index with the key and none before it is where `position` points.
pub proof fn lemma_position_is<V>(pairs: Seq<(Seq<char>, V)>, key: Seq<char>, i: int)
    requires
        0 <= i < pairs.len(),
        pairs[i].0 == key,
        forall|j: int| 0 <= j < i ==> #[trigger] pairs[j].0 != key,
    ensures
        position(pairs, key) == Some(i),
{
    lemma_position(pairs, key);
}

/// Putting a value keeps the keys distinct, gives `key` that value and leaves every
/// other key as it was.
pub proof fn lemma_put<V>(pairs: Seq<(Seq<char>, V)>, key: Seq<char>, value: V)
    ensures
        distinct(pairs) ==> distinct(put(pairs, key, value)),
        lookup(put(pairs, key, value), key) == Some(value),
        forall|other: Seq<char>|
            other != key ==> #[trigger] lookup(put(pairs, key, value), other) == lookup(
                pairs,
                other,
            ),
{
    let after = put(pairs, key, value);
    lemma_position(pairs, key);
    let at = match position(pairs, key) {
        Some(i) => i,
        None => pairs.len() as int,
    };
    assert(forall|j: int| 0 <= j < pairs.len() ==> #[trigger] after[j].0 == pairs[j].0);
    lemma_position_is(after, key, at);
    assert forall|other: Seq<char>| other != key implies #[trigger] lookup(after, other) == lookup(
        pairs,
        other,
    ) by {
        lemma_position(pairs, other);
        lemma_position(after, other);
        match position(pairs, other) {
            Some(i) => {
                assert(after[i] == pairs[i]);
                lemma_position_is(after, other, i);
            },
            None => {},
        }
    }
}

} // verus!
