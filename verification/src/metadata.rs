//! The fields recorded on a span: a [`LinearMap`] from field names to texts.

use linear_map::LinearMap;
use vstd::prelude::*;

use crate::assoc::{lookup, put, put_all};
use crate::text::text_pairs;

verus! {

/// The map of the `linear-map` crate, which is a vector of pairs.
#[verifier::external_type_specification]
#[verifier::external_body]
#[verifier::reject_recursive_types(K)]
#[verifier::reject_recursive_types(V)]
pub struct ExLinearMap<K, V>(linear_map::LinearMap<K, V>);

/// The pairs that a map holds, in the order in which it walks them.
pub uninterp spec fn metadata_pairs(metadata: LinearMap<String, String>) -> Seq<
    (Seq<char>, Seq<char>),
>;

/// Calls `LinearMap::new`, which makes a map without pairs.
#[verifier::external_body]
pub(crate) fn new_metadata() -> (metadata: LinearMap<String, String>)
    ensures
        metadata_pairs(metadata) == Seq::<(Seq<char>, Seq<char>)>::empty(),
{
    LinearMap::new()
}

/// Calls `LinearMap::insert`. The value of a key that is there is replaced in place and
/// handed back; a new key goes behind all others.
#[verifier::external_body]
fn insert_metadata(
    metadata: &mut LinearMap<String, String>,
    key: String,
    value: String,
) -> (replaced: Option<String>)
    ensures
        metadata_pairs(*final(metadata)) == put(metadata_pairs(*old(metadata)), key@, value@),
        match replaced {
            Some(text) => lookup(metadata_pairs(*old(metadata)), key@) == Some(text@),
            None => lookup(metadata_pairs(*old(metadata)), key@) is None,
        },
{
    metadata.insert(key, value)
}

/// Calls `LinearMap::is_empty`, which tells whether there is no pair.
#[verifier::external_body]
pub(crate) fn is_empty_metadata(metadata: &LinearMap<String, String>) -> (empty: bool)
    ensures
        empty == (metadata_pairs(*metadata).len() == 0),
{
    metadata.is_empty()
}

/// Calls `LinearMap::iter`, which walks the pairs from first to last, and copies each.
#[verifier::external_body]
pub(crate) fn metadata_entries(metadata: &LinearMap<String, String>) -> (entries: Vec<
    (String, String),
>)
    ensures
        text_pairs(entries@) == metadata_pairs(*metadata),
{
    metadata.iter().map(|(key, value)| (key.clone(), value.clone())).collect()
}

/// Calls `LinearMap::clone`, which copies the pairs in order.
#[verifier::external_body]
pub(crate) fn clone_metadata(metadata: &LinearMap<String, String>) -> (copy: LinearMap<
    String,
    String,
>)
    ensures
        metadata_pairs(copy) == metadata_pairs(*metadata),
{
    metadata.clone()
}

/// Stores a field, in place of an earlier one of the same name.
pub(crate) fn store_field(metadata: &mut LinearMap<String, String>, key: &str, value: &str)
    ensures
        metadata_pairs(*final(metadata)) == put(metadata_pairs(*old(metadata)), key@, value@),
{
    let _ = insert_metadata(metadata, key.to_owned(), value.to_owned());
}

/// Stores fields one after the other.
pub(crate) fn store_fields(
    metadata: &mut LinearMap<String, String>,
    fields: &Vec<(String, String)>,
)
    ensures
        metadata_pairs(*final(metadata)) == put_all(
            metadata_pairs(*old(metadata)),
            text_pairs(fields@),
        ),
{
    let ghost before = metadata_pairs(*metadata);
    let ghost pairs = text_pairs(fields@);
    let mut i: usize = 0;
    assert(pairs.take(0) =~= Seq::empty());
    while i < fields.len()
        invariant
            i <= fields@.len(),
            pairs == text_pairs(fields@),
            metadata_pairs(*metadata) == put_all(before, pairs.take(i as int)),
        decreases fields.len() - i,
    {
        store_field(metadata, fields[i].0.as_str(), fields[i].1.as_str());
        assert(pairs.take(i + 1).drop_last() =~= pairs.take(i as int));
        assert(pairs.take(i + 1).last() == pairs[i as int]);
        i += 1;
    }
    assert(pairs.take(i as int) =~= pairs);
}

} // verus!
