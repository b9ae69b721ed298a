//! The hash map from a node's index to the bodies registered at that node.

use vstd::prelude::*;

verus! {

/// `HashMap` of `bevy::platform::collections`. Nothing inside it is seen
/// here: what it holds is spoken of through `bucket_map`.
#[verifier::external_type_specification]
#[verifier::external_body]
#[verifier::reject_recursive_types(K)]
#[verifier::reject_recursive_types(V)]
#[verifier::reject_recursive_types(S)]
pub struct ExHashMap<K, V, S>(bevy::platform::collections::HashMap<K, V, S>);

/// The map from a node's index to the bucket of that node.
pub type SpatialIndex = bevy::platform::collections::HashMap<usize, Vec<usize>>;

/// What a spatial index holds: for each node index that has a bucket, the
/// bodies of the bucket in the order in which they were registered.
pub uninterp spec fn bucket_map(m: SpatialIndex) -> Map<usize, Seq<usize>>;

/// `HashMap::new` of `bevy::platform::collections`: the map that it returns
/// holds no bucket.
#[verifier::external_body]
pub(crate) fn index_new() -> (m: SpatialIndex)
    ensures
        bucket_map(m).dom() == Set::<usize>::empty(),
{
    bevy::platform::collections::HashMap::new()
}

/// `HashMap::get` of `bevy::platform::collections`: the bucket stored under
/// `node`, if there is one.
#[verifier::external_body]
pub(crate) fn index_get(
    m: &SpatialIndex,
    node: usize,
) -> (bucket: Option<&Vec<usize>>)
    ensures
        bucket is Some == bucket_map(*m).contains_key(node),
        bucket is Some ==> bucket.unwrap()@ == bucket_map(*m)[node],
{
    m.get(&node)
}

/// `HashMap::remove` of `bevy::platform::collections`: takes the bucket
/// stored under `node` out of the map and returns it, if there is one; the
/// other buckets stay.
#[verifier::external_body]
pub(crate) fn index_remove(
    m: &mut SpatialIndex,
    node: usize,
) -> (bucket: Option<Vec<usize>>)
    ensures
        bucket_map(*final(m)) == bucket_map(*old(m)).remove(node),
        bucket is Some == bucket_map(*old(m)).contains_key(node),
        bucket is Some ==> bucket.unwrap()@ == bucket_map(*old(m))[node],
{
    m.remove(&node)
}

/// `HashMap::insert` of `bevy::platform::collections`: stores `bucket` under
/// `node` and returns the bucket that stood there before, if there was one;
/// the other buckets stay.
#[verifier::external_body]
pub(crate) fn index_insert(
    m: &mut SpatialIndex,
    node: usize,
    bucket: Vec<usize>,
) -> (previous: Option<Vec<usize>>)
    ensures
        bucket_map(*final(m)) == bucket_map(*old(m)).insert(node, bucket@),
        previous is Some == bucket_map(*old(m)).contains_key(node),
        previous is Some ==> previous.unwrap()@ == bucket_map(*old(m))[node],
{
    m.insert(node, bucket)
}

} // verus!
