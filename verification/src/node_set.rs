//! The hash set that holds node indices.

use vstd::prelude::*;

verus! {

/// `HashSet` of `bevy::platform::collections`. Nothing inside it is seen
/// here: what it holds is spoken of through `set_members`.
#[verifier::external_type_specification]
#[verifier::external_body]
#[verifier::reject_recursive_types(T)]
#[verifier::reject_recursive_types(S)]
pub struct ExHashSet<T, S>(bevy::platform::collections::HashSet<T, S>);

/// `FixedHasher` of `bevy::platform::hash`, the hasher that the sets and
/// maps of `bevy::platform::collections` use unless told otherwise.
#[verifier::external_type_specification]
#[verifier::external_body]
pub struct ExFixedHasher(bevy::platform::hash::FixedHasher);

/// The indices that a set of node indices holds.
pub uninterp spec fn set_members(s: bevy::platform::collections::HashSet<usize>) -> Set<usize>;

/// `HashSet::new` of `bevy::platform::collections`: the set that it returns
/// holds nothing.
#[verifier::external_body]
pub(crate) fn node_set_new() -> (s: bevy::platform::collections::HashSet<usize>)
    ensures
        set_members(s) == Set::<usize>::empty(),
{
    bevy::platform::collections::HashSet::new()
}

/// `HashSet::insert` of `bevy::platform::collections`: afterwards the set
/// holds what it held before and `value`; the result says whether `value`
/// was new to it.
#[verifier::external_body]
pub(crate) fn node_set_insert(
    s: &mut bevy::platform::collections::HashSet<usize>,
    value: usize,
) -> (fresh: bool)
    ensures
        set_members(*final(s)) == set_members(*old(s)).insert(value),
        fresh == !set_members(*old(s)).contains(value),
{
    s.insert(value)
}

/// `HashSet::iter` of `bevy::platform::collections`, collected: the vector
/// holds each index of the set once, in an order that is not determined.
#[verifier::external_body]
pub(crate) fn node_set_items(s: &bevy::platform::collections::HashSet<usize>) -> (items: Vec<usize>)
    ensures
        items@.no_duplicates(),
        items@.to_set() == set_members(*s),
{
    s.iter().copied().collect()
}

} // verus!
