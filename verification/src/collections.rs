//! The hash collections of the `ahash` crate, declared to Verus as opaque
//! types. What each instance holds is named by the module that uses it.
use vstd::prelude::*;
use ahash::{AHashMap, AHashSet};

verus! {

#[verifier::external_type_specification]
#[verifier::external_body]
#[verifier::reject_recursive_types(K)]
#[verifier::reject_recursive_types(V)]
#[verifier::reject_recursive_types(S)]
pub struct ExAHashMap<K, V, S>(AHashMap<K, V, S>);

#[verifier::external_type_specification]
#[verifier::external_body]
#[verifier::reject_recursive_types(T)]
#[verifier::reject_recursive_types(S)]
pub struct ExAHashSet<T, S>(AHashSet<T, S>);

#[verifier::external_type_specification]
#[verifier::external_body]
pub struct ExRandomState(ahash::RandomState);

/// What a set of integers holds.
pub uninterp spec fn index_set_contents(s: AHashSet<usize>) -> Set<usize>;

/// `AHashSet::new`. Claims: the new set is empty.
#[verifier::external_body]
pub(crate) fn index_set_new() -> (s: AHashSet<usize>)
    ensures
        index_set_contents(s) == Set::<usize>::empty(),
{
    AHashSet::new()
}

/// `HashSet::insert` on an `AHashSet`. Claims: `x` is added to the contents.
#[verifier::external_body]
pub(crate) fn index_set_insert(s: &mut AHashSet<usize>, x: usize)
    ensures
        index_set_contents(*final(s)) == index_set_contents(*old(s)).insert(x),
{
    s.insert(x);
}

/// The elements of the set, copied out in the order `HashSet::iter` walks
/// them. Claims: each element comes out once and the list holds exactly the
/// contents; the order is left unsaid, as the hasher is seeded per process.
#[verifier::external_body]
pub(crate) fn index_set_elements(s: &AHashSet<usize>) -> (v: Vec<usize>)
    ensures
        v@.no_duplicates(),
        v@.to_set() == index_set_contents(*s),
{
    s.iter().copied().collect()
}

} // verus!
