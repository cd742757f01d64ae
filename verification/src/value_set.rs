//! Sets of 32-bit values that `fnv` hashes.
//!
//! Verus specifies `HashSet` for hash builders that it knows to build like hashers. The
//! builder of `fnv` starts every hasher from the same constant, so for sets of `u32` the
//! functions here state outright what the set does.

use vstd::prelude::*;

verus! {

/// The hasher of `fnv`.
#[verifier::external_type_specification]
#[verifier::external_body]
pub struct ExFnvHasher(fnv::FnvHasher);

/// The builder that starts each `fnv` hasher in its default state.
#[verifier::external_type_specification]
#[verifier::external_body]
#[verifier::reject_recursive_types(H)]
pub struct ExBuildHasherDefault<H>(std::hash::BuildHasherDefault<H>);

/// `HashSet::insert` on a set of `u32` that `fnv` hashes: adds the value and tells whether
/// it was new.
#[verifier::external_body]
pub(crate) fn insert(set: &mut fnv::FnvHashSet<u32>, value: u32) -> (r: bool)
    ensures
        final(set)@ == old(set)@.insert(value),
        r == !old(set)@.contains(value),
{
    set.insert(value)
}

/// `HashSet::contains` on a set of `u32` that `fnv` hashes: tells whether the value is in it.
#[verifier::external_body]
pub(crate) fn contains(set: &fnv::FnvHashSet<u32>, value: u32) -> (r: bool)
    ensures
        r == set@.contains(value),
{
    set.contains(&value)
}

/// `HashSet::len` on a set of `u32` that `fnv` hashes: the number of its values.
#[verifier::external_body]
pub(crate) fn len(set: &fnv::FnvHashSet<u32>) -> (r: usize)
    ensures
        r == set@.len(),
{
    set.len()
}

/// `HashSet::intersection` on sets of `u32` that `fnv` hashes: the values that are in both.
#[verifier::external_body]
pub(crate) fn intersection(
    a: &fnv::FnvHashSet<u32>,
    b: &fnv::FnvHashSet<u32>,
) -> (r: fnv::FnvHashSet<u32>)
    ensures
        r@ == a@.intersect(b@),
{
    a.intersection(b).cloned().collect()
}

/// `HashSet::iter` on a set of `u32` that `fnv` hashes: each value once, in an order that is
/// left open.
#[verifier::external_body]
pub(crate) fn values(set: &fnv::FnvHashSet<u32>) -> (r: Vec<u32>)
    ensures
        r@.to_set() == set@,
        r@.no_duplicates(),
{
    set.iter().cloned().collect()
}

} // verus!
