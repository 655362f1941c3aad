//! The visited set of the reachability traversal: a compact union of
//! disjoint inclusive offset ranges, kept by `range_set`'s `RangeSet` and
//! seen by the proofs only through the set of offsets it holds.

use vstd::prelude::*;
use std::ops::RangeInclusive;
use range_set::RangeSet;

verus! {

/// A visited set: holds a `range_set::RangeSet` of byte offsets; its
/// contents are reached only through `visited_of`.
#[verifier::external_body]
pub struct Visited {
    inner: RangeSet<[RangeInclusive<usize>; 16]>,
}

/// The offsets a visited set holds.
pub uninterp spec fn visited_of(s: Visited) -> Set<int>;

/// Relies on `RangeSet::new`: a new range set holds nothing.
#[verifier::external_body]
pub(crate) fn visited_new() -> (r: Visited)
    ensures
        visited_of(r) == Set::<int>::empty(),
{
    Visited { inner: RangeSet::new() }
}

/// Relies on `RangeSet::insert`: inserting one element adds exactly that
/// element to the set.
#[verifier::external_body]
pub(crate) fn visited_insert(s: &mut Visited, v: usize)
    ensures
        visited_of(*final(s)) == visited_of(*old(s)).insert(v as int),
{
    s.inner.insert(v);
}

/// Relies on `RangeSet::contains`: whether the set holds one element.
#[verifier::external_body]
pub(crate) fn visited_contains(s: &Visited, v: usize) -> (r: bool)
    ensures
        r == visited_of(*s).contains(v as int),
{
    s.inner.contains(v)
}

} // verus!
