//! The pending patches of one scan pass: `(position, resolved offset)`
//! pairs gathered while a run is decoded, kept by `smallvec`'s `SmallVec`
//! and seen by the proofs only through the sequence it holds.

use vstd::prelude::*;
use smallvec::SmallVec;

verus! {

/// The pending patches of one scan pass: holds a `smallvec::SmallVec` of
/// pairs; its contents are reached only through `pending_of`.
#[verifier::external_body]
pub struct Pending {
    inner: SmallVec<[(usize, u32); 16]>,
}

/// The elements a pending-patch vector holds, in order.
pub uninterp spec fn pending_of(v: Pending) -> Seq<(usize, u32)>;

/// Relies on `SmallVec::new`: a new small vector holds nothing.
#[verifier::external_body]
pub(crate) fn pending_new() -> (r: Pending)
    ensures
        pending_of(r) == Seq::<(usize, u32)>::empty(),
{
    Pending { inner: SmallVec::new() }
}

/// Relies on `SmallVec::push`: appends one element at the back.
#[verifier::external_body]
pub(crate) fn pending_push(v: &mut Pending, e: (usize, u32))
    ensures
        pending_of(*final(v)) == pending_of(*old(v)).push(e),
{
    v.inner.push(e);
}

/// Relies on `SmallVec::into_vec`: hands the elements out, in order.
#[verifier::external_body]
pub(crate) fn pending_into_vec(v: Pending) -> (r: Vec<(usize, u32)>)
    ensures
        r@ == pending_of(v),
{
    v.inner.into_vec()
}

} // verus!
