//! One grid cell's worth of particle ids, kept in a `smallvec::SmallVec`.
//!
//! Everything in this file is trusted: the contracts restate what the
//! `smallvec` source does and are not proved.

use smallvec::SmallVec;
use vstd::prelude::*;

verus! {

/// Ids that a bucket holds in place before it moves them to the heap.
pub const INLINE_IDS: usize = 16;

/// A bucket of particle ids. The ids live in a `SmallVec` with room for
/// sixteen of them before it moves to the heap.
#[verifier::external_body]
pub struct Bucket {
    ids: SmallVec<[usize; 16]>,
}

/// The ids that a bucket holds, first pushed first.
pub uninterp spec fn bucket_ids(b: Bucket) -> Seq<usize>;

/// `SmallVec::new`: a bucket that holds nothing.
#[verifier::external_body]
pub(crate) fn bucket_new() -> (b: Bucket)
    ensures
        bucket_ids(b) == Seq::<usize>::empty(),
{
    Bucket { ids: SmallVec::new() }
}

/// `SmallVec::push`: the id is appended behind the ids already held.
#[verifier::external_body]
pub(crate) fn bucket_push(b: &mut Bucket, id: usize)
    ensures
        bucket_ids(*final(b)) == bucket_ids(*old(b)).push(id),
{
    b.ids.push(id)
}

/// `SmallVec::remove`: takes out the id at `index` and returns it; the ids
/// behind it move one place forward. The outside function panics on an index
/// past the end, which `requires` leaves out.
#[verifier::external_body]
pub(crate) fn bucket_remove(b: &mut Bucket, index: usize) -> (id: usize)
    requires
        index < bucket_ids(*old(b)).len(),
    ensures
        id == bucket_ids(*old(b))[index as int],
        bucket_ids(*final(b)) == bucket_ids(*old(b)).remove(index as int),
{
    b.ids.remove(index)
}

/// `SmallVec::as_slice`: the ids held, in order, as a slice.
#[verifier::external_body]
pub(crate) fn bucket_as_slice(b: &Bucket) -> (s: &[usize])
    ensures
        s@ == bucket_ids(*b),
{
    b.ids.as_slice()
}

/// `SmallVec::spilled`: whether the ids have moved to the heap. A bucket
/// that holds more ids than fit in place has spilled; one that holds fewer
/// may have spilled earlier and stays so.
#[verifier::external_body]
pub(crate) fn bucket_spilled(b: &Bucket) -> (spilled: bool)
    ensures
        bucket_ids(*b).len() > INLINE_IDS ==> spilled,
{
    b.ids.spilled()
}

} // verus!
