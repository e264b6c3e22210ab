//! Vectors with a fixed capacity, from the `arrayvec` crate.
use vstd::prelude::*;
use arrayvec::ArrayVec;
use crate::config::{MAXARG, NPROC};

verus! {

/// `arrayvec::ArrayVec`, a vector that holds at most `CAP` elements.
#[verifier::external_type_specification]
#[verifier::external_body]
#[verifier::reject_recursive_types(T)]
pub struct ExArrayVec<T, const CAP: usize>(ArrayVec<T, CAP>);

/// The arguments that a vector holds, in order.
pub uninterp spec fn arguments(v: ArrayVec<Vec<u8>, 32>) -> Seq<Seq<u8>>;

/// The pairs of parent and child that a vector holds, in order.
pub uninterp spec fn parents(v: ArrayVec<(usize, usize), 64>) -> Seq<(usize, usize)>;

/// `ArrayVec::new`: a vector without elements.
#[verifier::external_body]
pub(crate) fn no_arguments() -> (r: ArrayVec<Vec<u8>, MAXARG>)
    ensures
        arguments(r) == Seq::<Seq<u8>>::empty(),
{
    ArrayVec::new()
}

/// `ArrayVec::try_push`: adds an element at the end where the vector is not full. Otherwise the
/// vector stays as it is and the element comes back.
#[verifier::external_body]
pub(crate) fn push_argument(v: &mut ArrayVec<Vec<u8>, MAXARG>, arg: Vec<u8>) -> (r: Result<(), Vec<u8>>)
    ensures
        match r {
            Ok(_) => arguments(*old(v)).len() < 32 && arguments(*final(v)) == arguments(*old(v)).push(arg@),
            Err(back) => arguments(*old(v)).len() >= 32 && back@ == arg@ && arguments(*final(v)) == arguments(*old(v)),
        },
{
    v.try_push(arg).map_err(|e| e.element())
}

/// `ArrayVec::as_slice`: all elements in order. There are never more than the capacity.
#[verifier::external_body]
pub(crate) fn argument_slice(v: &ArrayVec<Vec<u8>, MAXARG>) -> (r: &[Vec<u8>])
    ensures
        r@.len() == arguments(*v).len(),
        r@.len() <= 32,
        forall|i: int| 0 <= i < r@.len() ==> (#[trigger] r@[i])@ == arguments(*v)[i],
{
    v.as_slice()
}

/// `ArrayVec::new_const`: a vector without elements.
#[verifier::external_body]
pub(crate) fn no_parents() -> (r: ArrayVec<(usize, usize), NPROC>)
    ensures
        parents(r) == Seq::<(usize, usize)>::empty(),
{
    ArrayVec::new_const()
}

} // verus!
