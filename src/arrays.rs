//! Fixed-capacity sequences from the `arrayvec` crate, as the library uses them.
use vstd::prelude::*;
use arrayvec::ArrayVec;
use crate::piece::PieceMovement;

verus! {

#[verifier::external_type_specification]
#[verifier::external_body]
#[verifier::reject_recursive_types(T)]
pub struct ExArrayVec<T, const CAP: usize>(ArrayVec<T, CAP>);

/// What a bounded movement list holds, first to last.
pub uninterp spec fn held_movements(v: ArrayVec<PieceMovement, 32>) -> Seq<PieceMovement>;

/// What a bounded list of row indices holds, first to last.
pub uninterp spec fn held_rows(v: ArrayVec<i32, 4>) -> Seq<i32>;

/// Relies on ArrayVec::new: the new vector is empty.
#[verifier::external_body]
pub(crate) fn movements_new() -> (r: ArrayVec<PieceMovement, 32>)
    ensures
        held_movements(r) == Seq::<PieceMovement>::empty(),
{
    ArrayVec::new()
}

/// Relies on ArrayVec::push: appends at the end; it panics only when full.
#[verifier::external_body]
pub(crate) fn movements_push(v: &mut ArrayVec<PieceMovement, 32>, m: PieceMovement)
    requires
        held_movements(*old(v)).len() < 32,
    ensures
        held_movements(*final(v)) == held_movements(*old(v)).push(m),
{
    v.push(m)
}

/// Relies on ArrayVec::len: the number of elements held.
#[verifier::external_body]
pub(crate) fn movements_len(v: &ArrayVec<PieceMovement, 32>) -> (r: usize)
    ensures
        r as int == held_movements(*v).len(),
        r <= 32,
{
    v.len()
}

/// Relies on indexing through ArrayVec's slice view: the element at `i`.
#[verifier::external_body]
pub(crate) fn movements_get(v: &ArrayVec<PieceMovement, 32>, i: usize) -> (r: PieceMovement)
    requires
        i < held_movements(*v).len(),
    ensures
        r == held_movements(*v)[i as int],
{
    v[i]
}

/// Relies on ArrayVec's Clone impl: the copy holds the same elements.
#[verifier::external_body]
pub(crate) fn movements_clone(v: &ArrayVec<PieceMovement, 32>) -> (r: ArrayVec<PieceMovement, 32>)
    ensures
        held_movements(r) == held_movements(*v),
{
    v.clone()
}

/// Relies on ArrayVec::new: the new vector is empty.
#[verifier::external_body]
pub(crate) fn rows_new() -> (r: ArrayVec<i32, 4>)
    ensures
        held_rows(r) == Seq::<i32>::empty(),
{
    ArrayVec::new()
}

/// Relies on ArrayVec::push: appends at the end; it panics only when full.
#[verifier::external_body]
pub(crate) fn rows_push(v: &mut ArrayVec<i32, 4>, y: i32)
    requires
        held_rows(*old(v)).len() < 4,
    ensures
        held_rows(*final(v)) == held_rows(*old(v)).push(y),
{
    v.push(y)
}

/// Relies on ArrayVec::len: the number of elements held.
#[verifier::external_body]
pub(crate) fn rows_len(v: &ArrayVec<i32, 4>) -> (r: usize)
    ensures
        r as int == held_rows(*v).len(),
        r <= 4,
{
    v.len()
}

/// Relies on ArrayVec's Clone impl: the copy holds the same elements.
#[verifier::external_body]
pub(crate) fn rows_clone(v: &ArrayVec<i32, 4>) -> (r: ArrayVec<i32, 4>)
    ensures
        held_rows(r) == held_rows(*v),
{
    v.clone()
}

} // verus!
