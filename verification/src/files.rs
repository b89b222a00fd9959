//! The list of columns that a position offers, held in an `ArrayVec` of
//! capacity seven. The items here state what the library relies on from the
//! `arrayvec` crate; Verus takes them on trust.

use vstd::prelude::*;
use arrayvec::ArrayVec;

verus! {

/// `arrayvec::ArrayVec`, a vector of at most `CAP` elements that lives on
/// the stack. Verus sees nothing inside it.
#[verifier::external_type_specification]
#[verifier::external_body]
#[verifier::reject_recursive_types(T)]
pub struct ExArrayVec<T, const CAP: usize>(ArrayVec<T, CAP>);

/// The columns that a list holds, first to last.
pub uninterp spec fn files_of(v: ArrayVec<usize, 7>) -> Seq<usize>;

/// `ArrayVec::new`: the new list holds nothing.
#[verifier::external_body]
pub(crate) fn new_files() -> (v: ArrayVec<usize, 7>)
    ensures
        files_of(v) == Seq::<usize>::empty(),
{
    ArrayVec::new()
}

/// `ArrayVec::push`: the element is added at the end and the rest stays as
/// it was. The call panics on a full list, so a caller must show that fewer
/// than seven columns are held.
#[verifier::external_body]
pub(crate) fn push_file(v: &mut ArrayVec<usize, 7>, file: usize)
    requires
        files_of(*old(v)).len() < 7,
    ensures
        files_of(*final(v)) == files_of(*old(v)).push(file),
{
    v.push(file)
}

/// `ArrayVec::as_slice`: the slice holds the elements of the list in order.
#[verifier::external_body]
pub(crate) fn as_files(v: &ArrayVec<usize, 7>) -> (s: &[usize])
    ensures
        s@ == files_of(*v),
{
    v.as_slice()
}

/// The columns of a list, copied out.
pub fn to_vec(files: &ArrayVec<usize, 7>) -> (v: Vec<usize>)
    ensures
        v@ == files_of(*files),
{
    let held = as_files(files);
    let mut v: Vec<usize> = Vec::new();
    for i in 0..held.len()
        invariant
            held@ == files_of(*files),
            v@ == held@.take(i as int),
    {
        v.push(held[i]);
        assert(held@.take(i + 1) =~= held@.take(i as int).push(held@[i as int]));
    }
    assert(held@.take(held@.len() as int) =~= held@);
    v
}

} // verus!
