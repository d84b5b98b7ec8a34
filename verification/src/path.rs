//! The bounded stack that records the chunks visited on the way down.
//!
//! The stack is an `arrayvec::ArrayVec` of at most 32 entries, one per level
//! of the tree. Each entry is a chunk id paired with the selector of the link
//! through which the chunk was entered. The items of this module are the only
//! places where the stack is touched; their contracts are taken on trust from
//! the source of `arrayvec`.

use arrayvec::ArrayVec;
use vstd::prelude::*;

verus! {

#[verifier::external_type_specification]
#[verifier::external_body]
#[verifier::reject_recursive_types(T)]
pub struct ExArrayVec<T, const CAP: usize>(ArrayVec<T, CAP>);

/// The entries that a path stack holds, bottom first.
pub uninterp spec fn path_entries(path: ArrayVec<(u32, usize), 32>) -> Seq<(u32, usize)>;

/// `ArrayVec::new`: a stack without entries. The call panics only for a
/// capacity above `u32::MAX`, which 32 is not.
#[verifier::external_body]
pub(crate) fn path_new() -> (path: ArrayVec<(u32, usize), 32>)
    ensures
        path_entries(path) == Seq::<(u32, usize)>::empty(),
{
    ArrayVec::new()
}

/// `ArrayVec::push`: appends `entry` as the new top. The call panics on a
/// full stack, which the precondition leaves out.
#[verifier::external_body]
pub(crate) fn path_push(path: &mut ArrayVec<(u32, usize), 32>, entry: (u32, usize))
    requires
        path_entries(*old(path)).len() < 32,
    ensures
        path_entries(*final(path)) == path_entries(*old(path)).push(entry),
{
    path.push(entry)
}

/// `last` of the slice that an `ArrayVec` dereferences to: the top entry, or
/// `None` on an empty stack.
#[verifier::external_body]
pub(crate) fn path_last(path: &ArrayVec<(u32, usize), 32>) -> (top: Option<(u32, usize)>)
    ensures
        top == if path_entries(*path).len() > 0 {
            Some(path_entries(*path).last())
        } else {
            None
        },
{
    path.last().copied()
}

/// `ArrayVec::pop`: removes the top entry and returns it, or returns `None`
/// and leaves an empty stack as it is.
#[verifier::external_body]
pub(crate) fn path_pop(path: &mut ArrayVec<(u32, usize), 32>) -> (top: Option<(u32, usize)>)
    ensures
        top == if path_entries(*old(path)).len() > 0 {
            Some(path_entries(*old(path)).last())
        } else {
            None
        },
        path_entries(*final(path)) == if path_entries(*old(path)).len() > 0 {
            path_entries(*old(path)).drop_last()
        } else {
            path_entries(*old(path))
        },
{
    path.pop()
}

} // verus!
