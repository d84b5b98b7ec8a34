//! The pool of free chunk ids.
//!
//! The pool is a `BTreeSet<u32>`, viewed as the set of ids it holds. vstd gives
//! contracts to `new`, `insert` and `len`; the three calls that go by the
//! order of the ids get theirs here, from the documentation of `BTreeSet`.

use std::collections::BTreeSet;
use vstd::prelude::*;

verus! {

/// Whether `id` is the smallest id of `pool`.
pub open spec fn is_least(pool: Set<u32>, id: u32) -> bool {
    pool.contains(id) && forall|other: u32| pool.contains(other) ==> id <= other
}

/// Whether `id` is the largest id of `pool`.
pub open spec fn is_greatest(pool: Set<u32>, id: u32) -> bool {
    pool.contains(id) && forall|other: u32| pool.contains(other) ==> other <= id
}

/// `BTreeSet::pop_first`: removes the minimum of the set and returns it, or
/// returns `None` on an empty set.
#[verifier::external_body]
pub(crate) fn pool_pop_first(pool: &mut BTreeSet<u32>) -> (first: Option<u32>)
    ensures
        match first {
            Some(id) => is_least(old(pool)@, id) && final(pool)@ == old(pool)@.remove(id),
            None => old(pool)@ == Set::<u32>::empty() && final(pool)@ == old(pool)@,
        },
{
    pool.pop_first()
}

/// `BTreeSet::last`: the maximum of the set, or `None` on an empty set.
#[verifier::external_body]
pub(crate) fn pool_last(pool: &BTreeSet<u32>) -> (last: Option<u32>)
    ensures
        match last {
            Some(id) => is_greatest(pool@, id),
            None => pool@ == Set::<u32>::empty(),
        },
{
    pool.last().copied()
}

/// `BTreeSet::pop_last`: removes the maximum of the set and returns it, or
/// returns `None` on an empty set.
#[verifier::external_body]
pub(crate) fn pool_pop_last(pool: &mut BTreeSet<u32>) -> (last: Option<u32>)
    ensures
        match last {
            Some(id) => is_greatest(old(pool)@, id) && final(pool)@ == old(pool)@.remove(id),
            None => old(pool)@ == Set::<u32>::empty() && final(pool)@ == old(pool)@,
        },
{
    pool.pop_last()
}

/// Adds `id` to the pool.
pub(crate) fn pool_insert(pool: &mut BTreeSet<u32>, id: u32)
    ensures
        final(pool)@ == old(pool)@.insert(id),
{
    proof {
        broadcast use vstd::laws_cmp::group_laws_cmp;

    }
    pool.insert(id);
}

/// Whether `id` is in the pool.
pub(crate) fn pool_contains(pool: &BTreeSet<u32>, id: u32) -> (held: bool)
    ensures
        held == pool@.contains(id),
{
    proof {
        broadcast use vstd::laws_cmp::group_laws_cmp;
        broadcast use vstd::std_specs::btree::group_btree_axioms;

    }
    pool.contains(&id)
}

/// The number of ids in the pool.
pub(crate) fn pool_len(pool: &BTreeSet<u32>) -> (n: usize)
    ensures
        n == pool@.len(),
{
    proof {
        broadcast use vstd::laws_cmp::group_laws_cmp;
        broadcast use vstd::std_specs::btree::group_btree_axioms;

    }
    pool.len()
}

} // verus!
