//! What holds of every well-formed index, and of every two of them.

use crate::canon::{lemma_live_count, lemma_same_contents_same_count};
use crate::index::Chunks;
use crate::region::Point;
use crate::link::is_block;
use crate::tree::{
    lemma_live, lemma_live_is_reachable, lemma_root, lemma_route_is_live, lookup, reachable,
};
use vstd::prelude::*;

verus! {

/// The free pool and the tree share no chunk, and between them they hold the
/// whole arena: the pool is a finite set of ids of the arena, no id of the
/// pool is led to from the root, and every id of the arena outside the pool is.
pub proof fn lemma_pool_apart_from_tree(index: Chunks)
    requires
        index.wf(),
    ensures
        index.free_ids().finite(),
        forall|id: u32| #[trigger]
            index.free_ids().contains(id) ==> id < index.arena_len() && !index.reachable(id),
        forall|id: u32|
            id < index.arena_len() && !index.free_ids().contains(id) ==> #[trigger] index.reachable(
                id,
            ),
        index.root_id() == 0,
        index.reachable(index.root_id()),
{
    let places = index.places();
    let arena = index.chunks@;
    let free = index.free_chunks@;
    lemma_root(arena, free, index.root, places);
    assert forall|id: u32| #[trigger] free.contains(id) implies !reachable(
        arena,
        index.root,
        id as int,
    ) by {
        if reachable(arena, index.root, id as int) {
            let route = choose|route: Seq<int>|
                crate::tree::is_route(arena, index.root, route) && #[trigger] route.last()
                    == id as int;
            lemma_route_is_live(arena, free, index.root, places, route);
            lemma_live(arena, free, index.root, places, id as int);
        }
    }
    assert forall|id: u32| id < arena.len() && !free.contains(id) implies #[trigger] reachable(
        arena,
        index.root,
        id as int,
    ) by {
        assert(places.dom().contains(id as int)) by {
            reveal(crate::tree::shaped);
        }
        lemma_live_is_reachable(arena, free, index.root, places, id as int);
    }
    lemma_live_is_reachable(arena, free, index.root, places, index.root as int);
}

/// Every link of a chunk of the tree that does not hold a block id leads to
/// a chunk of the tree, inside the arena and outside the free pool.
pub proof fn lemma_links_stay_in_tree(index: Chunks, id: u32, slot: int)
    requires
        index.wf(),
        index.reachable(id),
        0 <= slot < 16,
    ensures
        id < index.arena_len(),
        !index.free_ids().contains(id),
        !is_block(index.link(id, slot)) ==> {
            &&& index.link(id, slot) < index.arena_len()
            &&& !index.free_ids().contains(index.link(id, slot))
            &&& index.reachable(index.link(id, slot))
            &&& index.link(id, slot) != index.root_id()
        },
{
    let places = index.places();
    let arena = index.chunks@;
    let free = index.free_chunks@;
    let route = choose|route: Seq<int>|
        crate::tree::is_route(arena, index.root, route) && #[trigger] route.last() == id as int;
    lemma_route_is_live(arena, free, index.root, places, route);
    lemma_live(arena, free, index.root, places, id as int);
    let link = index.link(id, slot);
    if !is_block(link) {
        crate::update::lemma_parent(arena, free, index.root, places, link as int, id as int, slot);
        lemma_live(arena, free, index.root, places, link as int);
        lemma_live_is_reachable(arena, free, index.root, places, link as int);
    }
}

/// Maximal collapse: no chunk of the tree but the root has sixteen equal
/// links.
pub proof fn lemma_maximal_collapse(index: Chunks, id: u32)
    requires
        index.wf(),
        index.reachable(id),
        id != index.root_id(),
    ensures
        exists|slot: int| 0 < slot < 16 && #[trigger] index.link(id, slot) != index.link(id, 0),
{
    let places = index.places();
    let arena = index.chunks@;
    let free = index.free_chunks@;
    let route = choose|route: Seq<int>|
        crate::tree::is_route(arena, index.root, route) && #[trigger] route.last() == id as int;
    lemma_route_is_live(arena, free, index.root, places, route);
    assert(!crate::tree::uniform(arena[id as int]));
    let slot = choose|slot: int|
        0 <= slot < 16 && #[trigger] arena[id as int].links@[slot] != arena[id as int].links@[0];
    assert(index.link(id, slot) != index.link(id, 0));
}

/// The arena has a chunk, and its last chunk is not in the free pool: no
/// shorter arena could hold the chunks in use.
pub proof fn lemma_last_chunk_in_use(index: Chunks)
    requires
        index.wf(),
    ensures
        1 <= index.arena_len() <= crate::link::BLOCK_BIT,
        index.root_id() < index.arena_len(),
        !index.free_ids().contains((index.arena_len() - 1) as u32),
        index.free_ids().len() < index.arena_len(),
{
    let places = index.places();
    lemma_root(index.chunks@, index.free_chunks@, index.root, places);
    lemma_live_count(index.chunks@, index.free_chunks@, index.root, places);
    assert(places.dom().len() > 0) by {
        if places.dom().len() == 0 {
            assert(places.dom() =~= Set::<int>::empty());
        }
    }
}

/// A write never has to take more than 31 chunks into use, so it cannot fail
/// for want of chunks while the arena is 31 chunks short of its limit.
pub proof fn lemma_chunks_missing_bound(index: Chunks, x: u32, y: u32, z: u32, w: u32)
    requires
        index.wf(),
    ensures
        0 <= index.chunks_missing(x, y, z, w) <= 31,
        index.arena_len() + 31 <= crate::link::BLOCK_BIT ==> index.chunks_missing(x, y, z, w)
            <= index.spare_chunks(),
{
    let places = index.places();
    lemma_root(index.chunks@, index.free_chunks@, index.root, places);
    crate::tree::lemma_chunks_below_bound(index.chunks@, index.root, 0, Point { x, y, z, w });
    crate::tree::lemma_walk_step(
        index.chunks@,
        index.free_chunks@,
        index.root,
        places,
        index.root as int,
        Point { x, y, z, w },
        0,
    );
}

/// The number of chunks in use depends on the contents alone: two indexes
/// that hold the same block id at every point have equally many chunks in
/// use. So writes that bring the contents back bring that number back.
pub proof fn lemma_live_count_by_contents(a: Chunks, b: Chunks)
    requires
        a.wf(),
        b.wf(),
        forall|x: u32, y: u32, z: u32, w: u32| a.block_at(x, y, z, w) == b.block_at(x, y, z, w),
    ensures
        a.live_count() == b.live_count(),
{
    let (pa, pb) = (a.places(), b.places());
    assert forall|p: Point|
        lookup(a.chunks@, a.root, 0, p) == lookup(b.chunks@, b.root, 0, p) by {
        assert(a.block_at(p.x, p.y, p.z, p.w) == b.block_at(p.x, p.y, p.z, p.w));
        assert(p == Point { x: p.x, y: p.y, z: p.z, w: p.w });
    }
    lemma_live_count(a.chunks@, a.free_chunks@, a.root, pa);
    lemma_live_count(b.chunks@, b.free_chunks@, b.root, pb);
    lemma_same_contents_same_count(
        a.chunks@,
        a.free_chunks@,
        a.root,
        pa,
        b.chunks@,
        b.free_chunks@,
        b.root,
        pb,
    );
}

/// An index whose contents are block id 0 everywhere has one chunk in use.
pub proof fn lemma_empty_contents_one_chunk(index: Chunks)
    requires
        index.wf(),
        forall|x: u32, y: u32, z: u32, w: u32| index.block_at(x, y, z, w) == 0,
    ensures
        index.live_count() == 1,
        index.arena_len() == 1,
        index.free_ids() =~= Set::<u32>::empty(),
{
    let places = index.places();
    let arena = index.chunks@;
    let free = index.free_chunks@;
    lemma_root(arena, free, index.root, places);
    lemma_live_count(arena, free, index.root, places);
    assert(places.dom() =~= set![index.root as int]) by {
        assert forall|c: int| places.dom().contains(c) implies c == index.root by {
            if c != index.root {
                crate::canon::lemma_live_is_mixed(arena, free, index.root, places, c);
                let (p, q) = choose|p: Point, q: Point|
                    crate::canon::differ_in(arena, index.root, places[c].region, p, q);
                assert(index.block_at(p.x, p.y, p.z, p.w) == 0);
                assert(index.block_at(q.x, q.y, q.z, q.w) == 0);
                assert(p == Point { x: p.x, y: p.y, z: p.z, w: p.w });
                assert(q == Point { x: q.x, y: q.y, z: q.z, w: q.w });
            }
        }
    }
    let last = (arena.len() - 1) as int;
    assert(places.dom().contains(last) || free.contains(last as u32)) by {
        reveal(crate::tree::shaped);
    }
}

} // verus!
