//! The sparse index itself: the arena, the pool of free ids and the root.

use crate::link::{is_block, link_block, link_from_block, link_is_block, selector, BLOCK_BIT};
use crate::path::{path_entries, path_last, path_new, path_pop, path_push};
use crate::pool::{
    is_greatest, is_least, pool_contains, pool_insert, pool_last, pool_len, pool_pop_first,
    pool_pop_last,
};
use crate::region::{lemma_region_step, point_selector, region_of, Point};
use crate::tree::{
    chained, chunks_below, collapsed, collapsed_off, filled, lemma_live, lemma_root,
    lemma_walk_step, link_at, lookup, reachable, shaped, trimmed, uniform, Chunk, Place,
};
use crate::update::{
    lemma_collapse, lemma_materialize, lemma_settled, lemma_trim, lemma_walk_extends,
    lemma_walk_materialized, lemma_walk_shrinks, lemma_walk_written, lemma_write_leaf, places_with,
    same_except,
};
use std::collections::BTreeSet;
use vstd::prelude::*;

verus! {

broadcast use vstd::std_specs::btree::group_btree_axioms;

/// Why a write was refused.
#[derive(Clone, Copy, Debug, PartialEq, Eq, Structural)]
pub enum SetBlockError {
    /// The block id has the tag bit set.
    ContractViolation,
    /// The write needs more chunks than the pool and the id space have left.
    CapacityExceeded,
}

/// A sparse map from the points of the lattice to block ids.
#[derive(Debug)]
pub struct Chunks {
    pub(crate) chunks: Vec<Chunk>,
    pub(crate) free_chunks: BTreeSet<u32>,
    pub(crate) root: u32,
}

impl Chunks {
    /// The invariants of the index under a given placement of its live chunks.
    pub open(crate) spec fn wf_with(&self, places: Map<int, Place>) -> bool {
        &&& self.root == 0
        &&& shaped(self.chunks@, self.free_chunks@, self.root, places)
        &&& collapsed(self.chunks@, self.root, places)
        &&& trimmed(self.chunks@, self.free_chunks@)
    }

    /// The invariants of the index: the root is chunk 0, the chunks outside
    /// the free pool form a tree under it, none of them but the root has
    /// sixteen equal links, and the last chunk of the arena is not free.
    pub open(crate) spec fn wf(&self) -> bool {
        exists|places: Map<int, Place>| self.wf_with(places)
    }

    /// The placement that a well-formed index has.
    pub open(crate) spec fn places(&self) -> Map<int, Place> {
        choose|places: Map<int, Place>| self.wf_with(places)
    }

    /// The block id that the index holds at `(x, y, z, w)`.
    pub open(crate) spec fn block_at(&self, x: u32, y: u32, z: u32, w: u32) -> u32 {
        lookup(self.chunks@, self.root, 0, Point { x, y, z, w })
    }

    /// The number of chunks in the arena, free ones included.
    pub open(crate) spec fn arena_len(&self) -> nat {
        self.chunks@.len()
    }

    /// The ids in the free pool.
    pub open(crate) spec fn free_ids(&self) -> Set<u32> {
        self.free_chunks@
    }

    /// How many chunks a write at `(x, y, z, w)` has to take into use: the
    /// levels below the last chunk on the walk to that point.
    pub open(crate) spec fn chunks_missing(&self, x: u32, y: u32, z: u32, w: u32) -> int {
        32 - chunks_below(self.chunks@, self.root, 0, Point { x, y, z, w })
    }

    /// How many chunks can still be taken into use: the ids of the pool and
    /// the ids beyond the arena.
    pub open spec fn spare_chunks(&self) -> int {
        self.free_ids().len() + BLOCK_BIT - self.arena_len()
    }

    /// The id of the root chunk.
    pub open(crate) spec fn root_id(&self) -> u32 {
        self.root
    }

    /// The link of the chunk `id` at the selector `slot`.
    pub open(crate) spec fn link(&self, id: u32, slot: int) -> u32 {
        link_at(self.chunks@, id as int, slot)
    }

    /// Whether links lead from the root to the chunk `id`.
    pub open(crate) spec fn reachable(&self, id: u32) -> bool {
        reachable(self.chunks@, self.root, id as int)
    }

    /// The number of chunks in use: those of the arena that are not free.
    pub open spec fn live_count(&self) -> int {
        self.arena_len() - self.free_ids().len()
    }

    /// The ids of the pool lie inside the arena.
    pub open(crate) spec fn pool_in_arena(&self) -> bool {
        forall|id: u32| #[trigger] self.free_chunks@.contains(id) ==> id < self.chunks@.len()
    }

    /// The 4-bit selector of the point `(x, y, z, w)` at level `index`.
    pub fn link_index(x: u32, y: u32, z: u32, w: u32, index: usize) -> (r: usize)
        requires
            index < 32,
        ensures
            r == selector(x, y, z, w, index as nat),
            r < 16,
    {
        let shift: u32 = 31 - index as u32;
        let x_bit: u32 = (x >> shift) & 1;
        let y_bit: u32 = (y >> shift) & 1;
        let z_bit: u32 = (z >> shift) & 1;
        let w_bit: u32 = (w >> shift) & 1;
        let packed: u32 = (x_bit << 0) | (y_bit << 1) | (z_bit << 2) | (w_bit << 3);
        assert(x_bit <= 1 && y_bit <= 1 && z_bit <= 1 && w_bit <= 1 ==> ((x_bit << 0u32) | (y_bit
            << 1u32) | (z_bit << 2u32) | (w_bit << 3u32)) == x_bit + 2 * y_bit + 4 * z_bit + 8
            * w_bit) by (bit_vector);
        assert(((x >> shift) & 1) <= 1) by (bit_vector);
        assert(((y >> shift) & 1) <= 1) by (bit_vector);
        assert(((z >> shift) & 1) <= 1) by (bit_vector);
        assert(((w >> shift) & 1) <= 1) by (bit_vector);
        packed as usize
    }

    /// Takes a chunk into use: the smallest free id where the pool has one,
    /// else a new chunk at the end of the arena. Its links hold block id 0.
    pub(crate) fn allocate_chunk(&mut self) -> (id: u32)
        requires
            old(self).pool_in_arena(),
            old(self).free_chunks@ != Set::<u32>::empty() || old(self).chunks@.len() < BLOCK_BIT,
        ensures
            final(self).root == old(self).root,
            id < final(self).chunks@.len(),
            filled(final(self).chunks@[id as int], BLOCK_BIT),
            old(self).free_chunks@ == Set::<u32>::empty() ==> {
                &&& id == old(self).chunks@.len()
                &&& final(self).chunks@ == old(self).chunks@.push(final(self).chunks@[id as int])
                &&& final(self).free_chunks@ == old(self).free_chunks@
            },
            old(self).free_chunks@ != Set::<u32>::empty() ==> {
                &&& is_least(old(self).free_chunks@, id)
                &&& final(self).chunks@ == old(self).chunks@.update(
                    id as int,
                    final(self).chunks@[id as int],
                )
                &&& final(self).free_chunks@ == old(self).free_chunks@.remove(id)
            },
    {
        match pool_pop_first(&mut self.free_chunks) {
            Some(id) => {
                self.chunks.set(id as usize, Chunk::default());
                id
            },
            None => {
                let id = self.chunks.len() as u32;
                self.chunks.push(Chunk::default());
                id
            },
        }
    }

    /// Returns a chunk to the pool.
    pub(crate) fn deallocate_chunk(&mut self, id: u32)
        ensures
            final(self).root == old(self).root,
            final(self).chunks@ == old(self).chunks@,
            final(self).free_chunks@ == old(self).free_chunks@.insert(id),
    {
        pool_insert(&mut self.free_chunks, id);
    }

    /// Whether the last chunk of the arena is in the pool.
    fn last_chunk_is_free(&self) -> (free: bool)
        requires
            self.pool_in_arena(),
            1 <= self.chunks@.len() <= BLOCK_BIT,
        ensures
            free == self.free_chunks@.contains((self.chunks@.len() - 1) as u32),
            free ==> is_greatest(self.free_chunks@, (self.chunks@.len() - 1) as u32),
    {
        match pool_last(&self.free_chunks) {
            Some(last) => self.chunks.len() - 1 == last as usize,
            None => false,
        }
    }

    /// Shrinks the arena while its last chunk is in the pool.
    pub(crate) fn cleanup_unused_chunks(&mut self)
        requires
            old(self).pool_in_arena(),
            old(self).root < old(self).chunks@.len() <= BLOCK_BIT,
            !old(self).free_chunks@.contains(old(self).root),
        ensures
            final(self).root == old(self).root,
            final(self).root < final(self).chunks@.len() <= old(self).chunks@.len(),
            final(self).chunks@ == old(self).chunks@.take(final(self).chunks@.len() as int),
            forall|id: u32|
                final(self).free_chunks@.contains(id) <==> old(self).free_chunks@.contains(id) && id
                    < final(self).chunks@.len(),
            forall|id: u32|
                final(self).chunks@.len() <= id < old(self).chunks@.len() ==> old(
                    self,
                ).free_chunks@.contains(id),
            !final(self).free_chunks@.contains((final(self).chunks@.len() - 1) as u32),
    {
        while self.last_chunk_is_free()
            invariant
                self.root == old(self).root,
                self.root < self.chunks@.len() <= old(self).chunks@.len() <= BLOCK_BIT,
                !self.free_chunks@.contains(self.root),
                self.pool_in_arena(),
                self.chunks@ == old(self).chunks@.take(self.chunks@.len() as int),
                forall|id: u32|
                    self.free_chunks@.contains(id) <==> old(self).free_chunks@.contains(id) && id
                        < self.chunks@.len(),
                forall|id: u32|
                    self.chunks@.len() <= id < old(self).chunks@.len() ==> old(
                        self,
                    ).free_chunks@.contains(id),
            decreases self.chunks@.len(),
        {
            self.chunks.pop();
            pool_pop_last(&mut self.free_chunks);
        }
    }

    /// Overwrites one link of a chunk.
    fn set_link(&mut self, id: u32, slot: usize, link: u32)
        requires
            id < old(self).chunks@.len(),
            slot < 16,
        ensures
            final(self).root == old(self).root,
            final(self).free_chunks@ == old(self).free_chunks@,
            final(self).chunks@.len() == old(self).chunks@.len(),
            same_except(old(self).chunks@, final(self).chunks@, id as int, id as int),
            final(self).chunks@[id as int].links@ == old(self).chunks@[id as int].links@.update(
                slot as int,
                link,
            ),
    {
        self.chunks[id as usize].links[slot] = link;
    }

    /// Overwrites all sixteen links of a chunk with one word.
    fn fill_links(&mut self, id: u32, link: u32)
        requires
            id < old(self).chunks@.len(),
        ensures
            final(self).root == old(self).root,
            final(self).free_chunks@ == old(self).free_chunks@,
            final(self).chunks@.len() == old(self).chunks@.len(),
            same_except(old(self).chunks@, final(self).chunks@, id as int, id as int),
            filled(final(self).chunks@[id as int], link),
    {
        self.chunks[id as usize] = Chunk { links: [link; 16] };
    }

    /// Whether the sixteen links of a chunk are equal.
    fn is_uniform(&self, id: u32) -> (all_equal: bool)
        requires
            id < self.chunks@.len(),
        ensures
            all_equal == uniform(self.chunks@[id as int]),
    {
        let first = self.chunks[id as usize].links[0];
        let mut slot: usize = 1;
        while slot < 16
            invariant
                1 <= slot <= 16,
                id < self.chunks@.len(),
                first == self.chunks@[id as int].links@[0],
                forall|s: int|
                    0 <= s < slot ==> #[trigger] self.chunks@[id as int].links@[s] == first,
            decreases 16 - slot,
        {
            if self.chunks[id as usize].links[slot] != first {
                return false;
            }
            slot += 1;
        }
        true
    }

    /// Counts the chunks that a write at `(x, y, z, w)` has to take into use.
    fn missing_chunks(&self, x: u32, y: u32, z: u32, w: u32) -> (missing: usize)
        requires
            self.wf(),
        ensures
            missing == self.chunks_missing(x, y, z, w),
            missing <= 31,
    {
        let ghost p = Point { x, y, z, w };
        let ghost places = self.places();
        let mut node: u32 = self.root;
        let mut index: usize = 0;
        proof {
            lemma_root(self.chunks@, self.free_chunks@, self.root, places);
        }
        while index < 32 && !link_is_block(node)
            invariant
                index <= 32,
                p == (Point { x, y, z, w }),
                self.wf_with(places),
                chunks_below(self.chunks@, self.root, 0, p) == index + chunks_below(
                    self.chunks@,
                    node,
                    index as nat,
                    p,
                ),
                !is_block(node) ==> places.dom().contains(node as int) && places[node as int].region
                    == region_of(p, index as nat),
            decreases 32 - index,
        {
            let link_index = Self::link_index(x, y, z, w, index);
            proof {
                lemma_walk_step(
                    self.chunks@,
                    self.free_chunks@,
                    self.root,
                    places,
                    node as int,
                    p,
                    index as nat,
                );
            }
            node = self.chunks[node as usize].links[link_index];
            index += 1;
        }
        proof {
            if !is_block(node) {
                lemma_live(self.chunks@, self.free_chunks@, self.root, places, node as int);
            }
        }
        32 - index
    }

    /// Writes `block_id` at `(x, y, z, w)`.
    ///
    /// The write is refused, and the index left as it was, when `block_id` has
    /// the tag bit set or when the chunks that the walk to the point lacks
    /// are more than can still be taken into use. Otherwise the index holds
    /// `block_id` at the point and at every other point what it held.
    pub fn set_block(&mut self, x: u32, y: u32, z: u32, w: u32, block_id: u32) -> (result: Result<
        (),
        SetBlockError,
    >)
        requires
            old(self).wf(),
        ensures
            final(self).wf(),
            match result {
                Ok(_) => {
                    &&& block_id < BLOCK_BIT
                    &&& old(self).chunks_missing(x, y, z, w) <= old(self).spare_chunks()
                    &&& final(self).arena_len() <= old(self).arena_len()
                        + old(self).chunks_missing(x, y, z, w)
                    &&& final(self).block_at(x, y, z, w) == block_id
                    &&& forall|x2: u32, y2: u32, z2: u32, w2: u32|
                        !(x2 == x && y2 == y && z2 == z && w2 == w)
                            ==> #[trigger] final(self).block_at(x2, y2, z2, w2)
                            == old(self).block_at(x2, y2, z2, w2)
                },
                Err(SetBlockError::ContractViolation) => {
                    &&& block_id >= BLOCK_BIT
                    &&& *final(self) == *old(self)
                },
                Err(SetBlockError::CapacityExceeded) => {
                    &&& block_id < BLOCK_BIT
                    &&& old(self).chunks_missing(x, y, z, w) > old(self).spare_chunks()
                    &&& *final(self) == *old(self)
                },
            },
    {
        if link_is_block(block_id) {
            return Err(SetBlockError::ContractViolation);
        }
        let ghost p = Point { x, y, z, w };
        let ghost start = self.chunks@;
        let ghost mut places = self.places();
        proof {
            lemma_root(self.chunks@, self.free_chunks@, self.root, places);
        }
        let missing = self.missing_chunks(x, y, z, w);
        let room: usize = BLOCK_BIT as usize - self.chunks.len();
        if missing > room && pool_len(&self.free_chunks) < missing - room {
            return Err(SetBlockError::CapacityExceeded);
        }
        let mut nodes = path_new();
        path_push(&mut nodes, (self.root, 0));
        let mut index: usize = 0;
        while index < 31
            invariant
                index <= 31,
                p == (Point { x, y, z, w }),
                self.root == old(self).root,
                shaped(self.chunks@, self.free_chunks@, self.root, places),
                trimmed(self.chunks@, self.free_chunks@),
                path_entries(nodes).len() == index + 1,
                chained(self.chunks@, self.root, places, path_entries(nodes)),
                collapsed_off(self.chunks@, self.root, places, path_entries(nodes)),
                places[path_entries(nodes).last().0 as int].region == region_of(p, index as nat),
                forall|q: Point|
                    lookup(self.chunks@, self.root, 0, q) == #[trigger] lookup(
                        start,
                        self.root,
                        0,
                        q,
                    ),
                (32 - index) - chunks_below(
                    self.chunks@,
                    path_entries(nodes).last().0,
                    index as nat,
                    p,
                ) <= self.free_chunks@.len() + BLOCK_BIT - self.chunks@.len(),
                self.chunks@.len() + (32 - index) - chunks_below(
                    self.chunks@,
                    path_entries(nodes).last().0,
                    index as nat,
                    p,
                ) <= start.len() + 32 - chunks_below(start, self.root, 0, p),
            decreases 31 - index,
        {
            let ghost arena = self.chunks@;
            let ghost free = self.free_chunks@;
            let ghost entries = path_entries(nodes);
            let node = path_last(&nodes).unwrap().0;
            let link_index = Self::link_index(x, y, z, w, index);
            proof {
                assert(entries[index as int].0 == node);
                lemma_root(arena, free, self.root, places);
                lemma_live(arena, free, self.root, places, node as int);
                lemma_walk_step(arena, free, self.root, places, node as int, p, index as nat);
            }
            let id = self.chunks[node as usize].links[link_index];
            let next = if link_is_block(id) {
                let new_id = self.allocate_chunk();
                self.fill_links(new_id, id);
                let ghost mid = self.chunks@;
                assert(new_id != node);
                self.set_link(node, link_index, new_id);
                proof {
                    assert(self.chunks@[new_id as int] == mid[new_id as int]);
                    lemma_materialize(
                        arena,
                        free,
                        self.root,
                        places,
                        self.chunks@,
                        self.free_chunks@,
                        node as int,
                        p,
                        index as nat,
                        new_id as int,
                    );
                    lemma_walk_materialized(
                        arena,
                        free,
                        self.root,
                        places,
                        self.chunks@,
                        node as int,
                        p,
                        index as nat,
                        new_id as int,
                        entries,
                    );
                    places = places_with(places, node as int, p, index as nat, new_id as int);
                }
                new_id
            } else {
                proof {
                    lemma_walk_extends(arena, self.root, places, entries, (id, link_index));
                }
                id
            };
            path_push(&mut nodes, (next, link_index));
            index += 1;
        }
        let bottom_node = path_last(&nodes).unwrap().0;
        let link_index = Self::link_index(x, y, z, w, 31);
        let ghost arena = self.chunks@;
        let ghost before = self.chunks@;
        proof {
            assert(path_entries(nodes)[31].0 == bottom_node);
            lemma_live(arena, self.free_chunks@, self.root, places, bottom_node as int);
            lemma_walk_step(
                arena,
                self.free_chunks@,
                self.root,
                places,
                bottom_node as int,
                p,
                31,
            );
            assert(arena.len() <= start.len() + old(self).chunks_missing(x, y, z, w));
        }
        self.set_link(bottom_node, link_index, link_from_block(block_id));
        proof {
            lemma_write_leaf(
                arena,
                self.free_chunks@,
                self.root,
                places,
                self.chunks@,
                bottom_node as int,
                p,
                block_id,
            );
            lemma_walk_written(
                arena,
                self.free_chunks@,
                self.root,
                places,
                self.chunks@,
                path_entries(nodes),
            );
        }
        let ghost written = self.chunks@;
        loop
            invariant_except_break
                path_entries(nodes).len() >= 1,
                collapsed_off(self.chunks@, self.root, places, path_entries(nodes)),
            invariant
                self.root == old(self).root,
                self.chunks@.len() == written.len(),
                shaped(self.chunks@, self.free_chunks@, self.root, places),
                chained(self.chunks@, self.root, places, path_entries(nodes)),
                forall|q: Point|
                    lookup(self.chunks@, self.root, 0, q) == #[trigger] lookup(
                        written,
                        self.root,
                        0,
                        q,
                    ),
            ensures
                collapsed(self.chunks@, self.root, places),
            decreases path_entries(nodes).len(),
        {
            let ghost arena = self.chunks@;
            let ghost free = self.free_chunks@;
            let ghost entries = path_entries(nodes);
            match path_pop(&mut nodes) {
                None => {
                    break ;
                },
                Some((id, parent_link_index)) => {
                    proof {
                        assert(entries[entries.len() - 1].0 == id);
                        lemma_live(arena, free, self.root, places, id as int);
                    }
                    let first = self.chunks[id as usize].links[0];
                    if !self.is_uniform(id) {
                        proof {
                            lemma_settled(arena, free, self.root, places, entries);
                        }
                        break ;
                    }
                    match path_last(&nodes) {
                        None => {
                            proof {
                                lemma_settled(arena, free, self.root, places, entries);
                            }
                            break ;
                        },
                        Some((parent_id, _)) => {
                            proof {
                                assert(entries[entries.len() - 2].0 == parent_id);
                                lemma_live(arena, free, self.root, places, parent_id as int);
                            }
                            self.deallocate_chunk(id);
                            self.set_link(parent_id, parent_link_index, first);
                            proof {
                                lemma_collapse(
                                    arena,
                                    free,
                                    self.root,
                                    places,
                                    self.chunks@,
                                    self.free_chunks@,
                                    id as int,
                                    parent_id as int,
                                    parent_link_index as int,
                                );
                                lemma_walk_shrinks(
                                    arena,
                                    free,
                                    self.root,
                                    places,
                                    self.chunks@,
                                    entries,
                                );
                                places = places.remove(id as int);
                            }
                        },
                    }
                },
            }
        }
        let ghost arena = self.chunks@;
        let ghost free = self.free_chunks@;
        proof {
            lemma_root(arena, free, self.root, places);
        }
        self.cleanup_unused_chunks();
        proof {
            lemma_trim(arena, free, self.root, places, self.chunks@, self.free_chunks@);
            assert(self.wf_with(places));
            assert forall|x2: u32, y2: u32, z2: u32, w2: u32| #[trigger]
                self.block_at(x2, y2, z2, w2) == if x2 == x && y2 == y && z2 == z && w2 == w {
                    block_id
                } else {
                    old(self).block_at(x2, y2, z2, w2)
                } by {
                let q = Point { x: x2, y: y2, z: z2, w: w2 };
                assert(lookup(self.chunks@, self.root, 0, q) == lookup(arena, self.root, 0, q));
                assert(lookup(arena, self.root, 0, q) == lookup(written, self.root, 0, q));
                assert(lookup(before, self.root, 0, q) == lookup(start, self.root, 0, q));
            }
        }
        Ok(())
    }

    /// The number of chunks in the arena, free ones included.
    pub fn chunk_count(&self) -> (count: usize)
        ensures
            count == self.arena_len(),
    {
        self.chunks.len()
    }

    /// The number of ids in the free pool.
    pub fn free_count(&self) -> (count: usize)
        ensures
            count == self.free_ids().len(),
    {
        pool_len(&self.free_chunks)
    }

    /// Whether the chunk `id` is in the free pool.
    pub fn is_free(&self, id: u32) -> (free: bool)
        ensures
            free == self.free_ids().contains(id),
    {
        pool_contains(&self.free_chunks, id)
    }

    /// The block id at `(x, y, z, w)`.
    pub fn get_block(&self, x: u32, y: u32, z: u32, w: u32) -> (block_id: u32)
        requires
            self.wf(),
        ensures
            block_id == self.block_at(x, y, z, w),
            block_id < BLOCK_BIT,
    {
        let ghost p = Point { x, y, z, w };
        let ghost places = self.places();
        let mut node: u32 = self.root;
        let mut index: usize = 0;
        proof {
            lemma_root(self.chunks@, self.free_chunks@, self.root, places);
        }
        while index < 32 && !link_is_block(node)
            invariant
                index <= 32,
                p == (Point { x, y, z, w }),
                self.wf_with(places),
                lookup(self.chunks@, node, index as nat, p) == self.block_at(x, y, z, w),
                !is_block(node) ==> places.dom().contains(node as int) && places[node as int].region
                    == region_of(p, index as nat),
            decreases 32 - index,
        {
            let link_index = Self::link_index(x, y, z, w, index);
            proof {
                lemma_walk_step(
                    self.chunks@,
                    self.free_chunks@,
                    self.root,
                    places,
                    node as int,
                    p,
                    index as nat,
                );
            }
            node = self.chunks[node as usize].links[link_index];
            index += 1;
        }
        proof {
            if !is_block(node) {
                lemma_live(self.chunks@, self.free_chunks@, self.root, places, node as int);
            }
        }
        link_block(node)
    }
}

impl Default for Chunks {
    /// The index that holds block id 0 at every point.
    fn default() -> (index: Self)
        ensures
            index.wf(),
            forall|x: u32, y: u32, z: u32, w: u32| #[trigger] index.block_at(x, y, z, w) == 0,
            index.arena_len() == 1,
            index.free_ids() == Set::<u32>::empty(),
    {
        let index = Chunks {
            chunks: vec![Chunk::default()],
            free_chunks: BTreeSet::new(),
            root: 0,
        };
        proof {
            let p0 = Point { x: 0, y: 0, z: 0, w: 0 };
            let places = Map::<int, Place>::empty().insert(
                0,
                Place { region: crate::region::whole(), parent: 0, slot: 0, rep: p0 },
            );
            assert(index.wf_with(places)) by {
                reveal(shaped);
            }
            assert forall|x: u32, y: u32, z: u32, w: u32| #[trigger]
                index.block_at(x, y, z, w) == 0 by {
                let p = Point { x, y, z, w };
                lemma_region_step(p, 0);
                assert(lookup(index.chunks@, index.root, 0, p) == lookup(
                    index.chunks@,
                    link_at(index.chunks@, 0, point_selector(p, 0)),
                    1,
                    p,
                ));
            }
        }
        index
    }
}

} // verus!
