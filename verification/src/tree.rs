//! The tree that an arena of chunks holds, as mathematics: what a lookup
//! finds, where each live chunk stands, and the invariants of the index.

use crate::link::{block_of, is_block, BLOCK_BIT};
use crate::region::{part, point_selector, region_of, whole, Point, Region};
use vstd::prelude::*;

verus! {

/// A node of the tree: sixteen links, one per selector.
#[derive(Clone, Copy, Debug)]
pub struct Chunk {
    pub links: [u32; 16],
}

/// Whether all links of a chunk are the word `link`.
pub open spec fn filled(chunk: Chunk, link: u32) -> bool {
    forall|s: int| 0 <= s < 16 ==> #[trigger] chunk.links@[s] == link
}

impl Default for Chunk {
    /// A chunk whose sixteen links all hold block id 0.
    fn default() -> (chunk: Self)
        ensures
            filled(chunk, BLOCK_BIT),
    {
        Chunk { links: [BLOCK_BIT; 16] }
    }
}

/// Where a live chunk stands in the tree.
pub struct Place {
    /// The region that the chunk covers.
    pub region: Region,
    /// The chunk whose link leads here; meaningless for the root.
    pub parent: int,
    /// The selector of that link.
    pub slot: int,
    /// A point of the region.
    pub rep: Point,
}

/// The link of chunk `c` at selector `s`.
pub open spec fn link_at(arena: Seq<Chunk>, c: int, s: int) -> u32 {
    arena[c].links@[s]
}

/// Whether all links of a chunk are the same word.
pub open spec fn uniform(chunk: Chunk) -> bool {
    forall|s: int| 0 <= s < 16 ==> #[trigger] chunk.links@[s] == chunk.links@[0]
}

/// What the walk from `link`, standing at `level`, finds for the point `p`:
/// the block id of the first tagged link on the way down.
pub open spec fn lookup(arena: Seq<Chunk>, link: u32, level: nat, p: Point) -> u32
    decreases 32 - level,
{
    if is_block(link) {
        block_of(link)
    } else if level >= 32 || link >= arena.len() {
        0
    } else {
        lookup(arena, link_at(arena, link as int, point_selector(p, level)), level + 1, p)
    }
}

/// How many chunks the walk from `link`, standing at `level`, passes through
/// for the point `p`.
pub open spec fn chunks_below(arena: Seq<Chunk>, link: u32, level: nat, p: Point) -> nat
    decreases 32 - level,
{
    if is_block(link) || level >= 32 || link >= arena.len() {
        0
    } else {
        1 + chunks_below(
            arena,
            link_at(arena, link as int, point_selector(p, level)),
            level + 1,
            p,
        )
    }
}

/// Whether chunk `c` stands where `places` says: its region holds its
/// representative, and unless it is the root its parent's link leads to it.
pub open spec fn placed(arena: Seq<Chunk>, root: u32, places: Map<int, Place>, c: int) -> bool {
    let place = places[c];
    &&& place.region.depth <= 31
    &&& place.region == region_of(place.rep, place.region.depth)
    &&& place.region.depth == 0 ==> c == root
    &&& place.region.depth > 0 ==> {
        &&& places.dom().contains(place.parent)
        &&& 0 <= place.slot < 16
        &&& link_at(arena, place.parent, place.slot) == c
        &&& place.region == part(places[place.parent].region, place.slot)
    }
}

/// The tree structure: `places` gives every chunk outside the free pool its
/// one position under the root, and every link to a chunk leads to the chunk
/// that stands at that position.
#[verifier::opaque]
pub open spec fn shaped(
    arena: Seq<Chunk>,
    free: Set<u32>,
    root: u32,
    places: Map<int, Place>,
) -> bool {
    &&& 1 <= arena.len() <= BLOCK_BIT
    &&& free.finite()
    &&& places.dom().contains(root as int)
    &&& places[root as int].region == whole()
    &&& forall|c: int| #[trigger]
        places.dom().contains(c) ==> 0 <= c < arena.len() && !free.contains(c as u32) && placed(
            arena,
            root,
            places,
            c,
        )
    &&& forall|id: u32| #[trigger] free.contains(id) ==> id < arena.len()
    &&& forall|c: int|
        0 <= c < arena.len() ==> #[trigger] places.dom().contains(c) || free.contains(c as u32)
    &&& forall|c: int, s: int|
        places.dom().contains(c) && 0 <= s < 16 && !is_block(#[trigger] link_at(arena, c, s)) ==> {
            let k = link_at(arena, c, s) as int;
            places.dom().contains(k) && places[k].region == part(places[c].region, s)
        }
}

/// Maximal collapse: no live chunk but the root has sixteen equal links.
pub open spec fn collapsed(arena: Seq<Chunk>, root: u32, places: Map<int, Place>) -> bool {
    forall|c: int| #[trigger] places.dom().contains(c) && c != root ==> !uniform(arena[c])
}

/// Trimmed: the last chunk of the arena is not in the free pool.
pub open spec fn trimmed(arena: Seq<Chunk>, free: Set<u32>) -> bool {
    !free.contains((arena.len() - 1) as u32)
}

/// Whether a link of chunk `a` leads to chunk `b`.
pub open spec fn linked(arena: Seq<Chunk>, a: int, b: int) -> bool {
    exists|s: int|
        0 <= s < 16 && !is_block(#[trigger] link_at(arena, a, s)) && link_at(arena, a, s) == b
}

/// Whether a link of the chunk before position `i` of `route` leads to the
/// chunk at position `i`.
pub open spec fn hop(arena: Seq<Chunk>, route: Seq<int>, i: int) -> bool {
    0 <= route[i - 1] < arena.len() && linked(arena, route[i - 1], route[i])
}

/// Whether `route` is a chain of links that starts at the root.
pub open spec fn is_route(arena: Seq<Chunk>, root: u32, route: Seq<int>) -> bool {
    &&& route.len() > 0
    &&& route[0] == root
    &&& forall|i: int| 0 < i < route.len() ==> #[trigger] hop(arena, route, i)
}

/// Whether links lead from the root to chunk `id`.
pub open spec fn reachable(arena: Seq<Chunk>, root: u32, id: int) -> bool {
    exists|route: Seq<int>| is_route(arena, root, route) && #[trigger] route.last() == id
}

/// Whether `entries` is a walk down from the root: every entry is a live chunk
/// at the depth of its index, entered from the entry before it through the
/// link at its selector.
pub open spec fn chained(
    arena: Seq<Chunk>,
    root: u32,
    places: Map<int, Place>,
    entries: Seq<(u32, usize)>,
) -> bool {
    &&& entries.len() > 0 ==> entries[0].0 == root
    &&& forall|j: int|
        #![trigger entries[j]]
        0 <= j < entries.len() ==> {
            &&& places.dom().contains(entries[j].0 as int)
            &&& places[entries[j].0 as int].region.depth == j
            &&& j > 0 ==> {
                &&& entries[j].1 < 16
                &&& link_at(arena, entries[j - 1].0 as int, entries[j].1 as int) == entries[j].0
            }
        }
}

/// Maximal collapse but for the chunks of `entries`: a live chunk with
/// sixteen equal links is the root or the entry at its depth.
pub open spec fn collapsed_off(
    arena: Seq<Chunk>,
    root: u32,
    places: Map<int, Place>,
    entries: Seq<(u32, usize)>,
) -> bool {
    forall|c: int|
        #![trigger places.dom().contains(c)]
        places.dom().contains(c) && c != root && uniform(arena[c]) ==> {
            &&& places[c].region.depth < entries.len()
            &&& entries[places[c].region.depth as int].0 == c
        }
}

/// A walk passes through at most one chunk per level that is left.
pub proof fn lemma_chunks_below_bound(arena: Seq<Chunk>, link: u32, level: nat, p: Point)
    requires
        level <= 32,
    ensures
        chunks_below(arena, link, level, p) <= 32 - level,
    decreases 32 - level,
{
    if !(is_block(link) || level >= 32 || link >= arena.len()) {
        lemma_chunks_below_bound(
            arena,
            link_at(arena, link as int, point_selector(p, level)),
            level + 1,
            p,
        );
    }
}

/// A chunk that stands at the region of `p` of its depth is where the walk
/// for `p` passes: the walk from the root finds what the walk from there finds.
pub proof fn lemma_lookup_from(
    arena: Seq<Chunk>,
    free: Set<u32>,
    root: u32,
    places: Map<int, Place>,
    c: int,
    p: Point,
)
    requires
        shaped(arena, free, root, places),
        places.dom().contains(c),
        places[c].region == region_of(p, places[c].region.depth),
    ensures
        lookup(arena, root, 0, p) == lookup(arena, c as u32, places[c].region.depth, p),
        chunks_below(arena, root, 0, p) == places[c].region.depth + chunks_below(
            arena,
            c as u32,
            places[c].region.depth,
            p,
        ),
    decreases places[c].region.depth,
{
    reveal(shaped);
    let place = places[c];
    let depth = place.region.depth;
    assert(placed(arena, root, places, c));
    if depth > 0 {
        let up = (depth - 1) as nat;
        crate::region::lemma_region_step(p, up);
        crate::region::lemma_part_injective(
            places[place.parent].region,
            place.slot,
            region_of(p, up),
            point_selector(p, up),
        );
        assert(places.dom().contains(place.parent));
        lemma_lookup_from(arena, free, root, places, place.parent, p);
    }
}

/// One step of the walk: from a live chunk that stands at the region of `p`,
/// the link that the selector of `p` picks is either tagged or leads to the
/// live chunk that stands at the region of `p` one level down.
pub proof fn lemma_walk_step(
    arena: Seq<Chunk>,
    free: Set<u32>,
    root: u32,
    places: Map<int, Place>,
    c: int,
    p: Point,
    level: nat,
)
    requires
        shaped(arena, free, root, places),
        places.dom().contains(c),
        places[c].region == region_of(p, level),
    ensures
        level <= 31,
        0 <= c < arena.len(),
        !is_block(c as u32),
        0 <= point_selector(p, level) < 16,
        ({
            let link = link_at(arena, c, point_selector(p, level));
            &&& lookup(arena, c as u32, level, p) == lookup(arena, link, level + 1, p)
            &&& chunks_below(arena, c as u32, level, p) == 1 + chunks_below(
                arena,
                link,
                level + 1,
                p,
            )
            &&& !is_block(link) ==> places.dom().contains(link as int) && places[link as int].region
                == region_of(p, level + 1)
        }),
{
    reveal(shaped);
    assert(placed(arena, root, places, c));
    crate::region::lemma_region_step(p, level);
}

/// The root is live and covers the whole lattice, and the pool is a finite
/// set of ids of the arena.
pub proof fn lemma_root(arena: Seq<Chunk>, free: Set<u32>, root: u32, places: Map<int, Place>)
    requires
        shaped(arena, free, root, places),
    ensures
        places.dom().contains(root as int),
        places[root as int].region == whole(),
        root < arena.len() <= BLOCK_BIT,
        !free.contains(root),
        free.finite(),
        forall|id: u32| #[trigger] free.contains(id) ==> id < arena.len(),
{
    reveal(shaped);
}

/// A live chunk lies in the arena, outside the free pool, and stands where
/// its place says.
pub proof fn lemma_live(
    arena: Seq<Chunk>,
    free: Set<u32>,
    root: u32,
    places: Map<int, Place>,
    c: int,
)
    requires
        shaped(arena, free, root, places),
        places.dom().contains(c),
    ensures
        0 <= c < arena.len() <= BLOCK_BIT,
        !free.contains(c as u32),
        placed(arena, root, places, c),
        places.dom().contains(root as int),
        places[root as int].region == whole(),
{
    reveal(shaped);
}

/// The end of a chain of links from the root is live.
pub proof fn lemma_route_is_live(
    arena: Seq<Chunk>,
    free: Set<u32>,
    root: u32,
    places: Map<int, Place>,
    route: Seq<int>,
)
    requires
        shaped(arena, free, root, places),
        is_route(arena, root, route),
    ensures
        places.dom().contains(route.last()),
    decreases route.len(),
{
    lemma_root(arena, free, root, places);
    if route.len() > 1 {
        let shorter = route.drop_last();
        assert forall|i: int| 0 < i < shorter.len() implies #[trigger] hop(arena, shorter, i) by {
            assert(hop(arena, route, i));
        }
        assert(shorter[0] == route[0]);
        lemma_route_is_live(arena, free, root, places, shorter);
        let via = route[route.len() - 2];
        let id = route[route.len() - 1];
        assert(shorter.last() == via);
        assert(hop(arena, route, route.len() - 1));
        let s = choose|s: int|
            0 <= s < 16 && !is_block(#[trigger] link_at(arena, via, s)) && link_at(arena, via, s)
                == id;
        assert(places.dom().contains(id)) by {
            reveal(shaped);
        }
    }
}

/// A live chunk is the end of a chain of links from the root.
pub proof fn lemma_live_is_reachable(
    arena: Seq<Chunk>,
    free: Set<u32>,
    root: u32,
    places: Map<int, Place>,
    id: int,
) -> (route: Seq<int>)
    requires
        shaped(arena, free, root, places),
        places.dom().contains(id),
    ensures
        is_route(arena, root, route),
        route.last() == id,
        reachable(arena, root, id),
    decreases places[id].region.depth,
{
    lemma_live(arena, free, root, places, id);
    if places[id].region.depth > 0 {
        let up = places[id].parent;
        lemma_live(arena, free, root, places, up);
        let shorter = lemma_live_is_reachable(arena, free, root, places, up);
        let route = shorter.push(id);
        assert(!is_block(link_at(arena, up, places[id].slot)));
        assert(linked(arena, up, id));
        assert forall|i: int| 0 < i < route.len() implies #[trigger] hop(arena, route, i) by {
            if i < shorter.len() {
                assert(hop(arena, shorter, i));
            }
        }
        assert(route[0] == shorter[0]);
        assert(route.last() == id);
        route
    } else {
        let route = seq![id];
        assert(route.last() == id);
        route
    }
}

} // verus!
