//! The tree is determined by what it holds: a region has a live chunk of its
//! own exactly when it is the whole lattice or holds two different block ids.

use crate::link::{block_of, is_block};
use crate::region::{
    lemma_part_injective, lemma_point_with_selector, lemma_region_above, lemma_region_step, part,
    point_selector, point_with_selector, region_of, Point, Region,
};
use crate::tree::{
    collapsed, lemma_live, lemma_lookup_from, lemma_root, lemma_walk_step, link_at, lookup, shaped,
    uniform, Chunk, Place,
};
use crate::update::lemma_place_injective;
use vstd::prelude::*;

verus! {

/// Whether the points `p` and `q` lie in `r` and the tree holds different
/// block ids at them.
pub open spec fn differ_in(arena: Seq<Chunk>, root: u32, r: Region, p: Point, q: Point) -> bool {
    &&& region_of(p, r.depth) == r
    &&& region_of(q, r.depth) == r
    &&& lookup(arena, root, 0, p) != lookup(arena, root, 0, q)
}

/// Whether the tree holds two different block ids in the region `r`.
pub open spec fn mixed(arena: Seq<Chunk>, root: u32, r: Region) -> bool {
    exists|p: Point, q: Point| differ_in(arena, root, r, p, q)
}

/// What the tree holds at the point of the part `s` of the region of chunk
/// `c` that `lemma_point_with_selector` gives: the block id of the link at `s`
/// where that link holds one.
proof fn lemma_part_holds(
    arena: Seq<Chunk>,
    free: Set<u32>,
    root: u32,
    places: Map<int, Place>,
    c: int,
    s: int,
) -> (p: Point)
    requires
        shaped(arena, free, root, places),
        places.dom().contains(c),
        0 <= s < 16,
        is_block(link_at(arena, c, s)),
    ensures
        region_of(p, places[c].region.depth) == places[c].region,
        lookup(arena, root, 0, p) == block_of(link_at(arena, c, s)),
{
    lemma_live(arena, free, root, places, c);
    let level = places[c].region.depth;
    let p = point_with_selector(places[c].rep, level, s);
    lemma_point_with_selector(places[c].rep, level, s);
    lemma_lookup_from(arena, free, root, places, c, p);
    lemma_walk_step(arena, free, root, places, c, p, level);
    p
}

/// The region of a live chunk other than the root holds two different block
/// ids.
pub proof fn lemma_live_is_mixed(
    arena: Seq<Chunk>,
    free: Set<u32>,
    root: u32,
    places: Map<int, Place>,
    c: int,
)
    requires
        shaped(arena, free, root, places),
        collapsed(arena, root, places),
        places.dom().contains(c),
        c != root,
    ensures
        mixed(arena, root, places[c].region),
    decreases 32 - places[c].region.depth,
{
    lemma_live(arena, free, root, places, c);
    let r = places[c].region;
    assert(!uniform(arena[c]));
    let s = choose|s: int| 0 <= s < 16 && #[trigger] arena[c].links@[s] != arena[c].links@[0];
    let t = if is_block(link_at(arena, c, s)) { 0int } else { s };
    if is_block(link_at(arena, c, t)) {
        let p = lemma_part_holds(arena, free, root, places, c, 0);
        let q = lemma_part_holds(arena, free, root, places, c, s);
        assert(differ_in(arena, root, r, p, q));
    } else {
        let k = link_at(arena, c, t) as int;
        assert(places.dom().contains(k) && places[k].region == part(r, t)) by {
            reveal(shaped);
        }
        lemma_live_is_mixed(arena, free, root, places, k);
        let (p, q) = choose|p: Point, q: Point| differ_in(arena, root, places[k].region, p, q);
        lemma_region_step(p, r.depth);
        lemma_region_step(q, r.depth);
        lemma_part_injective(region_of(p, r.depth), point_selector(p, r.depth), r, t);
        lemma_part_injective(region_of(q, r.depth), point_selector(q, r.depth), r, t);
        assert(differ_in(arena, root, r, p, q));
    }
}

/// Where the tree holds different block ids at two points of one region of
/// depth `depth`, every region of at most that depth that holds them has a
/// live chunk.
pub proof fn lemma_mixed_has_chunk(
    arena: Seq<Chunk>,
    free: Set<u32>,
    root: u32,
    places: Map<int, Place>,
    p: Point,
    q: Point,
    depth: nat,
    level: nat,
) -> (c: int)
    requires
        shaped(arena, free, root, places),
        level <= depth <= 32,
        region_of(p, depth) == region_of(q, depth),
        lookup(arena, root, 0, p) != lookup(arena, root, 0, q),
    ensures
        places.dom().contains(c),
        places[c].region == region_of(p, level),
    decreases level,
{
    lemma_root(arena, free, root, places);
    if level == 0 {
        root as int
    } else {
        let up = (level - 1) as nat;
        let above = lemma_mixed_has_chunk(arena, free, root, places, p, q, depth, up);
        lemma_region_above(p, q, depth, up);
        lemma_lookup_from(arena, free, root, places, above, p);
        lemma_lookup_from(arena, free, root, places, above, q);
        lemma_walk_step(arena, free, root, places, above, p, up);
        lemma_walk_step(arena, free, root, places, above, q, up);
        link_at(arena, above, point_selector(p, up)) as int
    }
}

/// The regions at which the live chunks stand.
pub open spec fn live_regions(places: Map<int, Place>) -> Set<Region> {
    places.dom().map(|c: int| places[c].region)
}

/// Every region with a live chunk in one tree has one in another tree that
/// holds the same block ids.
proof fn lemma_regions_carry_over(
    arena: Seq<Chunk>,
    free: Set<u32>,
    root: u32,
    places: Map<int, Place>,
    other: Seq<Chunk>,
    other_free: Set<u32>,
    other_root: u32,
    other_places: Map<int, Place>,
    r: Region,
)
    requires
        shaped(arena, free, root, places),
        collapsed(arena, root, places),
        shaped(other, other_free, other_root, other_places),
        forall|p: Point| lookup(arena, root, 0, p) == lookup(other, other_root, 0, p),
        live_regions(places).contains(r),
    ensures
        live_regions(other_places).contains(r),
{
    let c = choose|c: int| places.dom().contains(c) && r == places[c].region;
    lemma_root(arena, free, root, places);
    lemma_root(other, other_free, other_root, other_places);
    lemma_live(arena, free, root, places, c);
    if c == root {
        assert(other_places.dom().contains(other_root as int));
    } else {
        lemma_live_is_mixed(arena, free, root, places, c);
        let (p, q) = choose|p: Point, q: Point| differ_in(arena, root, r, p, q);
        let d = lemma_mixed_has_chunk(
            other,
            other_free,
            other_root,
            other_places,
            p,
            q,
            r.depth,
            r.depth,
        );
        assert(other_places.dom().contains(d) && r == other_places[d].region);
    }
}

/// The live chunks are as many as the arena has chunks beyond those of the
/// pool.
pub proof fn lemma_live_count(
    arena: Seq<Chunk>,
    free: Set<u32>,
    root: u32,
    places: Map<int, Place>,
)
    requires
        shaped(arena, free, root, places),
    ensures
        places.dom().finite(),
        places.dom().len() + free.len() == arena.len(),
{
    lemma_root(arena, free, root, places);
    let all = vstd::set_lib::set_int_range(0, arena.len() as int);
    let pool = free.map(|id: u32| id as int);
    vstd::set_lib::lemma_int_range(0, arena.len() as int);
    vstd::set_lib::lemma_map_size(free, pool, |id: u32| id as int);
    assert(places.dom().subset_of(all)) by {
        assert forall|c: int| places.dom().contains(c) implies all.contains(c) by {
            lemma_live(arena, free, root, places, c);
        }
    }
    vstd::set_lib::lemma_len_subset(places.dom(), all);
    assert(places.dom().disjoint(pool)) by {
        assert forall|c: int| places.dom().contains(c) implies !pool.contains(c) by {
            lemma_live(arena, free, root, places, c);
            if pool.contains(c) {
                let id = choose|id: u32| free.contains(id) && c == id as int;
                assert(free.contains(c as u32));
            }
        }
    }
    assert(places.dom() + pool =~= all) by {
        reveal(shaped);
        assert forall|c: int| all.contains(c) implies (places.dom() + pool).contains(c) by {
            if !places.dom().contains(c) {
                assert(free.contains(c as u32));
                assert(pool.contains(c));
            }
        }
    }
    vstd::set_lib::lemma_set_disjoint_lens(places.dom(), pool);
}

/// Two trees that hold the same block ids have equally many live chunks.
pub proof fn lemma_same_contents_same_count(
    arena: Seq<Chunk>,
    free: Set<u32>,
    root: u32,
    places: Map<int, Place>,
    other: Seq<Chunk>,
    other_free: Set<u32>,
    other_root: u32,
    other_places: Map<int, Place>,
)
    requires
        shaped(arena, free, root, places),
        collapsed(arena, root, places),
        shaped(other, other_free, other_root, other_places),
        collapsed(other, other_root, other_places),
        forall|p: Point| lookup(arena, root, 0, p) == lookup(other, other_root, 0, p),
    ensures
        places.dom().len() == other_places.dom().len(),
{
    lemma_live_count(arena, free, root, places);
    lemma_live_count(other, other_free, other_root, other_places);
    let here = live_regions(places);
    let there = live_regions(other_places);
    assert(here =~= there) by {
        assert forall|r: Region| here.contains(r) implies there.contains(r) by {
            lemma_regions_carry_over(
                arena,
                free,
                root,
                places,
                other,
                other_free,
                other_root,
                other_places,
                r,
            );
        }
        assert forall|r: Region| there.contains(r) implies here.contains(r) by {
            lemma_regions_carry_over(
                other,
                other_free,
                other_root,
                other_places,
                arena,
                free,
                root,
                places,
                r,
            );
        }
    }
    assert(vstd::relations::injective_on(|c: int| places[c].region, places.dom())) by {
        assert forall|a: int, b: int|
            places.dom().contains(a) && places.dom().contains(b) && places[a].region
                == places[b].region implies a == b by {
            lemma_place_injective(arena, free, root, places, a, b);
        }
    }
    assert(vstd::relations::injective_on(|c: int| other_places[c].region, other_places.dom()))
        by {
        assert forall|a: int, b: int|
            other_places.dom().contains(a) && other_places.dom().contains(b)
                && other_places[a].region == other_places[b].region implies a == b by {
            lemma_place_injective(other, other_free, other_root, other_places, a, b);
        }
    }
    vstd::set_lib::lemma_map_size(places.dom(), here, |c: int| places[c].region);
    vstd::set_lib::lemma_map_size(other_places.dom(), there, |c: int| other_places[c].region);
}

} // verus!
