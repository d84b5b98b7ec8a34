//! How the tree answers to a change: which lookups a rewritten link can
//! reach, and what each step of a write does to the shape of the tree and to
//! what it holds.

use crate::link::{block_link, is_block, BLOCK_BIT};
use crate::region::{
    lemma_part_injective, lemma_region_point, lemma_region_step, part, point_selector, region_of,
    Point,
};
use crate::tree::{
    chained, chunks_below, collapsed, collapsed_off, filled, lemma_live, lemma_lookup_from,
    lemma_root, lemma_walk_step, link_at, lookup, placed, shaped, uniform, Chunk, Place,
};
use vstd::prelude::*;

verus! {

/// Whether `next` has every link that the walk for `p` can read in `arena`.
pub open spec fn same_on_walk(
    arena: Seq<Chunk>,
    next: Seq<Chunk>,
    places: Map<int, Place>,
    p: Point,
) -> bool {
    forall|c: int|
        #![trigger places.dom().contains(c)]
        places.dom().contains(c) && places[c].region == region_of(p, places[c].region.depth) ==> {
            &&& c < next.len()
            &&& link_at(next, c, point_selector(p, places[c].region.depth)) == link_at(
                arena,
                c,
                point_selector(p, places[c].region.depth),
            )
        }
}

/// Whether `next` has the chunks of `arena` but for the two at `a` and `b`.
pub open spec fn same_except(arena: Seq<Chunk>, next: Seq<Chunk>, a: int, b: int) -> bool {
    forall|c: int|
        0 <= c < arena.len() && c != a && c != b ==> c < next.len() && #[trigger] next[c]
            == arena[c]
}

/// A walk finds the same in two arenas that agree on every link it can read.
pub proof fn lemma_frame(
    arena: Seq<Chunk>,
    free: Set<u32>,
    root: u32,
    places: Map<int, Place>,
    next: Seq<Chunk>,
    link: u32,
    level: nat,
    p: Point,
)
    requires
        shaped(arena, free, root, places),
        same_on_walk(arena, next, places, p),
        is_block(link) || (places.dom().contains(link as int) && places[link as int].region
            == region_of(p, level)),
    ensures
        lookup(next, link, level, p) == lookup(arena, link, level, p),
        chunks_below(next, link, level, p) == chunks_below(arena, link, level, p),
    decreases 32 - level,
{
    if !is_block(link) {
        lemma_walk_step(arena, free, root, places, link as int, p, level);
        let down = link_at(arena, link as int, point_selector(p, level));
        assert(places.dom().contains(link as int));
        assert(link_at(next, link as int, point_selector(p, level)) == down);
        lemma_frame(arena, free, root, places, next, down, level + 1, p);
    }
}

/// A live chunk with sixteen equal links holds block ids only.
pub proof fn lemma_uniform_has_blocks(
    arena: Seq<Chunk>,
    free: Set<u32>,
    root: u32,
    places: Map<int, Place>,
    c: int,
)
    requires
        shaped(arena, free, root, places),
        places.dom().contains(c),
        uniform(arena[c]),
    ensures
        is_block(link_at(arena, c, 0)),
        filled(arena[c], link_at(arena, c, 0)),
{
    reveal(shaped);
    let first = link_at(arena, c, 0);
    assert(arena[c].links@[1] == arena[c].links@[0]);
    if !is_block(first) {
        assert(link_at(arena, c, 1) == first);
        lemma_part_injective(places[c].region, 0, places[c].region, 1);
    }
}

/// No two live chunks stand at the same region.
pub proof fn lemma_place_injective(
    arena: Seq<Chunk>,
    free: Set<u32>,
    root: u32,
    places: Map<int, Place>,
    a: int,
    b: int,
)
    requires
        shaped(arena, free, root, places),
        places.dom().contains(a),
        places.dom().contains(b),
        places[a].region == places[b].region,
    ensures
        a == b,
    decreases places[a].region.depth,
{
    reveal(shaped);
    assert(placed(arena, root, places, a));
    assert(placed(arena, root, places, b));
    if places[a].region.depth > 0 {
        lemma_part_injective(
            places[places[a].parent].region,
            places[a].slot,
            places[places[b].parent].region,
            places[b].slot,
        );
        lemma_place_injective(arena, free, root, places, places[a].parent, places[b].parent);
    }
}

/// The placement after the chunk `n` has been put below `c` for the point `p`.
pub open spec fn places_with(
    places: Map<int, Place>,
    c: int,
    p: Point,
    level: nat,
    n: int,
) -> Map<int, Place> {
    places.insert(
        n,
        Place {
            region: region_of(p, level + 1),
            parent: c,
            slot: point_selector(p, level),
            rep: p,
        },
    )
}

/// What the tree holds at `q` is the same before and after a block id has
/// been pushed one level down.
proof fn lemma_materialize_keeps(
    arena: Seq<Chunk>,
    free: Set<u32>,
    root: u32,
    places: Map<int, Place>,
    next: Seq<Chunk>,
    next_free: Set<u32>,
    c: int,
    p: Point,
    level: nat,
    n: int,
    q: Point,
)
    requires
        shaped(arena, free, root, places),
        shaped(next, next_free, root, places_with(places, c, p, level, n)),
        places.dom().contains(c),
        !places.dom().contains(n),
        places[c].region == region_of(p, level),
        level <= 30,
        is_block(link_at(arena, c, point_selector(p, level))),
        0 <= n < next.len(),
        arena.len() <= next.len(),
        filled(next[n], link_at(arena, c, point_selector(p, level))),
        same_except(arena, next, c, n),
        next[c].links@ == arena[c].links@.update(point_selector(p, level), n as u32),
    ensures
        lookup(next, root, 0, q) == lookup(arena, root, 0, q),
{
    let s = point_selector(p, level);
    let after = places_with(places, c, p, level, n);
    lemma_region_step(p, level);
    lemma_region_step(q, level);
    lemma_region_step(q, level + 1);
    if region_of(q, level + 1) == region_of(p, level + 1) {
        lemma_part_injective(region_of(q, level), point_selector(q, level), region_of(p, level), s);
        lemma_lookup_from(arena, free, root, places, c, q);
        lemma_walk_step(arena, free, root, places, c, q, level);
        assert(after.dom().contains(n));
        lemma_lookup_from(next, next_free, root, after, n, q);
        lemma_walk_step(next, next_free, root, after, n, q, level + 1);
        assert(link_at(next, n, point_selector(q, level + 1)) == link_at(arena, c, s));
    } else {
        assert forall|d: int|
            #![trigger places.dom().contains(d)]
            places.dom().contains(d) && places[d].region == region_of(
                q,
                places[d].region.depth,
            ) implies d < next.len() && link_at(next, d, point_selector(q, places[d].region.depth))
            == link_at(arena, d, point_selector(q, places[d].region.depth)) by {
            lemma_live(arena, free, root, places, d);
            if d != c {
                assert(next[d] == arena[d]);
            }
        }
        lemma_live(arena, free, root, places, c);
        lemma_frame(arena, free, root, places, next, root, 0, q);
    }
}

/// Pushing a block id one level down: the link of `c` that the walk for `p`
/// reads held a block id; it now leads to the chunk `n`, taken from the pool
/// or appended to the arena, whose sixteen links hold that block id. The tree
/// keeps its shape with `n` placed below `c`, and holds what it held.
pub proof fn lemma_materialize(
    arena: Seq<Chunk>,
    free: Set<u32>,
    root: u32,
    places: Map<int, Place>,
    next: Seq<Chunk>,
    next_free: Set<u32>,
    c: int,
    p: Point,
    level: nat,
    n: int,
)
    requires
        shaped(arena, free, root, places),
        places.dom().contains(c),
        places[c].region == region_of(p, level),
        level <= 30,
        is_block(link_at(arena, c, point_selector(p, level))),
        0 <= n < next.len() <= BLOCK_BIT,
        (free.contains(n as u32) && next.len() == arena.len() && next_free == free.remove(n as u32))
            || (n == arena.len() && next.len() == arena.len() + 1 && next_free == free),
        filled(next[n], link_at(arena, c, point_selector(p, level))),
        same_except(arena, next, c, n),
        next[c].links@ == arena[c].links@.update(point_selector(p, level), n as u32),
    ensures
        shaped(next, next_free, root, places_with(places, c, p, level, n)),
        !places.dom().contains(n),
        forall|q: Point| lookup(next, root, 0, q) == #[trigger] lookup(arena, root, 0, q),
        !uniform(next[c]),
        uniform(next[n]),
        chunks_below(next, n as u32, level + 1, p) == 1,
{
    reveal(shaped);
    let s = point_selector(p, level);
    let old_link = link_at(arena, c, s);
    let after = places_with(places, c, p, level, n);
    lemma_region_step(p, level);
    lemma_region_step(p, level + 1);
    assert(placed(arena, root, places, c));
    assert(!places.dom().contains(n));
    assert(c != n);
    assert(link_at(next, c, s) == n as u32);
    assert(forall|t: int| 0 <= t < 16 ==> link_at(next, n, t) == old_link);
    assert forall|d: int| #[trigger] after.dom().contains(d) implies 0 <= d < next.len()
        && !next_free.contains(d as u32) && placed(next, root, after, d) by {
        if d != n {
            assert(places.dom().contains(d));
            assert(placed(arena, root, places, d));
            let up = places[d].parent;
            if places[d].region.depth > 0 {
                assert(places.dom().contains(up));
                assert(link_at(arena, up, places[d].slot) == d as u32);
                if up == c {
                    assert(places[d].slot != s);
                } else {
                    assert(next[up] == arena[up]);
                }
            }
        }
    }
    assert forall|d: int, t: int|
        after.dom().contains(d) && 0 <= t < 16 && !is_block(
            #[trigger] link_at(next, d, t),
        ) implies ({
        let k = link_at(next, d, t) as int;
        after.dom().contains(k) && after[k].region == part(after[d].region, t)
    }) by {
        if d == n {
        } else if d == c {
            if t != s {
                assert(link_at(next, d, t) == link_at(arena, d, t));
            }
        } else {
            assert(places.dom().contains(d));
            assert(next[d] == arena[d]);
            assert(link_at(next, d, t) == link_at(arena, d, t));
        }
    }
    assert forall|d: int| 0 <= d < next.len() implies #[trigger] after.dom().contains(d)
        || next_free.contains(d as u32) by {
        if d != n {
            assert(places.dom().contains(d) || free.contains(d as u32));
        }
    }
    assert(shaped(next, next_free, root, after));
    assert(!uniform(next[c])) by {
        let t = if s == 0 { 1int } else { 0int };
        assert(link_at(next, c, t) == link_at(arena, c, t));
        if !is_block(link_at(arena, c, t)) {
            assert(places.dom().contains(link_at(arena, c, t) as int));
        }
        assert(next[c].links@[t] != next[c].links@[s]);
    }
    assert(chunks_below(next, n as u32, level + 1, p) == 1) by {
        let down = link_at(next, n, point_selector(p, level + 1));
        assert(is_block(down));
        assert(chunks_below(next, down, level + 2, p) == 0);
    }
    assert forall|q: Point| lookup(next, root, 0, q) == #[trigger] lookup(arena, root, 0, q) by {
        lemma_materialize_keeps(arena, free, root, places, next, next_free, c, p, level, n, q);
    }
}

/// The walk grows by the chunk that its last entry leads to.
pub proof fn lemma_walk_extends(
    arena: Seq<Chunk>,
    root: u32,
    places: Map<int, Place>,
    entries: Seq<(u32, usize)>,
    entry: (u32, usize),
)
    requires
        chained(arena, root, places, entries),
        collapsed_off(arena, root, places, entries),
        entries.len() > 0,
        places.dom().contains(entry.0 as int),
        places[entry.0 as int].region.depth == entries.len(),
        entry.1 < 16,
        link_at(arena, entries.last().0 as int, entry.1 as int) == entry.0,
    ensures
        chained(arena, root, places, entries.push(entry)),
        collapsed_off(arena, root, places, entries.push(entry)),
{
    let longer = entries.push(entry);
    assert forall|j: int| #![trigger longer[j]] 0 <= j < longer.len() implies {
        &&& places.dom().contains(longer[j].0 as int)
        &&& places[longer[j].0 as int].region.depth == j
        &&& j > 0 ==> {
            &&& longer[j].1 < 16
            &&& link_at(arena, longer[j - 1].0 as int, longer[j].1 as int) == longer[j].0
        }
    } by {
        if j < entries.len() {
            assert(longer[j] == entries[j]);
            if j > 0 {
                assert(longer[j - 1] == entries[j - 1]);
            }
        } else {
            assert(longer[j - 1] == entries[j - 1]);
        }
    }
    assert(longer[0] == entries[0]);
    assert forall|c: int|
        #![trigger places.dom().contains(c)]
        places.dom().contains(c) && c != root && uniform(arena[c]) implies places[c].region.depth
        < longer.len() && longer[places[c].region.depth as int].0 == c by {
        assert(longer[places[c].region.depth as int] == entries[places[c].region.depth as int]);
    }
}

/// The walk grows by the chunk that was put below its last entry.
pub proof fn lemma_walk_materialized(
    arena: Seq<Chunk>,
    free: Set<u32>,
    root: u32,
    places: Map<int, Place>,
    next: Seq<Chunk>,
    c: int,
    p: Point,
    level: nat,
    n: int,
    entries: Seq<(u32, usize)>,
)
    requires
        shaped(arena, free, root, places),
        chained(arena, root, places, entries),
        collapsed_off(arena, root, places, entries),
        entries.len() == level + 1,
        entries.last().0 == c,
        level <= 30,
        0 <= n < next.len() <= BLOCK_BIT,
        arena.len() <= next.len(),
        !places.dom().contains(n),
        same_except(arena, next, c, n),
        next[c].links@ == arena[c].links@.update(point_selector(p, level), n as u32),
        !uniform(next[c]),
    ensures
        chained(
            next,
            root,
            places_with(places, c, p, level, n),
            entries.push((n as u32, point_selector(p, level) as usize)),
        ),
        collapsed_off(
            next,
            root,
            places_with(places, c, p, level, n),
            entries.push((n as u32, point_selector(p, level) as usize)),
        ),
{
    let after = places_with(places, c, p, level, n);
    let s = point_selector(p, level);
    let longer = entries.push((n as u32, s as usize));
    lemma_region_step(p, level);
    assert(entries[level as int].0 == c);
    assert forall|j: int| #![trigger longer[j]] 0 <= j < longer.len() implies {
        &&& after.dom().contains(longer[j].0 as int)
        &&& after[longer[j].0 as int].region.depth == j
        &&& j > 0 ==> {
            &&& longer[j].1 < 16
            &&& link_at(next, longer[j - 1].0 as int, longer[j].1 as int) == longer[j].0
        }
    } by {
        if j < entries.len() {
            assert(longer[j] == entries[j]);
            if j > 0 {
                assert(longer[j - 1] == entries[j - 1]);
                let up = entries[j - 1].0 as int;
                lemma_live(arena, free, root, places, up);
                assert(next[up] == arena[up]);
            }
        } else {
            assert(longer[j - 1] == entries[j - 1]);
        }
    }
    assert(longer[0] == entries[0]);
    assert forall|d: int|
        #![trigger after.dom().contains(d)]
        after.dom().contains(d) && d != root && uniform(next[d]) implies after[d].region.depth
        < longer.len() && longer[after[d].region.depth as int].0 == d by {
        if d != n {
            lemma_live(arena, free, root, places, d);
            assert(next[d] == arena[d]);
            assert(places.dom().contains(d));
            assert(longer[places[d].region.depth as int] == entries[places[d].region.depth as int]);
        }
    }
}

/// What the tree holds at `q` once the bottom chunk `c` on the walk for `p`
/// has the block id `block_id` written into the link that `p` selects.
proof fn lemma_write_leaf_at(
    arena: Seq<Chunk>,
    free: Set<u32>,
    root: u32,
    places: Map<int, Place>,
    next: Seq<Chunk>,
    c: int,
    p: Point,
    block_id: u32,
    q: Point,
)
    requires
        shaped(arena, free, root, places),
        shaped(next, free, root, places),
        places.dom().contains(c),
        places[c].region == region_of(p, 31),
        block_id < BLOCK_BIT,
        next.len() == arena.len(),
        same_except(arena, next, c, c),
        next[c].links@ == arena[c].links@.update(point_selector(p, 31), block_link(block_id)),
    ensures
        lookup(next, root, 0, q) == if q == p {
            block_id
        } else {
            lookup(arena, root, 0, q)
        },
{
    let s = point_selector(p, 31);
    lemma_region_step(p, 31);
    lemma_region_step(q, 31);
    lemma_region_point(p, q);
    lemma_live(arena, free, root, places, c);
    if region_of(q, 31) == region_of(p, 31) && point_selector(q, 31) == s {
        lemma_lookup_from(next, free, root, places, c, q);
        lemma_walk_step(next, free, root, places, c, q, 31);
        assert(link_at(next, c, s) == block_link(block_id));
    } else {
        if q == p {
            assert(false);
        }
        assert forall|d: int|
            #![trigger places.dom().contains(d)]
            places.dom().contains(d) && places[d].region == region_of(
                q,
                places[d].region.depth,
            ) implies d < next.len() && link_at(next, d, point_selector(q, places[d].region.depth))
            == link_at(arena, d, point_selector(q, places[d].region.depth)) by {
            lemma_live(arena, free, root, places, d);
            if d != c {
                assert(next[d] == arena[d]);
            }
        }
        lemma_root(arena, free, root, places);
        lemma_frame(arena, free, root, places, next, root, 0, q);
    }
}

/// Writing a block id at the bottom: the chunk `c` stands at depth 31 on the
/// walk for `p`, and the link that `p` selects there now holds `block_id`. The
/// tree keeps its shape and its placement, holds `block_id` at `p`, and holds
/// at every other point what it held.
pub proof fn lemma_write_leaf(
    arena: Seq<Chunk>,
    free: Set<u32>,
    root: u32,
    places: Map<int, Place>,
    next: Seq<Chunk>,
    c: int,
    p: Point,
    block_id: u32,
)
    requires
        shaped(arena, free, root, places),
        places.dom().contains(c),
        places[c].region == region_of(p, 31),
        block_id < BLOCK_BIT,
        next.len() == arena.len(),
        same_except(arena, next, c, c),
        next[c].links@ == arena[c].links@.update(point_selector(p, 31), block_link(block_id)),
    ensures
        shaped(next, free, root, places),
        forall|q: Point|
            #[trigger] lookup(next, root, 0, q) == if q == p {
                block_id
            } else {
                lookup(arena, root, 0, q)
            },
{
    let s = point_selector(p, 31);
    lemma_region_step(p, 31);
    assert(shaped(next, free, root, places)) by {
        reveal(shaped);
        assert(placed(arena, root, places, c));
        assert forall|d: int| #[trigger] places.dom().contains(d) implies placed(
            next,
            root,
            places,
            d,
        ) by {
            assert(placed(arena, root, places, d));
            let up = places[d].parent;
            if places[d].region.depth > 0 {
                assert(places.dom().contains(up));
                if up == c {
                    assert(placed(arena, root, places, up));
                } else {
                    assert(next[up] == arena[up]);
                }
            }
        }
        assert forall|d: int, t: int|
            places.dom().contains(d) && 0 <= t < 16 && !is_block(
                #[trigger] link_at(next, d, t),
            ) implies ({
            let k = link_at(next, d, t) as int;
            places.dom().contains(k) && places[k].region == part(places[d].region, t)
        }) by {
            if d == c {
                assert(t != s);
                assert(link_at(next, d, t) == link_at(arena, d, t));
            } else {
                assert(next[d] == arena[d]);
                assert(link_at(next, d, t) == link_at(arena, d, t));
            }
        }
    }
    assert forall|q: Point|
        #[trigger] lookup(next, root, 0, q) == if q == p {
            block_id
        } else {
            lookup(arena, root, 0, q)
        } by {
        lemma_write_leaf_at(arena, free, root, places, next, c, p, block_id, q);
    }
}

/// The chunk `id`, whose sixteen links are equal, hangs below `up` at `slot`:
/// `up` is its parent in the placement, and its links hold a block id.
pub proof fn lemma_parent(
    arena: Seq<Chunk>,
    free: Set<u32>,
    root: u32,
    places: Map<int, Place>,
    id: int,
    up: int,
    slot: int,
)
    requires
        shaped(arena, free, root, places),
        places.dom().contains(up),
        0 <= slot < 16,
        !is_block(link_at(arena, up, slot)),
        link_at(arena, up, slot) == id,
    ensures
        places.dom().contains(id),
        places[id].region == part(places[up].region, slot),
        places[id].parent == up,
        places[id].slot == slot,
        id != root,
        id != up,
{
    assert(places.dom().contains(id) && places[id].region == part(places[up].region, slot)) by {
        reveal(shaped);
    }
    lemma_live(arena, free, root, places, id);
    let above = places[id].parent;
    lemma_part_injective(places[above].region, places[id].slot, places[up].region, slot);
    lemma_place_injective(arena, free, root, places, above, up);
}

/// What the tree holds at `q` is the same before and after a chunk with
/// sixteen equal links has been folded into the link that led to it.
proof fn lemma_collapse_keeps(
    arena: Seq<Chunk>,
    free: Set<u32>,
    root: u32,
    places: Map<int, Place>,
    next: Seq<Chunk>,
    next_free: Set<u32>,
    id: int,
    up: int,
    slot: int,
    q: Point,
)
    requires
        shaped(arena, free, root, places),
        shaped(next, next_free, root, places.remove(id)),
        places.dom().contains(up),
        0 <= slot < 16,
        !is_block(link_at(arena, up, slot)),
        link_at(arena, up, slot) == id,
        uniform(arena[id]),
        next.len() == arena.len(),
        same_except(arena, next, up, up),
        next[up].links@ == arena[up].links@.update(slot, link_at(arena, id, 0)),
    ensures
        lookup(next, root, 0, q) == lookup(arena, root, 0, q),
{
    lemma_parent(arena, free, root, places, id, up, slot);
    lemma_uniform_has_blocks(arena, free, root, places, id);
    lemma_live(arena, free, root, places, up);
    lemma_live(arena, free, root, places, id);
    let level = places[up].region.depth;
    let after = places.remove(id);
    lemma_region_step(q, level);
    if places[up].region == region_of(q, level) && point_selector(q, level) == slot {
        lemma_lookup_from(arena, free, root, places, id, q);
        lemma_walk_step(arena, free, root, places, id, q, level + 1);
        assert(after.dom().contains(up));
        lemma_lookup_from(next, next_free, root, after, up, q);
        lemma_walk_step(next, next_free, root, after, up, q, level);
        assert(link_at(next, up, slot) == link_at(arena, id, 0));
    } else {
        assert forall|d: int|
            #![trigger places.dom().contains(d)]
            places.dom().contains(d) && places[d].region == region_of(
                q,
                places[d].region.depth,
            ) implies d < next.len() && link_at(next, d, point_selector(q, places[d].region.depth))
            == link_at(arena, d, point_selector(q, places[d].region.depth)) by {
            lemma_live(arena, free, root, places, d);
            if d != up {
                assert(next[d] == arena[d]);
            }
        }
        lemma_root(arena, free, root, places);
        lemma_frame(arena, free, root, places, next, root, 0, q);
    }
}

/// Folding a chunk away: the chunk `id`, below `up` at `slot`, has sixteen
/// equal links; that link of `up` now holds their common word, and `id` is in
/// the pool. The tree keeps its shape without `id`, and holds what it held.
pub proof fn lemma_collapse(
    arena: Seq<Chunk>,
    free: Set<u32>,
    root: u32,
    places: Map<int, Place>,
    next: Seq<Chunk>,
    next_free: Set<u32>,
    id: int,
    up: int,
    slot: int,
)
    requires
        shaped(arena, free, root, places),
        places.dom().contains(up),
        0 <= slot < 16,
        !is_block(link_at(arena, up, slot)),
        link_at(arena, up, slot) == id,
        uniform(arena[id]),
        next.len() == arena.len(),
        same_except(arena, next, up, up),
        next[up].links@ == arena[up].links@.update(slot, link_at(arena, id, 0)),
        next_free == free.insert(id as u32),
    ensures
        shaped(next, next_free, root, places.remove(id)),
        places.dom().contains(id),
        id != root,
        id != up,
        forall|q: Point| lookup(next, root, 0, q) == #[trigger] lookup(arena, root, 0, q),
{
    lemma_parent(arena, free, root, places, id, up, slot);
    lemma_uniform_has_blocks(arena, free, root, places, id);
    lemma_live(arena, free, root, places, up);
    lemma_live(arena, free, root, places, id);
    lemma_root(arena, free, root, places);
    let after = places.remove(id);
    let first = link_at(arena, id, 0);
    assert(forall|t: int| 0 <= t < 16 ==> link_at(arena, id, t) == first);
    assert forall|d: int| #[trigger] after.dom().contains(d) implies 0 <= d < next.len()
        && !next_free.contains(d as u32) && placed(next, root, after, d) by {
        lemma_live(arena, free, root, places, d);
        let above = places[d].parent;
        if places[d].region.depth > 0 {
            lemma_live(arena, free, root, places, above);
            assert(link_at(arena, above, places[d].slot) == d as u32);
            assert(above != id);
            if above != up {
                assert(next[above] == arena[above]);
            }
        }
    }
    assert forall|d: int, t: int|
        after.dom().contains(d) && 0 <= t < 16 && !is_block(
            #[trigger] link_at(next, d, t),
        ) implies ({
        let k = link_at(next, d, t) as int;
        after.dom().contains(k) && after[k].region == part(after[d].region, t)
    }) by {
        lemma_live(arena, free, root, places, d);
        if d == up && t == slot {
        } else {
            if d != up {
                assert(next[d] == arena[d]);
            }
            assert(link_at(next, d, t) == link_at(arena, d, t));
            lemma_parent(arena, free, root, places, link_at(arena, d, t) as int, d, t);
        }
    }
    assert(shaped(next, next_free, root, after)) by {
        reveal(shaped);
    }
    assert forall|q: Point| lookup(next, root, 0, q) == #[trigger] lookup(arena, root, 0, q) by {
        lemma_collapse_keeps(arena, free, root, places, next, next_free, id, up, slot, q);
    }
}

/// The walk stays a walk when a block id is written into its last chunk, at
/// depth 31.
pub proof fn lemma_walk_written(
    arena: Seq<Chunk>,
    free: Set<u32>,
    root: u32,
    places: Map<int, Place>,
    next: Seq<Chunk>,
    entries: Seq<(u32, usize)>,
)
    requires
        shaped(arena, free, root, places),
        chained(arena, root, places, entries),
        collapsed_off(arena, root, places, entries),
        entries.len() == 32,
        next.len() == arena.len(),
        same_except(arena, next, entries.last().0 as int, entries.last().0 as int),
    ensures
        chained(next, root, places, entries),
        collapsed_off(next, root, places, entries),
{
    let bottom = entries.last().0 as int;
    assert forall|j: int| #![trigger entries[j]] 0 <= j < entries.len() implies {
        &&& places.dom().contains(entries[j].0 as int)
        &&& places[entries[j].0 as int].region.depth == j
        &&& j > 0 ==> {
            &&& entries[j].1 < 16
            &&& link_at(next, entries[j - 1].0 as int, entries[j].1 as int) == entries[j].0
        }
    } by {
        if j > 0 {
            let above = entries[j - 1].0 as int;
            lemma_live(arena, free, root, places, above);
            assert(next[above] == arena[above]);
        }
    }
    assert forall|d: int|
        #![trigger places.dom().contains(d)]
        places.dom().contains(d) && d != root && uniform(next[d]) implies places[d].region.depth
        < entries.len() && entries[places[d].region.depth as int].0 == d by {
        lemma_live(arena, free, root, places, d);
        if d != bottom {
            assert(next[d] == arena[d]);
        } else {
            assert(entries[31].0 == d);
        }
    }
}

/// Once the last entry of the walk is the root or has two different links, no
/// live chunk but the root has sixteen equal links.
pub proof fn lemma_settled(
    arena: Seq<Chunk>,
    free: Set<u32>,
    root: u32,
    places: Map<int, Place>,
    entries: Seq<(u32, usize)>,
)
    requires
        shaped(arena, free, root, places),
        chained(arena, root, places, entries),
        collapsed_off(arena, root, places, entries),
        entries.len() >= 1,
        entries.len() == 1 || !uniform(arena[entries.last().0 as int]),
    ensures
        collapsed(arena, root, places),
{
    assert forall|c: int| #[trigger] places.dom().contains(c) && c != root implies !uniform(
        arena[c],
    ) by {
        if uniform(arena[c]) {
            let j = places[c].region.depth as int;
            assert(entries[j].0 == c);
            assert(j + 1 < entries.len());
            let below = entries[j + 1];
            assert(link_at(arena, c, below.1 as int) == below.0);
            lemma_live(arena, free, root, places, below.0 as int);
            lemma_uniform_has_blocks(arena, free, root, places, c);
        }
    }
}

/// The walk shrinks by its last entry when that chunk has been folded away.
pub proof fn lemma_walk_shrinks(
    arena: Seq<Chunk>,
    free: Set<u32>,
    root: u32,
    places: Map<int, Place>,
    next: Seq<Chunk>,
    entries: Seq<(u32, usize)>,
)
    requires
        shaped(arena, free, root, places),
        chained(arena, root, places, entries),
        collapsed_off(arena, root, places, entries),
        entries.len() >= 2,
        next.len() == arena.len(),
        same_except(
            arena,
            next,
            entries[entries.len() - 2].0 as int,
            entries[entries.len() - 2].0 as int,
        ),
    ensures
        chained(next, root, places.remove(entries.last().0 as int), entries.drop_last()),
        collapsed_off(next, root, places.remove(entries.last().0 as int), entries.drop_last()),
{
    let id = entries.last().0 as int;
    let up = entries[entries.len() - 2].0 as int;
    let after = places.remove(id);
    let shorter = entries.drop_last();
    assert forall|j: int| #![trigger shorter[j]] 0 <= j < shorter.len() implies {
        &&& after.dom().contains(shorter[j].0 as int)
        &&& after[shorter[j].0 as int].region.depth == j
        &&& j > 0 ==> {
            &&& shorter[j].1 < 16
            &&& link_at(next, shorter[j - 1].0 as int, shorter[j].1 as int) == shorter[j].0
        }
    } by {
        assert(shorter[j] == entries[j]);
        if j > 0 {
            assert(shorter[j - 1] == entries[j - 1]);
            let above = entries[j - 1].0 as int;
            lemma_live(arena, free, root, places, above);
            assert(next[above] == arena[above]);
        }
    }
    assert(shorter[0] == entries[0]);
    assert forall|d: int|
        #![trigger after.dom().contains(d)]
        after.dom().contains(d) && d != root && uniform(next[d]) implies after[d].region.depth
        < shorter.len() && shorter[after[d].region.depth as int].0 == d by {
        if d == up {
            assert(shorter[entries.len() - 2] == entries[entries.len() - 2]);
        } else {
            lemma_live(arena, free, root, places, d);
            assert(next[d] == arena[d]);
            assert(places.dom().contains(d));
            let j = places[d].region.depth as int;
            assert(entries[j].0 == d);
            assert(shorter[j] == entries[j]);
        }
    }
}

/// Trimming: the arena has lost chunks at its end, all of them free, and the
/// pool has lost their ids. The tree keeps its shape and its placement, and
/// holds what it held.
pub proof fn lemma_trim(
    arena: Seq<Chunk>,
    free: Set<u32>,
    root: u32,
    places: Map<int, Place>,
    next: Seq<Chunk>,
    next_free: Set<u32>,
)
    requires
        shaped(arena, free, root, places),
        1 <= next.len() <= arena.len(),
        next == arena.take(next.len() as int),
        forall|id: u32| next_free.contains(id) <==> free.contains(id) && id < next.len(),
        forall|id: u32| next.len() <= id < arena.len() ==> free.contains(id),
    ensures
        shaped(next, next_free, root, places),
        forall|c: int|
            #[trigger] places.dom().contains(c) ==> c < next.len() && next[c] == arena[c],
        forall|q: Point| lookup(next, root, 0, q) == #[trigger] lookup(arena, root, 0, q),
{
    lemma_root(arena, free, root, places);
    assert forall|c: int| #[trigger] places.dom().contains(c) implies c < next.len() && next[c]
        == arena[c] by {
        lemma_live(arena, free, root, places, c);
        if c >= next.len() {
            assert(free.contains(c as u32));
        }
    }
    assert(next_free.subset_of(free));
    vstd::set_lib::lemma_len_subset(next_free, free);
    assert(shaped(next, next_free, root, places)) by {
        reveal(shaped);
        assert forall|c: int| #[trigger] places.dom().contains(c) implies placed(
            next,
            root,
            places,
            c,
        ) by {
            assert(placed(arena, root, places, c));
        }
        assert forall|c: int, t: int|
            places.dom().contains(c) && 0 <= t < 16 && !is_block(
                #[trigger] link_at(next, c, t),
            ) implies ({
            let k = link_at(next, c, t) as int;
            places.dom().contains(k) && places[k].region == part(places[c].region, t)
        }) by {
            assert(link_at(next, c, t) == link_at(arena, c, t));
        }
    }
    assert forall|q: Point| lookup(next, root, 0, q) == #[trigger] lookup(arena, root, 0, q) by {
        lemma_frame(arena, free, root, places, next, root, 0, q);
    }
}

} // verus!
