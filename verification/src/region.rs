//! The geometry of the lattice: points, the aligned regions that the levels
//! of the tree cut it into, and how a selector leads from a region to one of
//! its sixteen parts.

use crate::link::{axis_bit, selector};
use vstd::prelude::*;

verus! {

/// A point of the lattice.
pub struct Point {
    pub x: u32,
    pub y: u32,
    pub z: u32,
    pub w: u32,
}

/// An aligned region: the points that share the leading `depth` bits of every
/// coordinate, given as numbers.
pub struct Region {
    pub depth: nat,
    pub x: int,
    pub y: int,
    pub z: int,
    pub w: int,
}

/// The leading `depth` bits of a coordinate, as a number.
pub open spec fn axis_prefix(v: u32, depth: nat) -> int {
    if depth == 0 {
        0
    } else if depth >= 32 {
        v as int
    } else {
        (v >> ((32 - depth) as u32)) as int
    }
}

/// The selector of a point at `level`.
pub open spec fn point_selector(p: Point, level: nat) -> int {
    selector(p.x, p.y, p.z, p.w, level)
}

/// The region of depth `depth` that holds `p`.
pub open spec fn region_of(p: Point, depth: nat) -> Region {
    Region {
        depth,
        x: axis_prefix(p.x, depth),
        y: axis_prefix(p.y, depth),
        z: axis_prefix(p.z, depth),
        w: axis_prefix(p.w, depth),
    }
}

/// The whole lattice.
pub open spec fn whole() -> Region {
    Region { depth: 0, x: 0, y: 0, z: 0, w: 0 }
}

/// The part of `r` that the selector `s` picks.
pub open spec fn part(r: Region, s: int) -> Region {
    Region {
        depth: r.depth + 1,
        x: 2 * r.x + s % 2,
        y: 2 * r.y + (s / 2) % 2,
        z: 2 * r.z + (s / 4) % 2,
        w: 2 * r.w + (s / 8) % 2,
    }
}

/// One more bit of a coordinate extends its prefix by that bit.
pub proof fn lemma_axis_step(v: u32, depth: nat)
    requires
        depth < 32,
    ensures
        axis_prefix(v, depth + 1) == 2 * axis_prefix(v, depth) + axis_bit(v, depth),
        0 <= axis_bit(v, depth) <= 1,
{
    let d: u32 = depth as u32;
    let lo: u32 = (31 - d) as u32;
    assert(((v >> lo) & 1) <= 1) by (bit_vector);
    if depth == 0 {
        assert((v >> 31u32) == ((v >> 31u32) & 1)) by (bit_vector);
    } else if depth == 31 {
        assert(v == 2 * (v >> 1u32) + ((v >> 0u32) & 1)) by (bit_vector);
        assert((v >> 0u32) == v) by (bit_vector);
    } else {
        let hi: u32 = (32 - d) as u32;
        assert(0 < lo < 31 && hi == lo + 1 ==> (v >> lo) == 2 * (v >> hi) + ((v >> lo) & 1))
            by (bit_vector);
    }
}

/// The region of a point one level down is the part of its region that its
/// selector picks.
pub proof fn lemma_region_step(p: Point, depth: nat)
    requires
        depth < 32,
    ensures
        region_of(p, depth + 1) == part(region_of(p, depth), point_selector(p, depth)),
        0 <= point_selector(p, depth) < 16,
{
    lemma_axis_step(p.x, depth);
    lemma_axis_step(p.y, depth);
    lemma_axis_step(p.z, depth);
    lemma_axis_step(p.w, depth);
}

/// A part determines the region it was cut from and the selector that picks it.
pub proof fn lemma_part_injective(r1: Region, s1: int, r2: Region, s2: int)
    requires
        0 <= s1 < 16,
        0 <= s2 < 16,
        part(r1, s1) == part(r2, s2),
    ensures
        r1 == r2,
        s1 == s2,
{
}

/// The regions of depth 32 are the single points.
pub proof fn lemma_region_point(p: Point, q: Point)
    ensures
        region_of(p, 32) == region_of(q, 32) <==> p == q,
{
}

/// The coordinate `v` with the bit that `level` consumes set to `bit`.
pub open spec fn axis_with_bit(v: u32, level: nat, bit: int) -> u32 {
    let shift = (31 - level) as u32;
    (v & !(1u32 << shift)) | ((bit as u32) << shift)
}

/// The point `p` moved, inside its region of depth `level`, to the part that
/// the selector `s` picks.
pub open spec fn point_with_selector(p: Point, level: nat, s: int) -> Point {
    Point {
        x: axis_with_bit(p.x, level, s % 2),
        y: axis_with_bit(p.y, level, (s / 2) % 2),
        z: axis_with_bit(p.z, level, (s / 4) % 2),
        w: axis_with_bit(p.w, level, (s / 8) % 2),
    }
}

/// Setting the bit of a level keeps the bits above it.
pub proof fn lemma_axis_with_bit(v: u32, level: nat, bit: int)
    requires
        level < 32,
        0 <= bit <= 1,
    ensures
        axis_prefix(axis_with_bit(v, level, bit), level) == axis_prefix(v, level),
        axis_bit(axis_with_bit(v, level, bit), level) == bit,
{
    let shift: u32 = (31 - level) as u32;
    let b: u32 = bit as u32;
    assert(shift < 32 && b <= 1 ==> ((((v & !(1u32 << shift)) | (b << shift)) >> shift) & 1) == b)
        by (bit_vector);
    if level > 0 {
        let above: u32 = (32 - level) as u32;
        assert(shift < 31 && b <= 1 && above == shift + 1 ==> (((v & !(1u32 << shift)) | (b
            << shift)) >> above) == (v >> above)) by (bit_vector);
    }
}

/// Every part of a region that holds a point holds a point.
pub proof fn lemma_point_with_selector(p: Point, level: nat, s: int)
    requires
        level < 32,
        0 <= s < 16,
    ensures
        region_of(point_with_selector(p, level, s), level) == region_of(p, level),
        point_selector(point_with_selector(p, level, s), level) == s,
        region_of(point_with_selector(p, level, s), level + 1) == part(region_of(p, level), s),
{
    lemma_axis_with_bit(p.x, level, s % 2);
    lemma_axis_with_bit(p.y, level, (s / 2) % 2);
    lemma_axis_with_bit(p.z, level, (s / 4) % 2);
    lemma_axis_with_bit(p.w, level, (s / 8) % 2);
    lemma_region_step(point_with_selector(p, level, s), level);
}

/// Two points of one region share every larger region, and the selector of
/// every level above the depth of the region.
pub proof fn lemma_region_above(p: Point, q: Point, depth: nat, level: nat)
    requires
        level <= depth <= 32,
        region_of(p, depth) == region_of(q, depth),
    ensures
        region_of(p, level) == region_of(q, level),
        level < depth ==> point_selector(p, level) == point_selector(q, level),
    decreases depth - level,
{
    if level < depth {
        lemma_region_above(p, q, depth, level + 1);
        lemma_region_step(p, level);
        lemma_region_step(q, level);
        lemma_part_injective(
            region_of(p, level),
            point_selector(p, level),
            region_of(q, level),
            point_selector(q, level),
        );
    }
}

} // verus!
