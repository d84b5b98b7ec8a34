//! The packed link word and the selector that picks a link at each level.

use vstd::prelude::*;

verus! {

/// The tag bit of a link: set, the other 31 bits are a block id; clear, the
/// link is the id of a child chunk.
pub const BLOCK_BIT: u32 = 0x8000_0000;

/// Number of links in a chunk.
pub const LINKS: usize = 16;

/// Number of levels of the tree: one bit of every axis is consumed per level.
pub const LEVELS: usize = 32;

/// Whether a link holds a block id rather than the id of a child chunk.
pub open spec fn is_block(link: u32) -> bool {
    link >= BLOCK_BIT
}

/// The block id that a tagged link carries.
pub open spec fn block_of(link: u32) -> u32
    recommends
        is_block(link),
{
    (link - BLOCK_BIT) as u32
}

/// The link that carries a block id.
pub open spec fn block_link(block_id: u32) -> u32
    recommends
        block_id < BLOCK_BIT,
{
    (block_id + BLOCK_BIT) as u32
}

/// The bit of `v` that is consumed at `level`: the most significant bit at
/// level 0, the least significant at level 31.
pub open spec fn axis_bit(v: u32, level: nat) -> int
    recommends
        level < 32,
{
    ((v >> ((31 - level) as u32)) & 1) as int
}

/// The selector of a point at `level`: bit 0 from x, bit 1 from y, bit 2 from
/// z and bit 3 from w.
pub open spec fn selector(x: u32, y: u32, z: u32, w: u32, level: nat) -> int
    recommends
        level < 32,
{
    axis_bit(x, level) + 2 * axis_bit(y, level) + 4 * axis_bit(z, level) + 8 * axis_bit(w, level)
}

/// Tests the tag bit of a link.
pub fn link_is_block(link: u32) -> (r: bool)
    ensures
        r == is_block(link),
{
    assert((link & 0x8000_0000u32 != 0) == (link >= 0x8000_0000u32)) by (bit_vector);
    link & BLOCK_BIT != 0
}

/// Strips the tag bit from a link that holds a block id.
pub fn link_block(link: u32) -> (r: u32)
    requires
        is_block(link),
    ensures
        r == block_of(link),
{
    assert(link >= 0x8000_0000u32 ==> (link & !0x8000_0000u32) == (link - 0x8000_0000u32) as u32)
        by (bit_vector);
    link & !BLOCK_BIT
}

/// Tags a block id as a link.
pub fn link_from_block(block_id: u32) -> (r: u32)
    requires
        block_id < BLOCK_BIT,
    ensures
        r == block_link(block_id),
        is_block(r),
        block_of(r) == block_id,
{
    assert(block_id < 0x8000_0000u32 ==> (block_id | 0x8000_0000u32) == (block_id
        + 0x8000_0000u32) as u32) by (bit_vector);
    block_id | BLOCK_BIT
}

} // verus!
