use std::collections::BTreeMap;

use chunks::link::{link_block, link_from_block, link_is_block, BLOCK_BIT};
use chunks::{Chunks, ChunksPlugin, SetBlockError};

#[test]
fn fresh_index_holds_zero_everywhere() {
    let index = Chunks::default();
    assert_eq!(index.get_block(0, 0, 0, 0), 0);
    assert_eq!(index.get_block(1, 2, 3, 4), 0);
    assert_eq!(index.get_block(u32::MAX, u32::MAX, u32::MAX, u32::MAX), 0);
    assert_eq!(index.get_block(0x8000_0000, 0, 0x7fff_ffff, 12345), 0);
    assert_eq!(index.chunk_count(), 1);
    assert_eq!(index.free_count(), 0);
}

#[test]
fn write_then_read_at_origin() {
    let mut index = Chunks::default();
    assert_eq!(index.set_block(0, 0, 0, 0, 5), Ok(()));
    assert_eq!(index.get_block(0, 0, 0, 0), 5);
    assert_eq!(index.get_block(1, 0, 0, 0), 0);
    assert_eq!(index.chunk_count(), 32);
    assert_eq!(index.free_count(), 0);
    assert_eq!(index.set_block(0, 0, 0, 0, 0), Ok(()));
    assert_eq!(index.get_block(0, 0, 0, 0), 0);
    assert_eq!(index.chunk_count(), 1);
    assert_eq!(index.free_count(), 0);
}

#[test]
fn round_trip_at_the_corners() {
    let mut index = Chunks::default();
    let max = u32::MAX;
    let points = [
        (0, 0, 0, 0),
        (max, max, max, max),
        (max, 0, 0, 0),
        (0, max, 0, 0),
        (0, 0, max, 0),
        (0, 0, 0, max),
        (0x8000_0000, 0x4000_0000, 0x2000_0000, 0x1000_0000),
        (123_456_789, 987_654_321, 42, 0xdead_beef),
    ];
    let mut block_id = 1;
    for &(x, y, z, w) in points.iter() {
        assert_eq!(index.set_block(x, y, z, w, block_id), Ok(()));
        assert_eq!(index.get_block(x, y, z, w), block_id);
        block_id += 1;
    }
    let mut expected = 1;
    for &(x, y, z, w) in points.iter() {
        assert_eq!(index.get_block(x, y, z, w), expected);
        expected += 1;
    }
}

#[test]
fn largest_block_id_round_trips() {
    let mut index = Chunks::default();
    assert_eq!(index.set_block(7, 8, 9, 10, 0x7fff_ffff), Ok(()));
    assert_eq!(index.get_block(7, 8, 9, 10), 0x7fff_ffff);
}

#[test]
fn write_changes_one_point_only() {
    let mut index = Chunks::default();
    assert_eq!(index.set_block(10, 20, 30, 40, 7), Ok(()));
    assert_eq!(index.set_block(11, 20, 30, 40, 8), Ok(()));
    assert_eq!(index.set_block(10, 20, 30, 41, 9), Ok(()));
    assert_eq!(index.get_block(10, 20, 30, 40), 7);
    assert_eq!(index.get_block(11, 20, 30, 40), 8);
    assert_eq!(index.get_block(10, 20, 30, 41), 9);
    assert_eq!(index.get_block(10, 21, 30, 40), 0);
    assert_eq!(index.get_block(10, 20, 31, 40), 0);
    assert_eq!(index.get_block(0x8000_000a, 20, 30, 40), 0);
    assert_eq!(index.set_block(10, 20, 30, 40, 0), Ok(()));
    assert_eq!(index.get_block(10, 20, 30, 40), 0);
    assert_eq!(index.get_block(11, 20, 30, 40), 8);
    assert_eq!(index.get_block(10, 20, 30, 41), 9);
}

#[test]
fn tagged_block_id_is_refused() {
    let mut index = Chunks::default();
    assert_eq!(index.set_block(1, 1, 1, 1, 3), Ok(()));
    let chunks = index.chunk_count();
    assert_eq!(
        index.set_block(1, 1, 1, 1, 0x8000_0000),
        Err(SetBlockError::ContractViolation)
    );
    assert_eq!(
        index.set_block(2, 2, 2, 2, u32::MAX),
        Err(SetBlockError::ContractViolation)
    );
    assert_eq!(index.get_block(1, 1, 1, 1), 3);
    assert_eq!(index.get_block(2, 2, 2, 2), 0);
    assert_eq!(index.chunk_count(), chunks);
}

#[test]
fn filling_a_bottom_chunk_folds_it_away() {
    let mut index = Chunks::default();
    assert_eq!(index.set_block(0, 0, 0, 0, 3), Ok(()));
    let live_before = index.chunk_count() - index.free_count();
    assert_eq!(live_before, 32);
    for selector in 0..16u32 {
        let (x, y, z, w) = (selector & 1, (selector >> 1) & 1, (selector >> 2) & 1, selector >> 3);
        assert_eq!(index.set_block(x, y, z, w, 9), Ok(()));
    }
    // the bottom chunk became uniform and was folded into its parent
    assert_eq!(index.chunk_count() - index.free_count(), 31);
    for selector in 0..16u32 {
        let (x, y, z, w) = (selector & 1, (selector >> 1) & 1, (selector >> 2) & 1, selector >> 3);
        assert_eq!(index.get_block(x, y, z, w), 9);
    }
    assert_eq!(index.get_block(2, 0, 0, 0), 0);
}

#[test]
fn writing_sixteen_children_and_back_leaks_nothing() {
    let mut index = Chunks::default();
    assert_eq!(index.set_block(100, 100, 100, 100, 1), Ok(()));
    let live_before = index.chunk_count() - index.free_count();
    let order = [5u32, 0, 15, 3, 9, 1, 14, 2, 8, 13, 4, 12, 7, 11, 6, 10];
    for &selector in order.iter() {
        let (x, y, z, w) = (selector & 1, (selector >> 1) & 1, (selector >> 2) & 1, selector >> 3);
        assert_eq!(index.set_block(x, y, z, w, 2), Ok(()));
    }
    for &selector in order.iter().rev() {
        let (x, y, z, w) = (selector & 1, (selector >> 1) & 1, (selector >> 2) & 1, selector >> 3);
        assert_eq!(index.set_block(x, y, z, w, 0), Ok(()));
    }
    assert_eq!(index.chunk_count() - index.free_count(), live_before);
    assert_eq!(index.get_block(100, 100, 100, 100), 1);
    assert_eq!(index.get_block(0, 0, 0, 0), 0);
}

#[test]
fn last_chunk_is_never_free() {
    let mut index = Chunks::default();
    let writes = [
        (0u32, 0u32, 0u32, 0u32, 1u32),
        (u32::MAX, 0, 0, 0, 2),
        (0, 0, 0, 0, 0),
        (5, 5, 5, 5, 3),
        (u32::MAX, 0, 0, 0, 0),
        (5, 5, 5, 5, 0),
    ];
    for &(x, y, z, w, block_id) in writes.iter() {
        assert_eq!(index.set_block(x, y, z, w, block_id), Ok(()));
        let count = index.chunk_count();
        assert!(count >= 1);
        assert!(!index.is_free((count - 1) as u32));
        assert!(index.free_count() < count);
    }
    assert_eq!(index.chunk_count(), 1);
    assert_eq!(index.free_count(), 0);
}

#[test]
fn freed_ids_are_reused_smallest_first() {
    let mut index = Chunks::default();
    // two walks: chunks 1..=31 for the first, 32..=62 for the second
    assert_eq!(index.set_block(0, 0, 0, 0, 1), Ok(()));
    assert_eq!(index.set_block(u32::MAX, 0, 0, 0, 2), Ok(()));
    assert_eq!(index.chunk_count(), 63);
    // folding the first walk frees 1..=31; the arena cannot shrink
    assert_eq!(index.set_block(0, 0, 0, 0, 0), Ok(()));
    assert_eq!(index.chunk_count(), 63);
    assert_eq!(index.free_count(), 31);
    for id in 1..=31u32 {
        assert!(index.is_free(id));
    }
    assert!(!index.is_free(0));
    assert!(!index.is_free(32));
    // a walk that shares the first level with the second walk takes 30 ids,
    // the smallest ones, and leaves the largest free id in the pool
    assert_eq!(index.set_block(0x8000_0000, 0, 0, 0, 3), Ok(()));
    assert_eq!(index.chunk_count(), 63);
    assert_eq!(index.free_count(), 1);
    assert!(index.is_free(31));
    assert!(!index.is_free(1));
    assert!(!index.is_free(30));
}

#[test]
fn arena_shrinks_when_its_end_falls_free() {
    let mut index = Chunks::default();
    assert_eq!(index.set_block(0, 0, 0, 0, 1), Ok(()));
    assert_eq!(index.set_block(u32::MAX, 0, 0, 0, 2), Ok(()));
    assert_eq!(index.chunk_count(), 63);
    // folding the second walk frees 32..=62, the end of the arena
    assert_eq!(index.set_block(u32::MAX, 0, 0, 0, 0), Ok(()));
    assert_eq!(index.chunk_count(), 32);
    assert_eq!(index.free_count(), 0);
    assert_eq!(index.get_block(0, 0, 0, 0), 1);
    assert_eq!(index.get_block(u32::MAX, 0, 0, 0), 0);
}

#[test]
fn selector_takes_one_bit_of_each_axis() {
    // level 0 reads the most significant bit, level 31 the least significant
    assert_eq!(Chunks::link_index(0, 0, 0, 0, 0), 0);
    assert_eq!(Chunks::link_index(0x8000_0000, 0, 0, 0, 0), 1);
    assert_eq!(Chunks::link_index(0, 0x8000_0000, 0, 0, 0), 2);
    assert_eq!(Chunks::link_index(0, 0, 0x8000_0000, 0, 0), 4);
    assert_eq!(Chunks::link_index(0, 0, 0, 0x8000_0000, 0), 8);
    assert_eq!(Chunks::link_index(0x8000_0000, 0, 0x8000_0000, 0, 0), 5);
    assert_eq!(Chunks::link_index(u32::MAX, u32::MAX, u32::MAX, u32::MAX, 17), 15);
    assert_eq!(Chunks::link_index(1, 0, 1, 1, 31), 13);
    assert_eq!(Chunks::link_index(1, 0, 1, 1, 30), 0);
    assert_eq!(Chunks::link_index(2, 3, 0, 2, 30), 11);
    assert_eq!(Chunks::link_index(0x0001_0000, 0, 0, 0x0001_0000, 15), 9);
}

#[test]
fn links_carry_a_tag_and_a_payload() {
    assert_eq!(BLOCK_BIT, 0x8000_0000);
    assert!(link_is_block(0x8000_0000));
    assert!(link_is_block(u32::MAX));
    assert!(!link_is_block(0));
    assert!(!link_is_block(0x7fff_ffff));
    assert_eq!(link_from_block(0), 0x8000_0000);
    assert_eq!(link_from_block(5), 0x8000_0005);
    assert_eq!(link_from_block(0x7fff_ffff), u32::MAX);
    assert_eq!(link_block(0x8000_0000), 0);
    assert_eq!(link_block(0x8000_0005), 5);
    assert_eq!(link_block(u32::MAX), 0x7fff_ffff);
}

#[test]
fn plugin_installs_an_empty_index() {
    let index = ChunksPlugin.resource();
    assert_eq!(index.get_block(9, 8, 7, 6), 0);
    assert_eq!(index.chunk_count(), 1);
    assert_eq!(index.free_count(), 0);
    assert!(!index.is_free(0));
}

#[test]
fn pool_and_tree_share_no_chunk() {
    let mut index = Chunks::default();
    assert_eq!(index.set_block(0, 0, 0, 0, 1), Ok(()));
    assert_eq!(index.set_block(0, u32::MAX, 0, 0, 2), Ok(()));
    assert_eq!(index.set_block(0, 0, u32::MAX, 0, 3), Ok(()));
    assert_eq!(index.set_block(0, u32::MAX, 0, 0, 0), Ok(()));
    // the second walk lies free in the middle of the arena
    assert_eq!(index.chunk_count(), 94);
    assert_eq!(index.free_count(), 31);
    let mut free = 0;
    for id in 0..index.chunk_count() as u32 {
        if index.is_free(id) {
            free += 1;
            assert!((32..=62).contains(&id));
        }
    }
    assert_eq!(free, index.free_count());
    assert!(!index.is_free(94));
    // what is in use still answers
    assert_eq!(index.get_block(0, 0, 0, 0), 1);
    assert_eq!(index.get_block(0, 0, u32::MAX, 0), 3);
    assert_eq!(index.get_block(0, u32::MAX, 0, 0), 0);
}

#[test]
fn overwriting_keeps_the_chunks() {
    let mut index = Chunks::default();
    assert_eq!(index.set_block(3, 1, 4, 1, 5), Ok(()));
    let chunks = index.chunk_count();
    assert_eq!(index.set_block(3, 1, 4, 1, 9), Ok(()));
    assert_eq!(index.get_block(3, 1, 4, 1), 9);
    assert_eq!(index.chunk_count(), chunks);
    assert_eq!(index.free_count(), 0);
    // writing what a point already holds changes nothing
    assert_eq!(index.set_block(2, 1, 4, 1, 0), Ok(()));
    assert_eq!(index.get_block(2, 1, 4, 1), 0);
    assert_eq!(index.get_block(3, 1, 4, 1), 9);
    assert_eq!(index.chunk_count(), chunks);
}

#[test]
fn writing_zero_into_an_empty_index_leaves_it_empty() {
    let mut index = Chunks::default();
    assert_eq!(index.set_block(77, 0, 12, u32::MAX, 0), Ok(()));
    assert_eq!(index.chunk_count(), 1);
    assert_eq!(index.free_count(), 0);
    assert_eq!(index.get_block(77, 0, 12, u32::MAX), 0);
}

#[test]
fn agrees_with_a_plain_map_over_many_writes() {
    let mut index = Chunks::default();
    let mut model: BTreeMap<(u32, u32, u32, u32), u32> = BTreeMap::new();
    let mut state: u64 = 0x2545_f491_4f6c_dd1d;
    let mut next = |bound: u32| -> u32 {
        state ^= state << 13;
        state ^= state >> 7;
        state ^= state << 17;
        ((state >> 16) as u32) % bound
    };
    // a few far-apart corners with a small box of points at each
    let corners = [
        (0u32, 0u32, 0u32, 0u32),
        (0xffff_fff0, 0, 0x8000_0000, 7),
        (5, 0x4000_0000, 5, 0xffff_fffc),
    ];
    for _ in 0..3000 {
        let (cx, cy, cz, cw) = corners[next(3) as usize];
        let (x, y, z, w) = (cx + next(4), cy + next(4), cz + next(4), cw + next(4));
        let block_id = next(3);
        assert_eq!(index.set_block(x, y, z, w, block_id), Ok(()));
        model.insert((x, y, z, w), block_id);
        assert_eq!(index.get_block(x, y, z, w), block_id);
        let count = index.chunk_count();
        assert!(index.free_count() < count);
        assert!(!index.is_free((count - 1) as u32));
        assert!(!index.is_free(0));
    }
    for (&(x, y, z, w), &block_id) in model.iter() {
        assert_eq!(index.get_block(x, y, z, w), block_id);
    }
    assert_eq!(index.get_block(9, 9, 9, 9), 0);
    // writing zero everywhere brings the index back to one chunk
    for &(x, y, z, w) in model.keys() {
        assert_eq!(index.set_block(x, y, z, w, 0), Ok(()));
    }
    assert_eq!(index.chunk_count(), 1);
    assert_eq!(index.free_count(), 0);
}

#[test]
fn equal_contents_use_equally_many_chunks() {
    // the same three blocks, written in two orders with detours
    let mut a = Chunks::default();
    assert_eq!(a.set_block(1, 2, 3, 4, 10), Ok(()));
    assert_eq!(a.set_block(1, 2, 3, 5, 11), Ok(()));
    assert_eq!(a.set_block(0x9000_0000, 2, 3, 5, 12), Ok(()));
    let mut b = Chunks::default();
    assert_eq!(b.set_block(0x9000_0000, 2, 3, 5, 12), Ok(()));
    assert_eq!(b.set_block(77, 77, 77, 77, 1), Ok(()));
    assert_eq!(b.set_block(1, 2, 3, 5, 11), Ok(()));
    assert_eq!(b.set_block(77, 77, 77, 77, 0), Ok(()));
    assert_eq!(b.set_block(1, 2, 3, 4, 10), Ok(()));
    assert_eq!(
        a.chunk_count() - a.free_count(),
        b.chunk_count() - b.free_count()
    );
    // root, 31 for the first walk, none for its neighbour, 31 for the far one
    assert_eq!(a.chunk_count() - a.free_count(), 63);
}
