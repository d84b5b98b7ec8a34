//! The types by which a host application refers to the index and to the
//! camera whose view it renders. They carry no data; the host attaches its own
//! traits to its own copies.

use crate::index::Chunks;
use vstd::prelude::*;

verus! {

/// Installs the index into a host application.
pub struct ChunksPlugin;

impl ChunksPlugin {
    /// The index that the plugin installs: block id 0 at every point.
    pub fn resource(&self) -> (index: Chunks)
        ensures
            index.wf(),
            forall|x: u32, y: u32, z: u32, w: u32| #[trigger] index.block_at(x, y, z, w) == 0,
            index.arena_len() == 1,
            index.free_ids() == Set::<u32>::empty(),
    {
        Chunks::default()
    }
}

/// Marks the camera whose view is rendered.
#[derive(Debug, Default)]
pub struct MainCamera;

} // verus!
