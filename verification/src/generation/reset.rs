//! Step 0 of the generation: fill the world with air.

use vstd::prelude::*;

use crate::base::world::{World, AIR_BLOCK_ID};

verus! {

/// The step that resets every tile of the world to air.
pub struct ResetStep;

impl ResetStep {
    /// Display name.
    pub fn name(&self) -> (s: &'static str)
        ensures
            s@ == "重置"@,
    {
        "重置"
    }

    /// Short description.
    pub fn description(&self) -> (s: &'static str)
        ensures
            s@ == "将世界初始化为全空气"@,
    {
        "将世界初始化为全空气"
    }

    /// Sets every tile to air; never fails.
    pub fn execute(&self, world: &mut World) -> (r: Result<(), String>)
        ensures
            r is Ok,
            final(world).width == old(world).width,
            final(world).height == old(world).height,
            final(world).tiles.len() == old(world).tiles.len(),
            forall|i: int| 0 <= i < final(world).tiles.len() ==> final(world).tiles@[i] == AIR_BLOCK_ID,
    {
        let n = world.tiles.len();
        let ghost w0 = world.width;
        let ghost h0 = world.height;
        let mut i: usize = 0;
        while i < n
            invariant
                world.width == w0,
                world.height == h0,
                n == world.tiles.len(),
                i <= n,
                forall|k: int| 0 <= k < i ==> world.tiles@[k] == AIR_BLOCK_ID,
            decreases n - i,
        {
            world.tiles.set(i, AIR_BLOCK_ID);
            i = i + 1;
        }
        Ok(())
    }
}

} // verus!
