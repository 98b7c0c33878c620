//! The last fill step of the biome division: every cell no earlier step
//! assigned becomes stone.

use vstd::prelude::*;

use crate::base::biome::{BiomeId, BiomeMap, BIOME_UNASSIGNED};
use crate::base::geometry::{fill_biome_if, fill_target, Rect};

verus! {

/// Writes `stone_id` into every unassigned cell of the map; assigned cells
/// keep their ids.
pub fn execute(bm: &mut BiomeMap, stone_id: BiomeId)
    requires
        old(bm).wf(),
        old(bm).width <= i32::MAX,
        old(bm).height <= i32::MAX,
    ensures
        final(bm).wf(),
        final(bm).width == old(bm).width,
        final(bm).height == old(bm).height,
        forall|x: int, y: int| old(bm).spec_in_bounds(x, y) ==> #[trigger] final(bm).cell(x, y) == if old(bm).cell(
            x,
            y,
        ) == BIOME_UNASSIGNED {
            stone_id
        } else {
            old(bm).cell(x, y)
        },
{
    let ghost before = *bm;
    let w = bm.width as i32;
    let h = bm.height as i32;
    let world = Rect::new(0, 0, w, h);
    fill_biome_if(&world, bm, stone_id, |c: BiomeId| -> (r: bool)
        ensures
            r == (c == BIOME_UNASSIGNED),
        { c == BIOME_UNASSIGNED });
    assert forall|x: int, y: int| before.spec_in_bounds(x, y) implies fill_target(&world, &before, x, y) by {
        assert(x as i32 == x && y as i32 == y);
    }
}

} // verus!
