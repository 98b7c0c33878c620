use vstd::prelude::*;

use crate::config::blocks::{BlockConfig, BlocksConfig};
use crate::base::color::ColorRgba;
use vstd::std_specs::btree::increasing_seq;
use vstd::std_specs::cmp::OrdSpec;
use vstd::std_specs::iter::IteratorSpec;

verus! {

/// Identifier of a block kind.
pub type BlockId = u8;

/// A block kind as used by the generator and the renderer.
#[derive(Clone, Debug)]
pub struct BlockDefinition {
    pub id: BlockId,
    pub name: String,
    pub color: ColorRgba,
    pub description: String,
    pub category: String,
}

/// `def` is the definition made from table entry `id -> cfg`.
pub open spec fn block_matches(def: BlockDefinition, id: u8, cfg: BlockConfig) -> bool {
    &&& def.id == id
    &&& def.name@ == cfg.name@
    &&& def.description@ == cfg.description@
    &&& def.category@ == cfg.category@
    &&& def.color == (ColorRgba { r: cfg.rgba@[0], g: cfg.rgba@[1], b: cfg.rgba@[2], a: cfg.rgba@[3] })
}

/// One definition per table entry, in increasing id order.
pub fn build_block_definitions(config: &BlocksConfig) -> (defs: Vec<BlockDefinition>)
    ensures
        defs.len() == config@.len(),
        forall|i: int| 0 <= i < defs.len() ==> #[trigger] config@.contains_key(defs[i].id)
            && block_matches(defs[i], defs[i].id, config@[defs[i].id]),
        forall|i: int, j: int| 0 <= i < j < defs.len() ==> defs[i].id < defs[j].id,
{
    let mut defs: Vec<BlockDefinition> = Vec::new();
    let entries = config.iter();
    let ghost keys = entries.remaining().map_values(|kv: (&u8, &BlockConfig)| *kv.0);
    proof {
        assert(increasing_seq(keys));
        assert forall|i: int, j: int| 0 <= i < j < keys.len() implies keys[i] < keys[j] by {
            assert(keys[i].cmp_spec(&keys[j]) is Less);
        }
    }
    for (id, block) in it: entries
        invariant
            defs.len() == it.index(),
            it.seq().len() == keys.len(),
            forall|i: int| 0 <= i < keys.len() ==> keys[i] == *it.seq()[i].0,
            forall|i: int, j: int| 0 <= i < j < keys.len() ==> keys[i] < keys[j],
            forall|i: int| 0 <= i < defs.len() ==> defs[i].id == *it.seq()[i].0
                && block_matches(defs[i], defs[i].id, *it.seq()[i].1),
    {
        defs.push(BlockDefinition {
            id: *id,
            name: block.name.clone(),
            color: ColorRgba::from_array(block.rgba),
            description: block.description.clone(),
            category: block.category.clone(),
        });
    }
    assert forall|i: int, j: int| 0 <= i < j < defs.len() implies defs[i].id < defs[j].id by {
        assert(defs[i].id == keys[i]);
        assert(defs[j].id == keys[j]);
    }
    defs
}

} // verus!
