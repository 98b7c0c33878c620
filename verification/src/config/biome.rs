use std::collections::BTreeMap;

use vstd::prelude::*;

verus! {

/// One entry of the biome table, keyed by biome id.
#[derive(Clone, Debug)]
pub struct BiomeConfig {
    pub key: String,
    pub name: String,
    pub overlay_color: [u8; 4],
    pub generation_weight: u32,
    pub description: String,
}

/// The biome table: biome id to its configuration, ordered by id.
pub type BiomesConfig = BTreeMap<u8, BiomeConfig>;

} // verus!
