use std::collections::BTreeMap;

use vstd::prelude::*;

verus! {

/// One entry of the block table, keyed by block id.
#[derive(Clone, Debug)]
pub struct BlockConfig {
    pub name: String,
    pub rgba: [u8; 4],
    pub description: String,
    pub category: String,
}

/// The block table: block id to its configuration, ordered by id.
pub type BlocksConfig = BTreeMap<u8, BlockConfig>;

} // verus!
