//! Shared state and display records of generation steps.

use vstd::prelude::*;

use crate::base::biome::BiomeMap;
pub use crate::generation::pipeline::StepStatus;

verus! {

/// State shared between generation steps.
#[derive(Clone, Debug)]
pub struct GenerationState {
    /// The biome map, once a step has made one.
    pub biome_map: Option<BiomeMap>,
}

impl GenerationState {
    /// The state before any step ran: no biome map.
    pub fn new() -> (s: GenerationState)
        ensures
            s.biome_map is None,
    {
        GenerationState { biome_map: None }
    }
}

impl Default for GenerationState {
    /// Same as [`GenerationState::new`].
    fn default() -> (s: GenerationState)
        ensures
            s.biome_map is None,
    {
        GenerationState::new()
    }
}

/// One step as listed in the control panel.
#[derive(Clone, Debug)]
pub struct StepInfo {
    pub name: String,
    pub description: String,
    pub status: StepStatus,
}

} // verus!
