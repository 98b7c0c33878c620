use vstd::prelude::*;

verus! {

/// Metadata of one sub-step of a generation phase.
#[derive(Clone, Debug)]
pub struct StepMeta {
    /// Number shown after the phase number (`phase.display_index`).
    pub display_index: u32,
    pub name: String,
    pub description: String,
    pub doc_url: Option<String>,
}

/// What the pipeline keeps of a registered phase algorithm: its identity and
/// its ordered sub-steps.
#[derive(Clone, Debug)]
pub struct PhaseHeader {
    /// Unique identifier (such as `biome_division`).
    pub id: String,
    pub name: String,
    pub description: String,
    /// The sub-steps, in execution order.
    pub steps: Vec<StepMeta>,
    /// Whether the algorithm has tunable parameters.
    pub has_params: bool,
}

} // verus!
