use vstd::prelude::*;

verus! {

/// Display data of one sub-step, as listed in the step table.
#[derive(Clone, Debug)]
pub struct SubStepMeta {
    pub id: String,
    pub name: String,
    pub description: String,
    pub doc_url: Option<String>,
}

/// Display data of one phase and its sub-steps, as listed in the step
/// table.
#[derive(Clone, Debug)]
pub struct PhaseMeta {
    pub id: u32,
    pub name: String,
    pub description: String,
    pub sub_steps: Vec<SubStepMeta>,
}

/// The step table: all phases in order.
#[derive(Clone, Debug)]
pub struct StepsConfig {
    pub phases: Vec<PhaseMeta>,
}

} // verus!
