use vstd::prelude::*;

verus! {

/// What the algorithm settings window reports after a frame.
#[derive(Clone, Copy, Debug, PartialEq, Eq, Structural)]
pub struct AlgoConfigResult {
    /// Some parameter was changed.
    pub changed: bool,
    /// The user asked to re-run the current phase with the new parameters.
    pub replay_requested: bool,
}

} // verus!
