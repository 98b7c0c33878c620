//! The generation engine: the step cursor of the pipeline, per-step seeds,
//! and the engine's performance helpers.

pub mod algorithm;
pub mod biome_division;
pub mod optimizer;
pub mod pipeline;
pub mod reset;
pub mod snapshot;
pub mod step;
