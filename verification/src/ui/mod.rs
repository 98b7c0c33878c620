//! The state records the user interface exchanges with the engine, and the
//! logic it applies to them (seed input, world size keys, layer defaults).

pub mod app;
pub mod control_panel;
pub mod layer_config;
pub mod overlay_config;
pub mod shape_sandbox;
pub mod algo_config;
