//! Colour tables and pixel buffers for showing a world and its biome map.

pub mod canvas;
pub mod labels;
