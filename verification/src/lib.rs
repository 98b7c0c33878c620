//! World-generation model of LianWorld: block and biome tables, the tile
//! and biome grids, the shape toolkit used to paint biomes, the step cursor of
//! the generation pipeline, and the engine's small performance helpers.

pub mod config;
pub mod algorithms;
pub mod base;
pub mod generation;
pub mod rendering;
pub mod ui;
pub mod storage;
pub mod text;
