//! Plain configuration records (blocks, biomes, world sizes, layers, steps).

pub mod biome;
pub mod blocks;
pub mod steps;
pub mod world;
