//! The biome division algorithm: biome lookups, scans of the biome map,
//! placement checks and the fill steps.

pub mod biome_division;
