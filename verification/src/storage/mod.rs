//! What the engine keeps on disk, as far as it is decided without touching
//! the disk.

pub mod perf_log;
