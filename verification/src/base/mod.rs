//! Core data: colours, block definitions, layers, the world grid, biome maps
//! and geometry.

pub mod biome;
pub mod block;
pub mod color;
pub mod geometry;
pub mod layer;
pub mod world;

use vstd::prelude::*;
use vstd::string::StringExecFns;

use crate::text::{decimal, usize_to_decimal};

verus! {

/// Errors raised while building a world profile from its configuration.
#[derive(Debug)]
pub enum CoreError {
    /// No world size with this key is configured.
    MissingWorldSize(String),
    /// The size has no valid (non-zero) width and height.
    InvalidCustomSize,
    /// A layer does not satisfy `0 <= start < end <= 100`.
    InvalidLayerPercent { name: String, start: u8, end: u8 },
}

impl CoreError {
    /// The message shown for the error.
    pub fn message(&self) -> (s: String)
        ensures
            s@ == match self {
                CoreError::MissingWorldSize(size_name) => "未找到世界尺寸配置: "@ + size_name@,
                CoreError::InvalidCustomSize => "custom 世界尺寸需要传入有效宽高"@,
                CoreError::InvalidLayerPercent { name, start, end } => "层级百分比非法: "@ + name@ + " (start="@
                    + decimal(*start as nat) + ", end="@ + decimal(*end as nat) + ")，要求 0<=start<end<=100"@,
            },
    {
        match self {
            CoreError::MissingWorldSize(size_name) => {
                let mut s = String::from_str("未找到世界尺寸配置: ");
                s.append(size_name.as_str());
                s
            },
            CoreError::InvalidCustomSize => String::from_str("custom 世界尺寸需要传入有效宽高"),
            CoreError::InvalidLayerPercent { name, start, end } => {
                let mut s = String::from_str("层级百分比非法: ");
                s.append(name.as_str());
                s.append(" (start=");
                s.append(usize_to_decimal(*start as usize).as_str());
                s.append(", end=");
                s.append(usize_to_decimal(*end as usize).as_str());
                s.append(")，要求 0<=start<end<=100");
                s
            },
        }
    }
}

} // verus!
