use vstd::prelude::*;

verus! {

/// The packing algorithm to use. Only the skyline heuristic exists today;
/// the tagged variant leaves room for further algorithms.
#[derive(Clone, Copy, Debug, PartialEq, Eq, Structural)]
pub enum TexturePackerAlrogithm {
    Skyline,
}

/// Configuration of one packing session, immutable for its lifetime.
/// `max_width` and `max_height` are hard bounds the packer never exceeds;
/// `allow_rotation` enables the 90-degree-rotated placement search branch.
#[derive(Clone, Copy, Debug, PartialEq, Eq, Structural)]
pub struct TexturePackerConfig {
    pub max_width: u32,
    pub max_height: u32,
    pub allow_rotation: bool,
    pub algorithm: TexturePackerAlrogithm,
}

} // verus!
