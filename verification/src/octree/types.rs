//! Quantized 3D grid positions.
use vstd::prelude::*;

verus! {

/// Quantized 3D grid position, used as the key of cached evaluations.
/// At depth d, coordinates range from 0 to 2^d (inclusive).
#[derive(Clone, Copy, Debug, PartialEq, Eq, Hash, Structural)]
pub struct GridPos {
    pub x: u32,
    pub y: u32,
    pub z: u32,
}

impl GridPos {
    pub fn new(x: u32, y: u32, z: u32) -> (p: Self)
        ensures
            p.x == x,
            p.y == y,
            p.z == z,
    {
        GridPos { x, y, z }
    }
}

} // verus!
