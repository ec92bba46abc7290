//! Small integer vectors: grid positions and the steps between them.

use vstd::prelude::*;

verus! {

/// 2d vector with u8s: a position on the grid.
#[derive(PartialEq, Eq, Structural, Copy, Clone, Hash, Debug)]
pub struct Vecu {
    pub x: u8,
    pub y: u8,
}

impl Vecu {
    /// Returns a new [Vecu] as zero-vector.
    pub fn new() -> (v: Self)
        ensures
            v.x == 0,
            v.y == 0,
    {
        Vecu { x: 0, y: 0 }
    }
}

impl Default for Vecu {
    fn default() -> (v: Self)
        ensures
            v.x == 0,
            v.y == 0,
    {
        Self::new()
    }
}

/// 2d vector with i16s: the difference of two positions.
#[derive(PartialEq, Eq, Structural, Copy, Clone, Hash, Debug)]
pub struct Veci {
    pub x: i16,
    pub y: i16,
}

impl Veci {
    /// Returns a new [Veci] as zero-vector.
    pub fn new() -> (v: Self)
        ensures
            v.x == 0,
            v.y == 0,
    {
        Veci { x: 0, y: 0 }
    }
}

impl Default for Veci {
    fn default() -> (v: Self)
        ensures
            v.x == 0,
            v.y == 0,
    {
        Self::new()
    }
}

} // verus!
