use vstd::prelude::*;

verus! {

/// Cost key of a location that no path has reached: the encoding of positive
/// infinity. Every key of a finite distance is strictly below it.
pub const UNREACHED: u64 = 0x7FF0_0000_0000_0000;

/// A point in three-dimensional Euclidean space.
///
/// Each coordinate is held in its 64-bit binary encoding. The network stores
/// and returns points without looking inside them.
#[derive(Clone, Copy, Debug)]
pub struct Point3 {
    pub x: u64,
    pub y: u64,
    pub z: u64,
}

impl Point3 {
    pub fn new(x: u64, y: u64, z: u64) -> (p: Self)
        ensures
            p.x == x,
            p.y == y,
            p.z == z,
    {
        Self { x, y, z }
    }
}

} // verus!
