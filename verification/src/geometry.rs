use vstd::prelude::*;

verus! {

/// A point in space, stored as the IEEE-754 bit patterns of its three
/// double-precision components. The verified core never interprets the
/// bits; arithmetic on coordinates happens outside it.
#[derive(Debug, Clone, Copy, PartialEq, Eq, Structural)]
pub struct Vector3 {
    pub x: u64,
    pub y: u64,
    pub z: u64,
}

impl Vector3 {
    /// The origin: every component is the bit pattern of `0.0`, which is all
    /// zero bits.
    pub fn zeros() -> (r: Vector3)
        ensures
            r == (Vector3 { x: 0u64, y: 0u64, z: 0u64 }),
    {
        Vector3 { x: 0, y: 0, z: 0 }
    }
}

/// Check for a spatial intersection between two geometric entities.
///
/// The predicate itself is floating-point work and is implemented by the
/// callers of the library; the octree only forwards to it.
pub trait Intersects<T> {
    fn intersects(&self, other: &T) -> bool;
}

} // verus!
