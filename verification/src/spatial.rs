pub mod octree;

pub use octree::Octree;

use vstd::prelude::*;

verus! {

/// Find items spatially intersecting the query.
pub trait Query<Q> {
    /// What the implementation asks of its receiver.
    spec fn query_pre(&self) -> bool;

    fn query(&self, query: &Q) -> (r: Vec<usize>)
        requires
            self.query_pre(),
    ;
}

/// Find items spatially intersecting the queries.
pub trait QueryMany<Q> {
    /// What the implementation asks of its receiver.
    spec fn query_many_pre(&self) -> bool;

    fn query_many(&self, queries: &[Q]) -> (r: Vec<Vec<usize>>)
        requires
            self.query_many_pre(),
    ;
}

/// Subdivide a bounding volume into its eight octants: `octant(k)` is the
/// child volume whose center is offset by half the parent's half-size along
/// each axis, with bit `k` encoding the axis signs (bit 2 is x, bit 1 is y,
/// bit 0 is z; 0 is toward the minimum, 1 toward the maximum).
///
/// The arithmetic is floating-point work and is implemented by the callers
/// of the library; the octree only forwards to it.
pub trait Octant: Sized {
    fn octant(&self, k: usize) -> Self;
}

} // verus!
