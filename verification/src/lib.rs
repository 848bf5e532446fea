//! A 3D mesh processing library: an index-based half-edge mesh with manifold
//! topology, a loose octree spatial index keyed by Morton-style location
//! codes, and a Wavefront OBJ parser producing a polygon-soup staging
//! container.
//!
//! Geometric coordinates are carried through the data structures as opaque
//! IEEE-754 bit patterns; all floating-point arithmetic (intersection
//! predicates, normals, bounds) lives outside the verified core and is
//! reached through the `Intersects` and `Octant` traits.

pub mod geometry;
pub mod mesh;
pub mod spatial;
