//! Core of a mesh-morphing engine: a combinatorial correspondence between two
//! closed triangulated surface meshes, built by projecting both onto a shared
//! sphere, intersecting their geodesic arc sets, and reconstructing a merged
//! face structure.
//!
//! This crate holds the verified combinatorial machinery: canonical undirected
//! edges and edge sets, the half-edge graph with its face walk, the
//! edge-merging state machine driven by arc-intersection outcomes, and fan
//! triangulation with duplicate removal. The floating-point geometry that
//! feeds it (sphere projection, arc intersection arithmetic, interpolation)
//! lives outside the verified core and communicates through plain values:
//! vertex indices, intersection outcomes, and order-preserving angle keys.

pub mod arc;
pub mod color;
pub mod edge;
pub mod edge_set;
pub mod graph;
pub mod merge;
pub mod triangulate;
