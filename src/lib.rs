//! Procedural polyhedral meshes: an icosahedron recovered from the geometry of
//! its twelve corners, and its spherical subdivision into an icosphere.
//!
//! Geometry is exact: coordinates live in the ring of integers extended by the
//! golden ratio, so distances and orientations are compared without rounding.
//! Subdivided vertices are described by the edge whose great-circle midpoint
//! they are; turning that description into floating-point positions is left to
//! the caller.
pub mod blur;
pub mod faces;
pub mod geometry;
pub mod golden;
pub mod graph;
pub mod mesh;
pub mod seed;
pub mod subdivide;
