//! Adaptive level-of-detail quadtree for a cube-sphere planet.
//!
//! Geometry is held in exact integer coordinates: world points in fixed
//! point, patches as paths of quadrants below a cube face.  Everything that
//! needs floating point (projection onto the sphere, elevation noise,
//! normals, GPU upload) is done by the caller, which hands the results back
//! as plain values.
pub mod geometry;
pub mod patch;
pub mod lattice;
pub mod tree;
pub mod input;
