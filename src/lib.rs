//! A fixed-depth octree over a triangle mesh, with exact integer geometry.
//!
//! Coordinates are fixed-point integers: one length unit is `UNIT` steps.
//! Boxes, the separating-axis triangle/box test, the two-phase octree
//! construction and its pruning are all stated and proved over these
//! integers, so every comparison in the library is exact.
//!
//! Building a tree takes three steps: `Octree::new` (or `Octree::with_root`)
//! subdivides the root uniformly, every branch to the same depth;
//! `partition` cuts the leaf list into worker chunks, each filled by
//! `populate` on the copies from `Octree::leaf_nodes` and merged back with
//! `Octree::store_faces` (`Octree::assign_faces` does all chunks in turn);
//! `Octree::prune` then collapses the branches that hold no face.

pub mod vec3;
pub mod aabb;
pub mod intersect;
pub mod mesh;
pub mod octree;
pub mod partition;
