//! Bounding-volume hierarchies over bounded primitives, stored in a flat
//! index-addressed arena tree.
//!
//! - `tree`: the arena tree, its insertion and grafting rules, and its
//!   push-order, depth-first and breadth-first walks.
//! - `bv`: the axis-aligned box and its model (`BoxView`).
//! - `traits`: what a primitive offers (`Bounded`), what a query offers
//!   (`Intersect`), and the triangle and point that come with the library.
//! - `build_options`: when a build stops splitting and how it splits.
//! - `bvh`: building a hierarchy, walking it, querying it and mapping its
//!   primitives.
//! - `index_mesh`, `csg`: the index form of a mesh, and boolean operations.
//!
//! Coordinates are integers, so that every comparison the hierarchy makes
//! is exact.
pub mod build_options;
pub mod bv;
pub mod bvh;
pub mod csg;
pub mod index_mesh;
pub mod traits;
pub mod tree;

pub use bv::AABB;
pub use bvh::Bvh;
