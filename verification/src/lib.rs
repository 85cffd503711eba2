//! A bounding-volume-hierarchy (BVH) builder over fixed-point coordinates.
//!
//! Given an ordered scene of primitives (spheres and triangles), the builder
//! produces a flat, depth-bounded binary tree of axis-aligned bounding boxes
//! that partitions the primitives in place.  The node and primitive arrays are
//! plain records meant to be handed to a downstream renderer as read-only
//! buffers.  All coordinates are `i64` fixed-point values; the host layer that
//! feeds the builder chooses the scale.

pub mod bvh;
pub mod geom;
