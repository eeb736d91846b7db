//! Broad-phase collision counting over axis-aligned boxes: bounding-volume
//! hierarchies built by spatial-key sorting, and dual-tree traversals whose
//! counts are proved equal to the brute-force pairwise count.

pub mod arena;
pub mod bvh2;
pub mod bvh3;
pub mod bvh4;
pub mod bvh6;
pub mod count;
pub mod keys;
pub mod morton;
pub mod position;
pub mod sums;
