//! A four-dimensional voxel world: chunked storage with generation on first
//! use, surface extraction over a bounded region, and ray traversal for
//! picking blocks.

pub mod block;
pub mod chunk;
pub mod world;
pub mod mesh;
pub mod raycast;
pub mod region;
