//! Verified core of a rigid-body support library: axis-aligned bounding-box
//! indexes, voxel decomposition and small decision helpers.
#![allow(unused_imports)]

pub mod geometry;
pub mod ffi;
pub mod sorted_keys;
pub mod crbtree;
pub mod rtree;
pub mod voxel;
pub mod events;
pub mod jni;
pub mod dop;
pub mod query;
