//! Content-addressed fingerprints of directory trees.
//!
//! The library computes a Merkle-style root digest over a directory
//! tree, builds the per-directory nodes that a mirror persists, and
//! compares two persisted snapshots, reporting exactly which relative
//! paths were added, removed, or changed. All filesystem reading and
//! writing is the caller's business: the library works on plain values.

pub mod bytes;
pub mod combine;
pub mod diff;
pub mod digest;
pub mod errors;
pub mod merkle;
pub mod node;
pub mod provider;
pub mod tree;
