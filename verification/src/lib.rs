//! An approximate nearest-neighbour index over fixed-dimension vectors,
//! built on a hierarchical navigable small-world graph.
//!
//! Reals never enter the library as machine floats. A vector is a sequence of
//! 64-bit IEEE-754 patterns, a distance is one such pattern, and the caller
//! supplies the function that measures the distance between two vectors.

pub mod bytes;
pub mod distance;
pub mod file;
pub mod heap;
pub mod hnsw;
pub mod reach;
pub mod resolve;
pub mod roundtrip;
pub mod search;
pub mod symmetry;
