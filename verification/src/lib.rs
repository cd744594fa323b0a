//! Sketch-based similarity search and the Palantir deduplication metadata
//! pipeline, and disjoint-set clustering of chunk hashes, with their contracts
//! proved by Verus.

pub mod graph;
pub mod heuristic_index;
pub mod index;
pub mod palantir;
pub mod ranking;
pub mod simple_storage;
pub mod sketch;
