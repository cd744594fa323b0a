//! Sketch-based similarity indexes and their storage.

pub mod error;
pub mod metrics;
pub mod search;
pub mod store;

pub use error::IndexError;
pub mod inverted;
pub use inverted::InvertedSketchIndex;
