//! The Palantir deduplication pipeline: chunk types, tiered super-feature
//! lookup and per-tier metric lifecycles.

pub mod encoder;
pub mod error;
pub mod lifecycle_manager;
pub mod metadata_manager;
pub mod metrics_configs;
pub mod mock_rocksdb;
pub mod palantir_scrubber;
pub mod sf_generator;
pub mod tables;
pub mod types;
pub mod utils;
