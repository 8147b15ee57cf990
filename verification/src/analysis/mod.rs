//! Cheap statistics over a block's first bytes, and the block-type heuristic built on them.
pub mod classifier;

pub use classifier::{AdaptiveClassifier, CompressionLevel, EntropyBand};
