//! Statistics about given names: a binary codec for per-year birth counts
//! and an aggregation step that folds them into five-year buckets.
pub mod browse;
pub mod codec;
pub mod names;
