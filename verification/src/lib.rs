//! Live-dashboard pipeline for accelerator telemetry: parsing one telemetry
//! line into a fixed-width numeric record, bounded per-metric rolling history
//! with FIFO eviction, percentile summaries, human-readable unit formatting,
//! and the decisions of the render loop.
//!
//! Telemetry values are fixed-point numbers held as `i64` micro-units
//! (millionths of a unit); all text is handled as bytes.

pub mod dashboard;
pub mod digits;
pub mod format;
pub mod history;
pub mod logrow;
pub mod stats;
pub mod number;
pub mod parse;
pub mod text;
