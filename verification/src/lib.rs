//! Chat analytics engine.
//!
//! Takes an exported chat transcript (an ordered log of timestamped messages)
//! and computes a structured analytics report: activity counts, content
//! statistics, conversational patterns and media usage. All aggregation
//! algorithms are verified; file loading, JSON persistence and configuration
//! live outside the library and hand it plain values.

pub mod basic;
pub mod config;
pub mod emoji;
pub mod errors;
pub mod laws;
pub mod model;
pub mod pattern;
pub mod select;
pub mod stats;
pub mod seq_util;
pub mod sticker;
pub mod streak;
pub mod strops;
pub mod tally;
pub mod unicode;
pub mod words;
