//! An in-memory, timestamp-ordered index over heart-rate samples.
//!
//! A binary search tree keyed by capture instant supports ordered insertion
//! and aggregation (sum and count) of every sample whose timestamp falls in a
//! trailing time window, plus a pre-order textual dump of its entries.

pub mod render;
pub mod time;
pub mod tree;

pub use tree::HeartRateTree;
pub use tree::Sample;
