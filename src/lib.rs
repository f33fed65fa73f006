//! Wealth-distribution statistics over a bucketed histogram of holdings.
//!
//! Amounts are integer satoshis and shares are fixed-point parts per million,
//! so every figure the engine reports is an exact integer function of its
//! inputs.
pub mod category;
pub mod distribution;
pub mod sort;
pub mod position;
pub mod validate;
pub mod percentile;
pub mod stats;
pub mod threshold;
pub mod format;
pub mod api;
pub mod theme;
pub mod merge;
pub mod roundtrip;
