//! Driver that accesses the registers of the periphery.
//!
//! It has 14 subject filters and one destination filter, software and hardware timestamps,
//! loop-back frames, and drops frames whose deadline has passed. It does not send anonymous
//! frames.

pub mod config;
pub mod driver;
pub mod raw;
pub mod tx_state;
pub mod utils;
