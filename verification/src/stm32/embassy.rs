//! Adapter for an FDCAN driver with a queue of three transmit buffers.
//!
//! It has 7 subject filters and one destination filter. Deadlines are checked while a frame waits
//! for a transmit buffer. Anonymous frames and loop-back are not supported.

pub mod config;
pub mod driver;
pub mod tx_state;
pub mod utils;
