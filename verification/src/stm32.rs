//! Drivers for the FDCAN periphery of STM32 controllers: what they decide and compute.

pub mod board;
pub mod embassy;
pub mod filters;
pub mod format;
pub mod header;
pub mod native;
pub mod timer;
