//! Cyphal/CAN protocol stack.

pub mod buffer;
pub mod data_types;
pub mod encoding;
pub mod endpoint;
pub mod format;
pub mod frame;
pub mod ids;
pub mod link;
pub mod node;
pub mod priority;
pub mod registry;
pub mod socket;
pub mod stm32;
pub mod task;
pub mod time;
pub mod utils;
