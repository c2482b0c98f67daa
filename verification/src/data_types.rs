//! Values that are sent over the network.

pub mod byte_array;
pub mod empty;
pub mod node;

pub use byte_array::ByteArray;
pub use empty::Empty;
