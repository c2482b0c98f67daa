//! Data structures shared by the buffers and registries.

pub mod byte_stack;
pub mod id_map;
pub mod index_queue;
pub mod multi_class_queue;
pub mod priority_map;
pub mod priority_queue;
pub mod priority_trigger;
pub mod stacked_array;
