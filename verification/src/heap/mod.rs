//! Heap allocators.

pub mod block;
pub mod explicit_free_list;
pub mod free_list;
pub mod usage;
