//! Frame allocators.

pub mod buddy2;
pub mod buddy_system;
pub mod tree;
