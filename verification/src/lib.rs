//! Memory allocators whose behaviour is stated in contracts and proved: two frame allocators, a
//! heap allocator and a slab allocator.

pub mod bits;
pub mod frame;
pub mod heap;
pub mod memory;
pub mod new_slab;
pub mod slab;
