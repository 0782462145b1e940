//! Physical and heap memory management for a freestanding kernel.
//!
//! The tiers, from the bottom up: an early bump allocator over the firmware's
//! memory regions, a fixed-capacity arena of free-list nodes, a power-of-two
//! buddy allocator over physical pages, eight slab caches of fixed object
//! sizes, and the heap that routes every request to one of them.

pub mod addr;
pub mod error;
pub mod node_pool;
pub mod buddy;
pub mod multiboot;
pub mod memblock;
pub mod slab;
pub mod allocator;
pub mod init;
