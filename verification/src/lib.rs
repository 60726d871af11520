//! Allocators whose book-keeping is held in plain values and verified.
//!
//! Addresses are `usize` values; the allocators decide which addresses to hand out and take
//! back, and never read or write the memory at them.
pub mod allocator;
pub mod arena_memory_source;
pub mod binary_search_trees;
pub mod bit_set;
pub mod bump_allocator;
pub mod global;
pub mod local_allocator;
pub mod memory_address;
pub mod memory_usage;
pub mod memory_source;
pub mod multiple_binary_search_tree_allocator;
