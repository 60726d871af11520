//! A bit set based allocator; allows reallocations, but requires a linear scan to find free
//! blocks.
pub mod allocator;
pub mod numbers;
pub mod word;
