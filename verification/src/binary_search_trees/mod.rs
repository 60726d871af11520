//! Sets of free blocks, one for each power-of-two block size.
pub mod balancing;
pub mod cached_first_child;
pub mod cursor;
pub mod node;
pub mod red_black_tree;
pub mod trees;
