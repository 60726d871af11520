use context_allocator::allocator::{AllocError, Allocator};
use context_allocator::local_allocator::LocalAllocator;
use context_allocator::memory_source::MemorySource;
use context_allocator::multiple_binary_search_tree_allocator::MultipleBinarySearchTreeAllocator;

const SMALLEST_ALLOCATION: usize = 32;

const MEMORY_START: usize = 0x10_0000;

/// Hands out the memory at one fixed address.
#[derive(Debug)]
struct FixedMemorySource {
    address: usize,
}

impl MemorySource for FixedMemorySource {
    fn can_obtain(&self, _non_zero_size: usize) -> bool {
        true
    }

    fn can_release(&self, _non_zero_size: usize, _current_memory: usize) -> bool {
        true
    }

    fn obtain_outcome(&self, _after: &Self, _non_zero_size: usize, _obtained: Result<usize, AllocError>) -> bool {
        true
    }

    fn release_outcome(&self, _after: &Self, _non_zero_size: usize, _current_memory: usize) -> bool {
        true
    }

    fn obtain(&mut self, _non_zero_size: usize) -> Result<usize, AllocError> {
        Ok(self.address)
    }

    fn release(&mut self, _non_zero_size: usize, _current_memory: usize) {}
}

/// Hands out the memory at one fixed address and records each range given back.
#[derive(Debug)]
struct RecordingMemorySource {
    address: usize,
    released: Vec<(usize, usize)>,
}

impl MemorySource for RecordingMemorySource {
    fn can_obtain(&self, _non_zero_size: usize) -> bool {
        true
    }

    fn can_release(&self, _non_zero_size: usize, _current_memory: usize) -> bool {
        true
    }

    fn obtain_outcome(&self, _after: &Self, _non_zero_size: usize, _obtained: Result<usize, AllocError>) -> bool {
        true
    }

    fn release_outcome(&self, _after: &Self, _non_zero_size: usize, _current_memory: usize) -> bool {
        true
    }

    fn obtain(&mut self, _non_zero_size: usize) -> Result<usize, AllocError> {
        Ok(self.address)
    }

    fn release(&mut self, non_zero_size: usize, current_memory: usize) {
        self.released.push((non_zero_size, current_memory));
    }
}

/// A memory source that has no memory to give.
#[derive(Debug)]
struct EmptyMemorySource;

impl MemorySource for EmptyMemorySource {
    fn can_obtain(&self, _non_zero_size: usize) -> bool {
        true
    }

    fn can_release(&self, _non_zero_size: usize, _current_memory: usize) -> bool {
        true
    }

    fn obtain_outcome(&self, _after: &Self, _non_zero_size: usize, _obtained: Result<usize, AllocError>) -> bool {
        true
    }

    fn release_outcome(&self, _after: &Self, _non_zero_size: usize, _current_memory: usize) -> bool {
        true
    }

    fn obtain(&mut self, _non_zero_size: usize) -> Result<usize, AllocError> {
        Err(AllocError)
    }

    fn release(&mut self, _non_zero_size: usize, _current_memory: usize) {}
}

fn new_allocator(memory_size: usize) -> MultipleBinarySearchTreeAllocator<FixedMemorySource> {
    MultipleBinarySearchTreeAllocator::new(FixedMemorySource { address: MEMORY_START }, memory_size)
        .expect("Did not create allocator")
}

fn assert_allocator_is_empty(allocator: &mut MultipleBinarySearchTreeAllocator<FixedMemorySource>) {
    assert_eq!(allocator.allocate(1, 1), Err(AllocError), "Allocator was not empty");
}

fn test_repeated_small_allocations(memory_size: usize) {
    let mut allocator = new_allocator(memory_size);

    for allocation_loop_count in 0..memory_size / SMALLEST_ALLOCATION {
        let _ = allocator
            .allocate(1, 1)
            .expect(&format!("Did not allocate for loop `{}`", allocation_loop_count));
    }
    assert_allocator_is_empty(&mut allocator);
}

#[test]
fn repeated_small_allocations() {
    test_repeated_small_allocations(32);
    test_repeated_small_allocations(64);
    test_repeated_small_allocations(96);
    test_repeated_small_allocations(128);
    test_repeated_small_allocations(160);
    test_repeated_small_allocations(192);
    test_repeated_small_allocations(256);
}

#[test]
fn mixed_allocations() {
    let mut allocator = new_allocator(256);

    allocator.allocate(32, 8).expect(&format!("Did not allocate"));
    allocator.allocate(128, 8).expect(&format!("Did not allocate"));
    allocator.allocate(64, 8).expect(&format!("Did not allocate"));
    allocator.allocate(32, 8).expect(&format!("Did not allocate"));
    assert_allocator_is_empty(&mut allocator);
}

#[test]
fn shrink_allocation_within_block_and_deallocate_unused_block() {
    let mut allocator = new_allocator(64);

    let (allocation_before, _) = allocator.allocate(64, 8).expect(&format!("Did not allocate"));
    assert_allocator_is_empty(&mut allocator);

    let (reallocation, _) = allocator
        .shrinking_reallocate(32, 8, 64, allocation_before)
        .expect(&format!("Did not reallocate"));
    assert_eq!(allocation_before, reallocation, "Did not shrink allocation within block");

    let _allocation = allocator.allocate(32, 8).expect(&format!("Did not allocate recently freed block"));
    assert_allocator_is_empty(&mut allocator);
}

#[test]
fn deallocation() {
    const ALLOCATION_SIZE: usize = 31;

    let mut allocator = new_allocator(32);
    let (allocation, _) = allocator.allocate(ALLOCATION_SIZE, 8).expect(&format!("Did not allocate"));
    assert_allocator_is_empty(&mut allocator);

    allocator.deallocate(ALLOCATION_SIZE, 8, allocation);
    let _allocation = allocator.allocate(ALLOCATION_SIZE, 8).expect(&format!("Did not allocate"));
    assert_allocator_is_empty(&mut allocator);
}

#[test]
fn allocations_come_from_the_start_of_memory_in_ascending_order() {
    let mut allocator = new_allocator(128);
    assert_eq!(allocator.allocate(32, 8), Ok((MEMORY_START, 32)));
    assert_eq!(allocator.allocate(32, 8), Ok((MEMORY_START + 32, 32)));
    assert_eq!(allocator.allocate(64, 8), Ok((MEMORY_START + 64, 64)));
    assert_allocator_is_empty(&mut allocator);
}

#[test]
fn a_larger_block_is_split_for_a_small_allocation() {
    let mut allocator = new_allocator(128);
    // The allocation holds the first 32 bytes of the 128 byte block; the rest went back as
    // free blocks of 32 and 64 bytes.
    assert_eq!(allocator.allocate(1, 1), Ok((MEMORY_START, 32)));
    assert_eq!(allocator.allocate(64, 8), Ok((MEMORY_START + 64, 64)));
    assert_eq!(allocator.allocate(32, 8), Ok((MEMORY_START + 32, 32)));
    assert_allocator_is_empty(&mut allocator);
}

#[test]
fn deallocating_an_allocation_makes_its_bytes_free_again() {
    let mut allocator = new_allocator(64);
    let (first, _) = allocator.allocate(32, 8).unwrap();
    let (second, _) = allocator.allocate(32, 8).unwrap();
    assert_ne!(first, second);
    assert_allocator_is_empty(&mut allocator);
    allocator.deallocate(32, 8, first);
    allocator.deallocate(32, 8, second);
    // The two freed blocks merge into one block of 64 bytes.
    assert_eq!(allocator.allocate(64, 8), Ok((MEMORY_START, 64)));
}

#[test]
fn allocations_larger_than_the_largest_block_fail() {
    let mut allocator = new_allocator(64);
    assert_eq!(allocator.allocate(0x10_0001, 8), Err(AllocError));
    assert_eq!(allocator.allocate(32, 0x20_0000), Err(AllocError));
}

#[test]
fn growing_within_the_block_stays_in_place() {
    let mut allocator = new_allocator(64);
    let (allocation, _) = allocator.allocate(20, 8).unwrap();
    assert_eq!(allocator.growing_reallocate(30, 8, 20, allocation), Ok((allocation, 32)));
}

#[test]
fn growing_into_the_following_free_block_stays_in_place() {
    let mut allocator = new_allocator(64);
    let (allocation, _) = allocator.allocate(32, 8).unwrap();
    assert_eq!(allocator.growing_reallocate(33, 8, 32, allocation), Ok((allocation, 64)));
    assert_allocator_is_empty(&mut allocator);
}

#[test]
fn growing_moves_when_the_following_block_is_taken() {
    let mut allocator = new_allocator(128);
    let (first, _) = allocator.allocate(32, 8).unwrap();
    let (_second, _) = allocator.allocate(32, 8).unwrap();
    let (moved, actual) = allocator.growing_reallocate(64, 8, 32, first).unwrap();
    assert_eq!((moved, actual), (MEMORY_START + 64, 64));
    // The old block was freed.
    assert_eq!(allocator.allocate(32, 8), Ok((first, 32)));
}

#[test]
fn reallocate_to_the_same_size_changes_nothing() {
    let mut allocator = new_allocator(64);
    let (allocation, _) = allocator.allocate(32, 8).unwrap();
    assert_eq!(Allocator::reallocate(&mut allocator, allocation, 32, 8, 32), Ok((allocation, 32)));
}

#[test]
fn reallocate_to_nothing_deallocates() {
    let mut allocator = new_allocator(32);
    let (allocation, _) = allocator.allocate(32, 8).unwrap();
    assert_eq!(
        Allocator::reallocate(&mut allocator, allocation, 32, 8, 0),
        Ok((context_allocator::allocator::ZERO_SIZED_ALLOCATION, 0))
    );
    assert_eq!(allocator.allocate(32, 8), Ok((allocation, 32)));
}

#[test]
fn memory_range_covers_the_managed_memory() {
    let allocator = new_allocator(256);
    let range = allocator.memory_range();
    assert_eq!((range.from, range.to), (MEMORY_START, MEMORY_START + 256));
    assert!(allocator.contains(MEMORY_START));
    assert!(allocator.contains(MEMORY_START + 255));
    assert!(!allocator.contains(MEMORY_START + 256));
    assert!(!allocator.contains(MEMORY_START - 1));
}

#[test]
fn a_memory_source_without_memory_gives_no_allocator() {
    assert!(MultipleBinarySearchTreeAllocator::new(EmptyMemorySource, 64).is_err());
}

#[test]
fn an_allocation_of_96_bytes_takes_a_whole_128_byte_block() {
    let mut allocator = new_allocator(160);
    assert_eq!(allocator.allocate(96, 8), Ok((MEMORY_START, 128)));
    assert_eq!(allocator.allocate(32, 8), Ok((MEMORY_START + 128, 32)));
    assert!(allocator.allocate(32, 8).is_err());
}

#[test]
fn memory_is_cut_into_the_largest_blocks_from_its_start() {
    // 224 bytes: one block of 128 bytes at the start, then one of 64, then one of 32.
    let mut allocator = new_allocator(224);
    assert_eq!(allocator.allocate(128, 8), Ok((MEMORY_START, 128)));
    assert_eq!(allocator.allocate(64, 8), Ok((MEMORY_START + 128, 64)));
    assert_eq!(allocator.allocate(32, 8), Ok((MEMORY_START + 192, 32)));
    assert_allocator_is_empty(&mut allocator);
}

#[test]
fn a_remainder_smaller_than_the_smallest_block_is_not_used() {
    let mut allocator = new_allocator(100);
    assert_eq!(allocator.allocate(64, 8), Ok((MEMORY_START, 64)));
    assert_eq!(allocator.allocate(32, 8), Ok((MEMORY_START + 64, 32)));
    assert_allocator_is_empty(&mut allocator);
}

#[test]
fn two_freed_neighbours_merge_into_one_block_of_twice_the_size() {
    // 96 bytes: a block of 64 bytes, then one of 32.
    let mut allocator = new_allocator(96);
    assert_eq!(allocator.allocate(64, 64), Ok((MEMORY_START, 64)));
    // The second half of the allocated block is freed next to the free block of 32 bytes.
    allocator.deallocate(32, 8, MEMORY_START + 32);
    assert_eq!(allocator.allocate(64, 32), Ok((MEMORY_START + 32, 64)));
    assert_eq!(allocator.allocate(32, 8), Err(AllocError));
}

#[test]
fn giving_back_an_exact_size_block_restores_the_free_blocks() {
    let mut allocator = new_allocator(96);
    assert_eq!(allocator.allocate(32, 8), Ok((MEMORY_START + 64, 32)));
    allocator.deallocate(32, 8, MEMORY_START + 64);
    assert_eq!(allocator.allocate(64, 8), Ok((MEMORY_START, 64)));
    assert_eq!(allocator.allocate(32, 8), Ok((MEMORY_START + 64, 32)));
    assert_allocator_is_empty(&mut allocator);
}

#[test]
fn releasing_the_allocator_gives_its_memory_back_to_the_source() {
    let source = RecordingMemorySource { address: MEMORY_START, released: Vec::new() };
    let mut allocator = MultipleBinarySearchTreeAllocator::new(source, 256).expect("Did not create allocator");
    assert_eq!(allocator.allocate(32, 8), Ok((MEMORY_START, 32)));
    let source = allocator.release_memory();
    assert_eq!(source.released, vec![(256, MEMORY_START)]);
}

#[test]
fn freeing_into_a_run_of_three_merges_all_but_one_end_block() {
    let mut allocator = new_allocator(256);
    for _ in 0..8 {
        allocator.allocate(32, 8).expect("Did not allocate");
    }
    assert_allocator_is_empty(&mut allocator);
    allocator.deallocate(32, 8, MEMORY_START + 64);
    allocator.deallocate(32, 8, MEMORY_START);
    // The run of three free 32-byte blocks: the two from the freed block on become one
    // 64-byte block, and the block at the run's other end keeps its size.
    allocator.deallocate(32, 8, MEMORY_START + 32);
    assert_eq!(allocator.allocate(32, 8), Ok((MEMORY_START, 32)));
    assert_eq!(allocator.allocate(64, 8), Ok((MEMORY_START + 32, 64)));
    assert_allocator_is_empty(&mut allocator);
}
