use context_allocator::allocator::{AllocError, Allocator};
use context_allocator::bump_allocator::BumpAllocator;
use context_allocator::memory_source::MemorySource;

const START: usize = 0x2000;

#[derive(Debug)]
struct FixedMemorySource {
    address: usize,
}

impl MemorySource for FixedMemorySource {
    fn can_obtain(&self, _non_zero_size: usize) -> bool {
        true
    }

    fn can_release(&self, _non_zero_size: usize, _current_memory: usize) -> bool {
        true
    }

    fn obtain_outcome(&self, _after: &Self, _non_zero_size: usize, _obtained: Result<usize, AllocError>) -> bool {
        true
    }

    fn release_outcome(&self, _after: &Self, _non_zero_size: usize, _current_memory: usize) -> bool {
        true
    }

    fn obtain(&mut self, _non_zero_size: usize) -> Result<usize, AllocError> {
        Ok(self.address)
    }

    fn release(&mut self, _non_zero_size: usize, _current_memory: usize) {}
}

/// Hands out the memory at one fixed address and records each range given back.
#[derive(Debug)]
struct RecordingMemorySource {
    address: usize,
    released: Vec<(usize, usize)>,
}

impl MemorySource for RecordingMemorySource {
    fn can_obtain(&self, _non_zero_size: usize) -> bool {
        true
    }

    fn can_release(&self, _non_zero_size: usize, _current_memory: usize) -> bool {
        true
    }

    fn obtain_outcome(&self, _after: &Self, _non_zero_size: usize, _obtained: Result<usize, AllocError>) -> bool {
        true
    }

    fn release_outcome(&self, _after: &Self, _non_zero_size: usize, _current_memory: usize) -> bool {
        true
    }

    fn obtain(&mut self, _non_zero_size: usize) -> Result<usize, AllocError> {
        Ok(self.address)
    }

    fn release(&mut self, non_zero_size: usize, current_memory: usize) {
        self.released.push((non_zero_size, current_memory));
    }
}

fn new_bump_allocator(size: usize) -> BumpAllocator<FixedMemorySource> {
    BumpAllocator::new(FixedMemorySource { address: START }, size).expect("Did not create allocator")
}

#[test]
fn bump_allocations_follow_each_other_aligned() {
    let mut allocator = new_bump_allocator(100);
    assert_eq!(allocator.allocate(10, 1), Ok((START, 10)));
    assert_eq!(allocator.allocate(10, 8), Ok((START + 16, 10)));
    assert_eq!(allocator.allocate(4, 4), Ok((START + 28, 4)));
}

#[test]
fn bump_allocation_past_the_end_fails() {
    let mut allocator = new_bump_allocator(100);
    assert_eq!(allocator.allocate(90, 1), Ok((START, 90)));
    assert_eq!(allocator.allocate(11, 1), Err(AllocError));
    assert_eq!(allocator.allocate(10, 1), Ok((START + 90, 10)));
    assert_eq!(allocator.allocate(1, 1), Err(AllocError));
}

#[test]
fn bump_deallocating_the_most_recent_allocation_gives_its_bytes_back() {
    let mut allocator = new_bump_allocator(100);
    let (first, _) = allocator.allocate(10, 1).unwrap();
    let (second, _) = allocator.allocate(10, 1).unwrap();
    allocator.deallocate(10, 1, first);
    assert_eq!(allocator.allocate(1, 1), Ok((START + 20, 1)));
    allocator.deallocate(1, 1, START + 20);
    assert_eq!(allocator.allocate(1, 1), Ok((START + 20, 1)));
    assert_ne!(first, second);
}

#[test]
fn bump_growing_the_most_recent_allocation_stays_in_place() {
    let mut allocator = new_bump_allocator(100);
    let (allocation, _) = allocator.allocate(10, 1).unwrap();
    assert_eq!(allocator.growing_reallocate(50, 1, 10, allocation), Ok((allocation, 50)));
    assert_eq!(allocator.allocate(1, 1), Ok((START + 50, 1)));
}

#[test]
fn bump_growing_the_most_recent_allocation_past_the_end_fails() {
    let mut allocator = new_bump_allocator(100);
    let (allocation, _) = allocator.allocate(10, 1).unwrap();
    assert_eq!(allocator.growing_reallocate(101, 1, 10, allocation), Err(AllocError));
    assert_eq!(allocator.allocate(1, 1), Ok((START + 10, 1)));
}

#[test]
fn bump_growing_an_older_allocation_moves_it() {
    let mut allocator = new_bump_allocator(100);
    let (first, _) = allocator.allocate(10, 1).unwrap();
    let (_second, _) = allocator.allocate(10, 1).unwrap();
    assert_eq!(allocator.growing_reallocate(20, 1, 10, first), Ok((START + 20, 20)));
}

#[test]
fn bump_shrinking_the_most_recent_allocation_gives_back_its_end() {
    let mut allocator = new_bump_allocator(100);
    let (allocation, _) = allocator.allocate(40, 1).unwrap();
    assert_eq!(allocator.shrinking_reallocate(10, 1, 40, allocation), Ok((allocation, 10)));
    assert_eq!(allocator.allocate(1, 1), Ok((START + 10, 1)));
}

#[test]
fn bump_shrinking_an_older_allocation_changes_nothing() {
    let mut allocator = new_bump_allocator(100);
    let (first, _) = allocator.allocate(40, 1).unwrap();
    let (_second, _) = allocator.allocate(10, 1).unwrap();
    assert_eq!(allocator.shrinking_reallocate(10, 1, 40, first), Ok((first, 10)));
    assert_eq!(allocator.allocate(1, 1), Ok((START + 50, 1)));
}

#[test]
fn bump_reallocate_from_nothing_allocates() {
    let mut allocator = new_bump_allocator(100);
    assert_eq!(
        Allocator::reallocate(&mut allocator, context_allocator::allocator::ZERO_SIZED_ALLOCATION, 0, 1, 8),
        Ok((START, 8))
    );
}

#[test]
fn bump_failed_allocation_keeps_the_most_recent_allocation() {
    let mut allocator = new_bump_allocator(64);
    let (first, _) = allocator.allocate(16, 8).unwrap();
    assert_eq!(allocator.allocate(1000, 8), Err(AllocError));
    // The first allocation is still the most recent one: it grows in place.
    assert_eq!(allocator.growing_reallocate(32, 8, 16, first), Ok((first, 32)));
}

#[test]
fn releasing_the_bump_allocator_gives_its_memory_back_to_the_source() {
    let source = RecordingMemorySource { address: START, released: Vec::new() };
    let mut allocator = BumpAllocator::new(source, 100).expect("Did not create allocator");
    assert_eq!(allocator.allocate(10, 1), Ok((START, 10)));
    let source = allocator.release_memory();
    assert_eq!(source.released, vec![(100, START)]);
}

#[test]
fn bump_allocator_tells_which_alignments_it_takes() {
    let allocator = new_bump_allocator(100);
    assert!(allocator.takes(10, 4096));
    assert!(!allocator.takes(10, 8192));
    assert!(allocator.takes_growth(20, 8, START));
    assert!(!allocator.takes_growth(20, 8192, START));
}
