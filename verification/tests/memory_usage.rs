use context_allocator::allocator::{AllocError, Allocator};
use context_allocator::local_allocator::LocalAllocator;
use context_allocator::memory_source::MemorySource;
use context_allocator::memory_usage::{LocalAllocatorMemoryUsage, MemoryUsageTrackingThreadLocalAllocator};
use context_allocator::multiple_binary_search_tree_allocator::MultipleBinarySearchTreeAllocator;

#[derive(Debug)]
struct FixedMemorySource {
    address: usize,
}

impl MemorySource for FixedMemorySource {
    fn can_obtain(&self, _non_zero_size: usize) -> bool {
        true
    }

    fn can_release(&self, _non_zero_size: usize, _current_memory: usize) -> bool {
        true
    }

    fn obtain_outcome(&self, _after: &Self, _non_zero_size: usize, _obtained: Result<usize, AllocError>) -> bool {
        true
    }

    fn release_outcome(&self, _after: &Self, _non_zero_size: usize, _current_memory: usize) -> bool {
        true
    }

    fn obtain(&mut self, _non_zero_size: usize) -> Result<usize, AllocError> {
        Ok(self.address)
    }

    fn release(&mut self, _non_zero_size: usize, _current_memory: usize) {}
}

#[test]
fn new_memory_usage_is_zero() {
    let usage = LocalAllocatorMemoryUsage::new();
    assert_eq!(usage.usage(), 0);
    assert_eq!(LocalAllocatorMemoryUsage::default(), usage);
}

#[test]
fn memory_usage_is_added_less_removed() {
    let mut usage = LocalAllocatorMemoryUsage::new();
    usage.allocated(100);
    usage.deallocated(40);
    assert_eq!(usage.usage(), 60);
    usage.growing_reallocated(10, 30);
    assert_eq!(usage.usage(), 80);
    usage.shrinking_reallocated(30, 5);
    assert_eq!(usage.usage(), 55);
    assert_eq!(
        (usage.get_allocated(), usage.get_deallocated(), usage.get_growing_reallocated(), usage.get_shrinking_reallocated()),
        (100, 40, 20, 25)
    );
}

#[test]
fn memory_usage_after_allocate_then_deallocate_is_unchanged() {
    let mut usage = LocalAllocatorMemoryUsage::new();
    usage.allocated(64);
    let before = usage.usage();
    usage.allocated(32);
    usage.deallocated(32);
    assert_eq!(usage.usage(), before);
}

#[test]
fn memory_usage_difference_of_snapshots() {
    let mut usage = LocalAllocatorMemoryUsage::new();
    usage.allocated(100);
    let earlier = usage;
    usage.allocated(50);
    usage.deallocated(20);
    let difference = usage.sub(earlier);
    assert_eq!(difference.get_allocated(), 50);
    assert_eq!(difference.get_deallocated(), 20);
    assert_eq!(difference.usage(), 30);
}

#[test]
fn memory_usage_counters_wrap() {
    let mut usage = LocalAllocatorMemoryUsage::new();
    usage.deallocated(1);
    assert_eq!(usage.usage(), u64::MAX);
}

#[test]
fn tracking_allocator_records_the_requested_sizes() {
    let local_allocator = MultipleBinarySearchTreeAllocator::new(FixedMemorySource { address: 0x10_0000 }, 128).unwrap();
    let mut allocator = MemoryUsageTrackingThreadLocalAllocator::new(local_allocator);
    assert_eq!(allocator.memory_usage().usage(), 0);
    let (address, actual_size) = Allocator::allocate(&mut allocator, 100, 8).unwrap();
    assert_eq!(actual_size, 128);
    // Usage counts the 100 bytes asked for, not the 128-byte block that holds them.
    assert_eq!(allocator.memory_usage().usage(), 100);
    Allocator::deallocate(&mut allocator, 100, 8, address);
    assert_eq!(allocator.memory_usage().usage(), 0);
    assert_eq!(allocator.memory_usage().get_allocated(), 100);
    assert_eq!(allocator.memory_usage().get_deallocated(), 100);
}

#[test]
fn tracking_allocator_has_the_memory_range_of_the_local_allocator() {
    let local_allocator = MultipleBinarySearchTreeAllocator::new(FixedMemorySource { address: 0x10_0000 }, 256).unwrap();
    let allocator = MemoryUsageTrackingThreadLocalAllocator::new(local_allocator);
    let range = allocator.memory_range();
    assert_eq!((range.from, range.to), (0x10_0000, 0x10_0100));
    assert!(allocator.contains(0x10_0080));
}

#[test]
fn memory_usage_of_a_difference_is_the_difference_of_usages() {
    let mut usage = LocalAllocatorMemoryUsage::new();
    usage.allocated(10);
    let earlier = usage;
    usage.deallocated(30);
    usage.growing_reallocated(8, 16);
    let difference = usage.sub(earlier);
    assert_eq!(difference.usage(), usage.usage().wrapping_sub(earlier.usage()));
    assert_eq!(difference.usage(), 0u64.wrapping_sub(22));
}
