//! Tracking how much memory a local allocator has handed out.
//!
//! The counters are 64-bit and wrap around at `2^64`, as the machine's unsigned arithmetic
//! does; all of the arithmetic below is modulo `2^64`.
use vstd::prelude::*;
use crate::allocator::{AllocError, Allocator};
use crate::local_allocator::{LocalAllocator, MemoryRange};

verus! {

/// `value` reduced modulo `2^64`.
pub open spec fn wrapped(value: int) -> int {
    value % 0x1_0000_0000_0000_0000
}

/// Local allocator memory usage: running totals of the bytes allocated, deallocated, added by
/// growing reallocations and removed by shrinking ones.
#[derive(Clone, Copy, Debug, PartialEq, Eq, Structural)]
pub struct LocalAllocatorMemoryUsage {
    allocated: u64,
    deallocated: u64,
    growing_reallocated: u64,
    shrinking_reallocated: u64,
}

impl LocalAllocatorMemoryUsage {
    /// The bytes allocated.
    pub closed spec fn allocated_bytes(&self) -> int {
        self.allocated as int
    }

    /// The bytes deallocated.
    pub closed spec fn deallocated_bytes(&self) -> int {
        self.deallocated as int
    }

    /// The bytes added by growing reallocations.
    pub closed spec fn grown_bytes(&self) -> int {
        self.growing_reallocated as int
    }

    /// The bytes removed by shrinking reallocations.
    pub closed spec fn shrunk_bytes(&self) -> int {
        self.shrinking_reallocated as int
    }

    /// The bytes in use: added less removed, modulo `2^64`.
    pub open spec fn bytes_in_use(&self) -> int {
        wrapped(wrapped(self.allocated_bytes() + self.grown_bytes()) - wrapped(
            self.deallocated_bytes() + self.shrunk_bytes(),
        ))
    }

    /// No memory used yet.
    pub fn new() -> (usage: Self)
        ensures
            usage.allocated_bytes() == 0,
            usage.deallocated_bytes() == 0,
            usage.grown_bytes() == 0,
            usage.shrunk_bytes() == 0,
    {
        LocalAllocatorMemoryUsage { allocated: 0, deallocated: 0, growing_reallocated: 0, shrinking_reallocated: 0 }
    }

    /// Memory usage: the bytes allocated or grown less those deallocated or shrunk.
    pub fn usage(&self) -> (usage: u64)
        ensures
            usage == self.bytes_in_use(),
    {
        let added = self.get_allocated().wrapping_add(self.get_growing_reallocated());
        let removed = self.get_deallocated().wrapping_add(self.get_shrinking_reallocated());
        added.wrapping_sub(removed)
    }

    /// The usage between `earlier` and this one: each counter less `earlier`'s.
    pub fn sub(self, earlier: Self) -> (difference: Self)
        ensures
            difference.allocated_bytes() == wrapped(self.allocated_bytes() - earlier.allocated_bytes()),
            difference.deallocated_bytes() == wrapped(self.deallocated_bytes() - earlier.deallocated_bytes()),
            difference.grown_bytes() == wrapped(self.grown_bytes() - earlier.grown_bytes()),
            difference.shrunk_bytes() == wrapped(self.shrunk_bytes() - earlier.shrunk_bytes()),
    {
        LocalAllocatorMemoryUsage {
            allocated: self.get_allocated().wrapping_sub(earlier.get_allocated()),
            deallocated: self.get_deallocated().wrapping_sub(earlier.get_deallocated()),
            growing_reallocated: self.get_growing_reallocated().wrapping_sub(earlier.get_growing_reallocated()),
            shrinking_reallocated: self.get_shrinking_reallocated().wrapping_sub(earlier.get_shrinking_reallocated()),
        }
    }

    /// Records an allocation of `size` bytes.
    pub fn allocated(&mut self, size: usize)
        ensures
            final(self).allocated_bytes() == wrapped(old(self).allocated_bytes() + size),
            final(self).deallocated_bytes() == old(self).deallocated_bytes(),
            final(self).grown_bytes() == old(self).grown_bytes(),
            final(self).shrunk_bytes() == old(self).shrunk_bytes(),
    {
        self.allocated = self.get_allocated().wrapping_add(size as u64);
    }

    /// Records a deallocation of `size` bytes.
    pub fn deallocated(&mut self, size: usize)
        ensures
            final(self).deallocated_bytes() == wrapped(old(self).deallocated_bytes() + size),
            final(self).allocated_bytes() == old(self).allocated_bytes(),
            final(self).grown_bytes() == old(self).grown_bytes(),
            final(self).shrunk_bytes() == old(self).shrunk_bytes(),
    {
        self.deallocated = self.get_deallocated().wrapping_add(size as u64);
    }

    /// Records growing an allocation of `non_zero_current_size` bytes to `size` bytes.
    pub fn growing_reallocated(&mut self, non_zero_current_size: usize, size: usize)
        ensures
            final(self).grown_bytes() == wrapped(old(self).grown_bytes() + wrapped(size - non_zero_current_size)),
            final(self).allocated_bytes() == old(self).allocated_bytes(),
            final(self).deallocated_bytes() == old(self).deallocated_bytes(),
            final(self).shrunk_bytes() == old(self).shrunk_bytes(),
    {
        let grown = (size as u64).wrapping_sub(non_zero_current_size as u64);
        self.growing_reallocated = self.get_growing_reallocated().wrapping_add(grown);
    }

    /// Records shrinking an allocation of `non_zero_current_size` bytes to `size` bytes.
    pub fn shrinking_reallocated(&mut self, non_zero_current_size: usize, size: usize)
        ensures
            final(self).shrunk_bytes() == wrapped(old(self).shrunk_bytes() + wrapped(non_zero_current_size - size)),
            final(self).allocated_bytes() == old(self).allocated_bytes(),
            final(self).deallocated_bytes() == old(self).deallocated_bytes(),
            final(self).grown_bytes() == old(self).grown_bytes(),
    {
        let shrunk = (non_zero_current_size as u64).wrapping_sub(size as u64);
        self.shrinking_reallocated = self.get_shrinking_reallocated().wrapping_add(shrunk);
    }

    /// The bytes allocated.
    pub fn get_allocated(&self) -> (bytes: u64)
        ensures
            bytes == self.allocated_bytes(),
    {
        self.allocated
    }

    /// The bytes deallocated.
    pub fn get_deallocated(&self) -> (bytes: u64)
        ensures
            bytes == self.deallocated_bytes(),
    {
        self.deallocated
    }

    /// The bytes added by growing reallocations.
    pub fn get_growing_reallocated(&self) -> (bytes: u64)
        ensures
            bytes == self.grown_bytes(),
    {
        self.growing_reallocated
    }

    /// The bytes removed by shrinking reallocations.
    pub fn get_shrinking_reallocated(&self) -> (bytes: u64)
        ensures
            bytes == self.shrunk_bytes(),
    {
        self.shrinking_reallocated
    }
}

impl Default for LocalAllocatorMemoryUsage {
    /// No memory used yet.
    fn default() -> (usage: Self)
        ensures
            usage.allocated_bytes() == 0,
            usage.deallocated_bytes() == 0,
            usage.grown_bytes() == 0,
            usage.shrunk_bytes() == 0,
    {
        Self::new()
    }
}

/// Recording an allocation and then a deallocation of the same number of bytes leaves the
/// memory usage as it was.
pub proof fn lemma_allocate_then_deallocate_keeps_usage(before: LocalAllocatorMemoryUsage, after: LocalAllocatorMemoryUsage, size: int)
    requires
        after.allocated_bytes() == wrapped(before.allocated_bytes() + size),
        after.deallocated_bytes() == wrapped(before.deallocated_bytes() + size),
        after.grown_bytes() == before.grown_bytes(),
        after.shrunk_bytes() == before.shrunk_bytes(),
    ensures
        after.bytes_in_use() == before.bytes_in_use(),
{
    let modulus: int = 0x1_0000_0000_0000_0000;
    let allocated = before.allocated_bytes();
    let deallocated = before.deallocated_bytes();
    let grown = before.grown_bytes();
    let shrunk = before.shrunk_bytes();
    let allocated_after = after.allocated_bytes();
    let deallocated_after = after.deallocated_bytes();
    vstd::arithmetic::div_mod::lemma_sub_mod_noop(allocated_after + grown, deallocated_after + shrunk, modulus);
    vstd::arithmetic::div_mod::lemma_sub_mod_noop(allocated + grown, deallocated + shrunk, modulus);
    vstd::arithmetic::div_mod::lemma_sub_mod_noop(allocated + size, deallocated + size, modulus);
    let difference = allocated_after - deallocated_after;
    vstd::arithmetic::div_mod::lemma_add_mod_noop(difference, grown - shrunk, modulus);
    vstd::arithmetic::div_mod::lemma_add_mod_noop(allocated - deallocated, grown - shrunk, modulus);
    assert((allocated_after + grown) - (deallocated_after + shrunk) == difference + (grown - shrunk));
    assert((allocated + grown) - (deallocated + shrunk) == (allocated - deallocated) + (grown - shrunk));
    vstd::arithmetic::div_mod::lemma_mod_twice(grown - shrunk, modulus);
}

/// The difference of two values reduced modulo `2^64`, itself reduced, is their difference
/// reduced.
proof fn lemma_wrapped_difference(a: int, b: int)
    ensures
        wrapped(wrapped(a) - wrapped(b)) == wrapped(a - b),
{
    vstd::arithmetic::div_mod::lemma_sub_mod_noop(a, b, 0x1_0000_0000_0000_0000);
}

/// The memory usage of the difference of two records is the difference of their memory usages,
/// modulo `2^64`.
pub proof fn lemma_sub_gives_difference_of_usage(later: LocalAllocatorMemoryUsage, earlier: LocalAllocatorMemoryUsage, difference: LocalAllocatorMemoryUsage)
    requires
        difference.allocated_bytes() == wrapped(later.allocated_bytes() - earlier.allocated_bytes()),
        difference.deallocated_bytes() == wrapped(later.deallocated_bytes() - earlier.deallocated_bytes()),
        difference.grown_bytes() == wrapped(later.grown_bytes() - earlier.grown_bytes()),
        difference.shrunk_bytes() == wrapped(later.shrunk_bytes() - earlier.shrunk_bytes()),
    ensures
        difference.bytes_in_use() == wrapped(later.bytes_in_use() - earlier.bytes_in_use()),
{
    let modulus: int = 0x1_0000_0000_0000_0000;
    let later_added = later.allocated_bytes() + later.grown_bytes();
    let later_removed = later.deallocated_bytes() + later.shrunk_bytes();
    let earlier_added = earlier.allocated_bytes() + earlier.grown_bytes();
    let earlier_removed = earlier.deallocated_bytes() + earlier.shrunk_bytes();
    let added = difference.allocated_bytes() + difference.grown_bytes();
    let removed = difference.deallocated_bytes() + difference.shrunk_bytes();
    lemma_wrapped_difference(added, removed);
    lemma_wrapped_difference(later_added, later_removed);
    lemma_wrapped_difference(earlier_added, earlier_removed);
    lemma_wrapped_difference(later_added - later_removed, earlier_added - earlier_removed);
    let whole = (later_added - later_removed) - (earlier_added - earlier_removed);
    vstd::arithmetic::div_mod::lemma_fundamental_div_mod(later.allocated_bytes() - earlier.allocated_bytes(), modulus);
    vstd::arithmetic::div_mod::lemma_fundamental_div_mod(later.grown_bytes() - earlier.grown_bytes(), modulus);
    vstd::arithmetic::div_mod::lemma_fundamental_div_mod(later.deallocated_bytes() - earlier.deallocated_bytes(), modulus);
    vstd::arithmetic::div_mod::lemma_fundamental_div_mod(later.shrunk_bytes() - earlier.shrunk_bytes(), modulus);
    let multiple = (later.deallocated_bytes() - earlier.deallocated_bytes()) / modulus
        + (later.shrunk_bytes() - earlier.shrunk_bytes()) / modulus
        - (later.allocated_bytes() - earlier.allocated_bytes()) / modulus
        - (later.grown_bytes() - earlier.grown_bytes()) / modulus;
    assert(added - removed == modulus * multiple + whole);
    vstd::arithmetic::div_mod::lemma_mod_multiples_vanish(multiple, whole, modulus);
}

/// An allocator that tracks the memory usage of the local allocator it wraps.
///
/// Usage is tracked in the sizes requested, not the sizes the local allocator actually hands
/// out, since a reallocation does not know the size its allocation was actually given.
pub struct MemoryUsageTrackingThreadLocalAllocator<LA: LocalAllocator> {
    local_allocator: LA,
    local_allocator_memory_usage: LocalAllocatorMemoryUsage,
}

impl<LA: LocalAllocator> MemoryUsageTrackingThreadLocalAllocator<LA> {
    /// The wrapped allocator.
    pub closed spec fn inner(&self) -> LA {
        self.local_allocator
    }

    /// The usage recorded so far.
    pub closed spec fn usage_so_far(&self) -> LocalAllocatorMemoryUsage {
        self.local_allocator_memory_usage
    }

    /// Tracks the memory usage of `local_allocator`, from none.
    pub fn new(local_allocator: LA) -> (allocator: Self)
        ensures
            allocator.inner() == local_allocator,
            allocator.usage_so_far().allocated_bytes() == 0,
            allocator.usage_so_far().deallocated_bytes() == 0,
            allocator.usage_so_far().grown_bytes() == 0,
            allocator.usage_so_far().shrunk_bytes() == 0,
    {
        MemoryUsageTrackingThreadLocalAllocator {
            local_allocator,
            local_allocator_memory_usage: LocalAllocatorMemoryUsage::new(),
        }
    }

    /// Memory usage.
    pub fn memory_usage(&self) -> (usage: &LocalAllocatorMemoryUsage)
        ensures
            *usage == self.usage_so_far(),
    {
        &self.local_allocator_memory_usage
    }
}

impl<LA: LocalAllocator> Allocator for MemoryUsageTrackingThreadLocalAllocator<LA> {
    open spec fn valid(&self) -> bool {
        self.inner().valid()
    }

    open spec fn accepts(&self, non_zero_size: usize, non_zero_power_of_two_alignment: usize) -> bool {
        self.inner().accepts(non_zero_size, non_zero_power_of_two_alignment)
    }

    open spec fn accepts_growth(&self, non_zero_new_size: usize, non_zero_power_of_two_alignment: usize, current_memory: usize) -> bool {
        self.inner().accepts_growth(non_zero_new_size, non_zero_power_of_two_alignment, current_memory)
    }

    open spec fn holds(&self, non_zero_size: usize, non_zero_power_of_two_alignment: usize, current_memory: usize) -> bool {
        self.inner().holds(non_zero_size, non_zero_power_of_two_alignment, current_memory)
    }

    fn takes(&self, non_zero_size: usize, non_zero_power_of_two_alignment: usize) -> (taken: bool) {
        self.local_allocator.takes(non_zero_size, non_zero_power_of_two_alignment)
    }

    fn takes_growth(&self, non_zero_new_size: usize, non_zero_power_of_two_alignment: usize, current_memory: usize) -> (taken: bool) {
        self.local_allocator.takes_growth(non_zero_new_size, non_zero_power_of_two_alignment, current_memory)
    }

    /// What allocating gives: what the tracked allocator gives, with the bytes counted.
    open spec fn allocate_outcome(&self, after: &Self, non_zero_size: usize, non_zero_power_of_two_alignment: usize, result: Result<(usize, usize), AllocError>) -> bool {
        &&& self.inner().allocate_outcome(&after.inner(), non_zero_size, non_zero_power_of_two_alignment, result)
        &&& match result {
            Ok(_) => after.usage_so_far().allocated_bytes() == wrapped(
                self.usage_so_far().allocated_bytes() + non_zero_size,
            ) && after.usage_so_far().deallocated_bytes() == self.usage_so_far().deallocated_bytes()
                && after.usage_so_far().grown_bytes() == self.usage_so_far().grown_bytes()
                && after.usage_so_far().shrunk_bytes() == self.usage_so_far().shrunk_bytes(),
            Err(_) => after.usage_so_far() == self.usage_so_far(),
        }
    }

    /// What taking back an allocation gives: what the tracked allocator gives, with the bytes
    /// counted.
    open spec fn deallocate_outcome(&self, after: &Self, non_zero_size: usize, non_zero_power_of_two_alignment: usize, current_memory: usize) -> bool {
        &&& self.inner().deallocate_outcome(&after.inner(), non_zero_size, non_zero_power_of_two_alignment, current_memory)
        &&& after.usage_so_far().deallocated_bytes() == wrapped(self.usage_so_far().deallocated_bytes() + non_zero_size)
        &&& after.usage_so_far().allocated_bytes() == self.usage_so_far().allocated_bytes()
        &&& after.usage_so_far().grown_bytes() == self.usage_so_far().grown_bytes()
        &&& after.usage_so_far().shrunk_bytes() == self.usage_so_far().shrunk_bytes()
    }

    /// What growing an allocation gives: what the tracked allocator gives, with the bytes
    /// counted.
    open spec fn grow_outcome(&self, after: &Self, non_zero_new_size: usize, non_zero_power_of_two_alignment: usize, non_zero_current_size: usize, current_memory: usize, result: Result<(usize, usize), AllocError>) -> bool {
        &&& self.inner().grow_outcome(&after.inner(), non_zero_new_size, non_zero_power_of_two_alignment, non_zero_current_size, current_memory, result)
        &&& match result {
            Ok(_) => after.usage_so_far().grown_bytes() == wrapped(
                self.usage_so_far().grown_bytes() + wrapped(non_zero_new_size - non_zero_current_size),
            ) && after.usage_so_far().allocated_bytes() == self.usage_so_far().allocated_bytes()
                && after.usage_so_far().deallocated_bytes() == self.usage_so_far().deallocated_bytes()
                && after.usage_so_far().shrunk_bytes() == self.usage_so_far().shrunk_bytes(),
            Err(_) => after.usage_so_far() == self.usage_so_far(),
        }
    }

    /// What shrinking an allocation gives: what the tracked allocator gives, with the bytes
    /// counted.
    open spec fn shrink_outcome(&self, after: &Self, non_zero_new_size: usize, non_zero_power_of_two_alignment: usize, non_zero_current_size: usize, current_memory: usize, result: Result<(usize, usize), AllocError>) -> bool {
        &&& self.inner().shrink_outcome(&after.inner(), non_zero_new_size, non_zero_power_of_two_alignment, non_zero_current_size, current_memory, result)
        &&& match result {
            Ok(_) => after.usage_so_far().shrunk_bytes() == wrapped(
                self.usage_so_far().shrunk_bytes() + wrapped(non_zero_current_size - non_zero_new_size),
            ) && after.usage_so_far().allocated_bytes() == self.usage_so_far().allocated_bytes()
                && after.usage_so_far().deallocated_bytes() == self.usage_so_far().deallocated_bytes()
                && after.usage_so_far().grown_bytes() == self.usage_so_far().grown_bytes(),
            Err(_) => after.usage_so_far() == self.usage_so_far(),
        }
    }

    fn allocate(&mut self, non_zero_size: usize, non_zero_power_of_two_alignment: usize) -> (result: Result<(usize, usize), AllocError>) {
        let result = match self.local_allocator.allocate(non_zero_size, non_zero_power_of_two_alignment) {
            Ok(result) => result,
            Err(error) => {
                proof {
                    assert(old(self).allocate_outcome(self, non_zero_size, non_zero_power_of_two_alignment, Err(error)));
                }
                return Err(error);
            },
        };
        self.local_allocator_memory_usage.allocated(non_zero_size);
        proof {
            assert(old(self).allocate_outcome(self, non_zero_size, non_zero_power_of_two_alignment, Ok(result)));
        }
        Ok(result)
    }

    fn deallocate(&mut self, non_zero_size: usize, non_zero_power_of_two_alignment: usize, current_memory: usize) {
        self.local_allocator.deallocate(non_zero_size, non_zero_power_of_two_alignment, current_memory);
        self.local_allocator_memory_usage.deallocated(non_zero_size);
        proof {
            assert(old(self).deallocate_outcome(self, non_zero_size, non_zero_power_of_two_alignment, current_memory));
        }
    }

    fn growing_reallocate(&mut self, non_zero_new_size: usize, non_zero_power_of_two_alignment: usize, non_zero_current_size: usize, current_memory: usize) -> (result: Result<(usize, usize), AllocError>) {
        let result = match self.local_allocator.growing_reallocate(non_zero_new_size, non_zero_power_of_two_alignment, non_zero_current_size, current_memory) {
            Ok(result) => result,
            Err(error) => {
                proof {
                    assert(old(self).grow_outcome(self, non_zero_new_size, non_zero_power_of_two_alignment, non_zero_current_size, current_memory, Err(error)));
                }
                return Err(error);
            },
        };
        self.local_allocator_memory_usage.growing_reallocated(non_zero_current_size, non_zero_new_size);
        proof {
            assert(old(self).grow_outcome(self, non_zero_new_size, non_zero_power_of_two_alignment, non_zero_current_size, current_memory, Ok(result)));
        }
        Ok(result)
    }

    fn shrinking_reallocate(&mut self, non_zero_new_size: usize, non_zero_power_of_two_alignment: usize, non_zero_current_size: usize, current_memory: usize) -> (result: Result<(usize, usize), AllocError>) {
        let result = match self.local_allocator.shrinking_reallocate(non_zero_new_size, non_zero_power_of_two_alignment, non_zero_current_size, current_memory) {
            Ok(result) => result,
            Err(error) => {
                proof {
                    assert(old(self).shrink_outcome(self, non_zero_new_size, non_zero_power_of_two_alignment, non_zero_current_size, current_memory, Err(error)));
                }
                return Err(error);
            },
        };
        self.local_allocator_memory_usage.shrinking_reallocated(non_zero_current_size, non_zero_new_size);
        proof {
            assert(old(self).shrink_outcome(self, non_zero_new_size, non_zero_power_of_two_alignment, non_zero_current_size, current_memory, Ok(result)));
        }
        Ok(result)
    }
}

impl<LA: LocalAllocator> LocalAllocator for MemoryUsageTrackingThreadLocalAllocator<LA> {
    open spec fn range(&self) -> MemoryRange {
        self.inner().range()
    }

    fn memory_range(&self) -> (range: MemoryRange) {
        self.local_allocator.memory_range()
    }
}

} // verus!
