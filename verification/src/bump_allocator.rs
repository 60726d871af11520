//! A very simple bump allocator of minimal utility.
//!
//! It can efficiently shrink and grow (reallocate) the most recent allocation, has no wrapping
//! around at the end, and can not resize in place when alignment left dead space before the
//! next allocation. It never grows or shrinks its memory region.
use vstd::prelude::*;
use crate::allocator::{AllocError, Allocator};
use crate::memory_address::{is_power_of_two, round_up_to_power_of_two};
use crate::memory_source::MemorySource;

verus! {

/// Is `address` the first multiple of `alignment` at or after `from`?
pub open spec fn is_next_aligned(from: int, alignment: int, address: int) -> bool {
    address % alignment == 0 && from <= address < from + alignment
}

/// Within a window of `alignment` consecutive addresses there is only one multiple of
/// `alignment`.
proof fn lemma_aligned_in_window_is_unique(first: int, second: int, from: int, alignment: int)
    requires
        alignment > 0,
        first % alignment == 0,
        second % alignment == 0,
        from <= first < from + alignment,
        from <= second < from + alignment,
    ensures
        first == second,
{
    vstd::arithmetic::div_mod::lemma_fundamental_div_mod(first, alignment);
    vstd::arithmetic::div_mod::lemma_fundamental_div_mod(second, alignment);
    let q1 = first / alignment;
    let q2 = second / alignment;
    if q1 < q2 {
        assert(alignment * q1 + alignment <= alignment * q2) by (nonlinear_arith)
            requires q1 < q2, alignment > 0;
    } else if q2 < q1 {
        assert(alignment * q2 + alignment <= alignment * q1) by (nonlinear_arith)
            requires q2 < q1, alignment > 0;
    }
}


/// The largest alignment a bump allocator is asked for.
pub const MAXIMUM_POWER_OF_TWO_ALIGNMENT: usize = 4096;

/// A bump allocator over the memory obtained from `MS`: allocations are handed out one after
/// another, and only the most recent one can be freed or resized in place.
pub struct BumpAllocator<MS: MemorySource> {
    most_recent_allocation_pointer: usize,
    next_allocation_at_pointer: usize,
    ends_at_pointer: usize,
    memory_source: MS,
    memory_source_size: usize,
}

impl<MS: MemorySource> BumpAllocator<MS> {
    /// The first address of the managed memory.
    pub closed spec fn start(&self) -> int {
        self.ends_at_pointer - self.memory_source_size
    }

    /// The address just past the managed memory.
    pub closed spec fn end(&self) -> int {
        self.ends_at_pointer as int
    }

    /// Where the next allocation starts, before alignment.
    pub closed spec fn next(&self) -> int {
        self.next_allocation_at_pointer as int
    }

    /// The address of the most recent allocation.
    pub closed spec fn most_recent(&self) -> int {
        self.most_recent_allocation_pointer as int
    }

    /// The source the managed memory came from.
    pub closed spec fn memory_source(&self) -> MS {
        self.memory_source
    }

    /// The allocator's invariant.
    pub closed spec fn wf(&self) -> bool {
        &&& self.memory_source_size > 0
        &&& self.memory_source_size <= self.ends_at_pointer
        &&& self.ends_at_pointer - self.memory_source_size <= self.next_allocation_at_pointer
        &&& self.next_allocation_at_pointer <= self.ends_at_pointer
        &&& self.ends_at_pointer - self.memory_source_size <= self.most_recent_allocation_pointer
    }

    /// A bump allocator over `memory_source_size` bytes obtained from `memory_source`.
    pub fn new(memory_source: MS, memory_source_size: usize) -> (result: Result<Self, AllocError>)
        requires
            memory_source_size > 0,
            memory_source.can_obtain(memory_source_size),
        ensures
            result matches Ok(allocator) ==> allocator.wf() && allocator.end() - allocator.start()
                == memory_source_size && allocator.next() == allocator.start()
                && allocator.most_recent() == allocator.start(),
            exists|after: MS, obtained: Result<usize, AllocError>|
                #[trigger] memory_source.obtain_outcome(&after, memory_source_size, obtained)
                    && (obtained is Err <==> result is Err)
                    && (obtained matches Ok(start) ==> result matches Ok(made) && made.start() == start
                        && made.memory_source() == after),
    {
        let ghost given = memory_source;
        let mut memory_source = memory_source;
        let obtained = memory_source.obtain(memory_source_size);
        proof {
            assert(given.obtain_outcome(&memory_source, memory_source_size, obtained));
        }
        let allocations_start_from = match obtained {
            Ok(address) => address,
            Err(error) => return Err(error),
        };
        Ok(Self::new_with_memory(memory_source, allocations_start_from, memory_source_size))
    }

    /// A bump allocator over the `memory_source_size` bytes at `allocations_start_from`, which
    /// `memory_source` handed out.
    pub fn new_with_memory(memory_source: MS, allocations_start_from: usize, memory_source_size: usize) -> (allocator: Self)
        requires
            memory_source_size > 0,
            allocations_start_from + memory_source_size <= usize::MAX,
        ensures
            allocator.wf(),
            allocator.start() == allocations_start_from,
            allocator.end() == allocations_start_from + memory_source_size,
            allocator.next() == allocations_start_from,
            allocator.most_recent() == allocations_start_from,
            allocator.memory_source() == memory_source,
    {
        BumpAllocator {
            most_recent_allocation_pointer: allocations_start_from,
            next_allocation_at_pointer: allocations_start_from,
            ends_at_pointer: allocations_start_from + memory_source_size,
            memory_source,
            memory_source_size,
        }
    }

    /// Gives the managed memory back to the source it came from, and hands back that source.
    pub fn release_memory(self) -> (memory_source: MS)
        requires
            self.wf(),
            self.memory_source().can_release((self.end() - self.start()) as usize, self.start() as usize),
        ensures
            self.memory_source().release_outcome(&memory_source, (self.end() - self.start()) as usize, self.start() as usize),
    {
        let allocations_start_from = self.ends_at_pointer - self.memory_source_size;
        let mut memory_source = self.memory_source;
        memory_source.release(self.memory_source_size, allocations_start_from);
        memory_source
    }

    /// Where an allocation of `non_zero_size` bytes from `allocation_from` would end, if that
    /// is within the managed memory.
    fn allocation_ends_at_pointer(&self, non_zero_size: usize, allocation_from: usize) -> (ends_at: Option<usize>)
        ensures
            match ends_at {
                Some(end) => end == allocation_from + non_zero_size && end <= self.end(),
                None => allocation_from + non_zero_size > self.end(),
            },
    {
        match allocation_from.checked_add(non_zero_size) {
            Some(allocation_ends_at_pointer) => {
                if allocation_ends_at_pointer > self.ends_at_pointer {
                    None
                } else {
                    Some(allocation_ends_at_pointer)
                }
            },
            None => None,
        }
    }

    /// Allocates `non_zero_size` bytes at the next address aligned to
    /// `non_zero_power_of_two_alignment`, which becomes the most recent allocation; when the
    /// bytes do not fit, nothing changes.
    pub fn allocate(&mut self, non_zero_size: usize, non_zero_power_of_two_alignment: usize) -> (result: Result<(usize, usize), AllocError>)
        requires
            old(self).wf(),
            non_zero_size > 0,
            is_power_of_two(non_zero_power_of_two_alignment as int),
            non_zero_power_of_two_alignment <= MAXIMUM_POWER_OF_TWO_ALIGNMENT,
            old(self).next() + non_zero_power_of_two_alignment - 1 <= usize::MAX,
        ensures
            final(self).wf(),
            final(self).start() == old(self).start(),
            final(self).end() == old(self).end(),
            final(self).memory_source() == old(self).memory_source(),
            match result {
                Ok((address, actual_size)) => {
                    &&& is_next_aligned(old(self).next(), non_zero_power_of_two_alignment as int, address as int)
                    &&& address == final(self).most_recent()
                    &&& actual_size == non_zero_size
                    &&& final(self).next() == address + non_zero_size
                    &&& address + non_zero_size <= old(self).end()
                },
                Err(_) => {
                    &&& *final(self) == *old(self)
                    &&& forall|address: int| #[trigger] is_next_aligned(old(self).next(), non_zero_power_of_two_alignment as int, address) ==> address + non_zero_size > old(self).end()
                },
            },
    {
        proof {
            crate::memory_address::lemma_power_of_two_positive_value(non_zero_power_of_two_alignment as int);
        }
        let next_allocation_at_rounded_up_pointer = round_up_to_power_of_two(self.next_allocation_at_pointer, non_zero_power_of_two_alignment);
        let allocation_ends_at_pointer = match self.allocation_ends_at_pointer(non_zero_size, next_allocation_at_rounded_up_pointer) {
            Some(end) => end,
            None => {
                proof {
                    assert forall|address: int| #[trigger] is_next_aligned(old(self).next(), non_zero_power_of_two_alignment as int, address)
                        implies address + non_zero_size > old(self).end() by {
                        lemma_aligned_in_window_is_unique(address, next_allocation_at_rounded_up_pointer as int,
                            old(self).next(), non_zero_power_of_two_alignment as int);
                    }
                }
                return Err(AllocError);
            },
        };
        self.most_recent_allocation_pointer = next_allocation_at_rounded_up_pointer;
        self.next_allocation_at_pointer = allocation_ends_at_pointer;
        Ok((next_allocation_at_rounded_up_pointer, non_zero_size))
    }

    /// Frees the allocation at `current_memory` if it is the most recent one; otherwise its
    /// bytes are not used again.
    pub fn deallocate(&mut self, _non_zero_size: usize, _non_zero_power_of_two_alignment: usize, current_memory: usize)
        requires
            old(self).wf(),
            current_memory == old(self).most_recent() ==> current_memory <= old(self).end(),
        ensures
            final(self).wf(),
            final(self).start() == old(self).start(),
            final(self).end() == old(self).end(),
            final(self).memory_source() == old(self).memory_source(),
            final(self).most_recent() == old(self).most_recent(),
            final(self).next() == if current_memory == old(self).most_recent() {
                old(self).most_recent()
            } else {
                old(self).next()
            },
            current_memory != old(self).most_recent() ==> *final(self) == *old(self),
    {
        if current_memory == self.most_recent_allocation_pointer {
            self.next_allocation_at_pointer = self.most_recent_allocation_pointer;
        }
    }

    /// Shrinks the allocation at `current_memory` to `non_zero_new_size` bytes; when it is the
    /// most recent one, the bytes it no longer uses are handed out again.
    pub fn shrinking_reallocate(&mut self, non_zero_new_size: usize, _non_zero_power_of_two_alignment: usize, non_zero_current_size: usize, current_memory: usize) -> (result: Result<(usize, usize), AllocError>)
        requires
            old(self).wf(),
            non_zero_new_size <= non_zero_current_size,
            current_memory + non_zero_current_size <= usize::MAX,
            current_memory == old(self).most_recent() ==> current_memory + non_zero_current_size <= old(self).end(),
        ensures
            final(self).wf(),
            final(self).start() == old(self).start(),
            final(self).end() == old(self).end(),
            final(self).memory_source() == old(self).memory_source(),
            final(self).most_recent() == old(self).most_recent(),
            result == Ok::<(usize, usize), AllocError>((current_memory, non_zero_new_size)),
            final(self).next() == if current_memory == old(self).most_recent() {
                current_memory + non_zero_new_size
            } else {
                old(self).next() as int
            },
    {
        if current_memory == self.most_recent_allocation_pointer {
            self.next_allocation_at_pointer = current_memory + non_zero_new_size;
        }
        Ok((current_memory, non_zero_new_size))
    }

    /// Grows the allocation at `current_memory` to `non_zero_new_size` bytes: in place when it
    /// is the most recent one and the bytes fit, otherwise as a new allocation (moving the
    /// contents is left to the caller, which owns the memory).
    pub fn growing_reallocate(&mut self, non_zero_new_size: usize, non_zero_power_of_two_alignment: usize, _non_zero_current_size: usize, current_memory: usize) -> (result: Result<(usize, usize), AllocError>)
        requires
            old(self).wf(),
            non_zero_new_size > 0,
            is_power_of_two(non_zero_power_of_two_alignment as int),
            non_zero_power_of_two_alignment <= MAXIMUM_POWER_OF_TWO_ALIGNMENT,
            old(self).next() + non_zero_power_of_two_alignment - 1 <= usize::MAX,
        ensures
            final(self).wf(),
            final(self).start() == old(self).start(),
            final(self).end() == old(self).end(),
            final(self).memory_source() == old(self).memory_source(),
            current_memory == old(self).most_recent() ==> match result {
                Ok((address, actual_size)) => {
                    &&& address == current_memory
                    &&& actual_size == non_zero_new_size
                    &&& final(self).next() == current_memory + non_zero_new_size
                    &&& final(self).most_recent() == old(self).most_recent()
                    &&& current_memory + non_zero_new_size <= old(self).end()
                },
                Err(_) => {
                    &&& current_memory + non_zero_new_size > old(self).end()
                    &&& *final(self) == *old(self)
                },
            },
            current_memory != old(self).most_recent() ==> match result {
                Ok((address, actual_size)) => {
                    &&& is_next_aligned(old(self).next(), non_zero_power_of_two_alignment as int, address as int)
                    &&& address == final(self).most_recent()
                    &&& actual_size == non_zero_new_size
                    &&& final(self).next() == address + non_zero_new_size
                    &&& address + non_zero_new_size <= old(self).end()
                },
                Err(_) => {
                    &&& *final(self) == *old(self)
                    &&& forall|address: int| #[trigger] is_next_aligned(old(self).next(), non_zero_power_of_two_alignment as int, address) ==> address + non_zero_new_size > old(self).end()
                },
            },
    {
        if current_memory == self.most_recent_allocation_pointer {
            let allocation_ends_at_pointer = match self.allocation_ends_at_pointer(non_zero_new_size, current_memory) {
                Some(end) => end,
                None => return Err(AllocError),
            };
            self.next_allocation_at_pointer = allocation_ends_at_pointer;
            Ok((current_memory, non_zero_new_size))
        } else {
            self.allocate(non_zero_new_size, non_zero_power_of_two_alignment)
        }
    }
}

impl<MS: MemorySource> BumpAllocator<MS> {
    /// An allocation never overlaps the allocation made before it: the next one starts at or
    /// after the end of the previous one.
    pub proof fn lemma_allocations_do_not_overlap(first: Self, second: Self, first_address: int, first_size: int, second_address: int)
        requires
            first.next() == first_address + first_size,
            first.next() <= second.most_recent(),
            second_address == second.most_recent(),
        ensures
            first_address + first_size <= second_address,
    {
    }

    /// Freeing the most recent allocation and asking for the same again gives back the same
    /// address.
    pub proof fn lemma_deallocate_then_allocate_again(before: Self, allocated: Self, freed: Self, again: Self, non_zero_size: usize, non_zero_power_of_two_alignment: usize, address: usize, result: Result<(usize, usize), AllocError>)
        requires
            non_zero_power_of_two_alignment > 0,
            before.allocate_outcome(&allocated, non_zero_size, non_zero_power_of_two_alignment, Ok((address, non_zero_size))),
            allocated.deallocate_outcome(&freed, non_zero_size, non_zero_power_of_two_alignment, address),
            freed.allocate_outcome(&again, non_zero_size, non_zero_power_of_two_alignment, result),
        ensures
            result == Ok::<(usize, usize), AllocError>((address, non_zero_size)),
            again.next() == allocated.next(),
            again.most_recent() == allocated.most_recent(),
    {
        assert(is_next_aligned(freed.next(), non_zero_power_of_two_alignment as int, address as int));
        match result {
            Ok((other, _)) => {
                lemma_aligned_in_window_is_unique(other as int, address as int, freed.next(), non_zero_power_of_two_alignment as int);
            },
            Err(_) => {},
        }
    }
}

impl<MS: MemorySource> Allocator for BumpAllocator<MS> {
    open spec fn valid(&self) -> bool {
        self.wf()
    }

    open spec fn accepts(&self, non_zero_size: usize, non_zero_power_of_two_alignment: usize) -> bool {
        &&& non_zero_power_of_two_alignment <= MAXIMUM_POWER_OF_TWO_ALIGNMENT
        &&& self.next() + non_zero_power_of_two_alignment - 1 <= usize::MAX
    }

    open spec fn accepts_growth(&self, non_zero_new_size: usize, non_zero_power_of_two_alignment: usize, current_memory: usize) -> bool {
        &&& non_zero_power_of_two_alignment <= MAXIMUM_POWER_OF_TWO_ALIGNMENT
        &&& self.next() + non_zero_power_of_two_alignment - 1 <= usize::MAX
    }

    open spec fn holds(&self, non_zero_size: usize, non_zero_power_of_two_alignment: usize, current_memory: usize) -> bool {
        &&& current_memory + non_zero_size <= usize::MAX
        &&& current_memory == self.most_recent() ==> current_memory + non_zero_size <= self.end()
    }

    fn takes(&self, non_zero_size: usize, non_zero_power_of_two_alignment: usize) -> (taken: bool) {
        non_zero_power_of_two_alignment <= MAXIMUM_POWER_OF_TWO_ALIGNMENT
            && (non_zero_power_of_two_alignment == 0
                || non_zero_power_of_two_alignment - 1 <= usize::MAX - self.next_allocation_at_pointer)
    }

    fn takes_growth(&self, non_zero_new_size: usize, non_zero_power_of_two_alignment: usize, current_memory: usize) -> (taken: bool) {
        self.takes(non_zero_new_size, non_zero_power_of_two_alignment)
    }

    /// What allocating gives.
    open spec fn allocate_outcome(&self, after: &Self, non_zero_size: usize, non_zero_power_of_two_alignment: usize, result: Result<(usize, usize), AllocError>) -> bool {
        &&& after.start() == self.start()
        &&& after.end() == self.end()
        &&& after.memory_source() == self.memory_source()
        &&& match result {
            Ok((address, actual_size)) => {
                &&& is_next_aligned(self.next(), non_zero_power_of_two_alignment as int, address as int)
                &&& address == after.most_recent()
                &&& actual_size == non_zero_size
                &&& after.next() == address + non_zero_size
                &&& address + non_zero_size <= self.end()
            },
            Err(_) => {
                &&& *after == *self
                &&& forall|address: int| #[trigger] is_next_aligned(self.next(), non_zero_power_of_two_alignment as int, address) ==> address + non_zero_size > self.end()
            },
        }
    }

    /// What taking back an allocation gives.
    open spec fn deallocate_outcome(&self, after: &Self, non_zero_size: usize, non_zero_power_of_two_alignment: usize, current_memory: usize) -> bool {
        &&& after.start() == self.start()
        &&& after.end() == self.end()
        &&& after.memory_source() == self.memory_source()
        &&& after.most_recent() == self.most_recent()
        &&& after.next() == if current_memory == self.most_recent() {
            self.most_recent()
        } else {
            self.next()
        }
        &&& current_memory != self.most_recent() ==> *after == *self
    }

    /// What growing an allocation gives.
    open spec fn grow_outcome(&self, after: &Self, non_zero_new_size: usize, non_zero_power_of_two_alignment: usize, non_zero_current_size: usize, current_memory: usize, result: Result<(usize, usize), AllocError>) -> bool {
        &&& after.start() == self.start()
        &&& after.end() == self.end()
        &&& after.memory_source() == self.memory_source()
        &&& current_memory == self.most_recent() ==> match result {
            Ok((address, actual_size)) => {
                &&& address == current_memory
                &&& actual_size == non_zero_new_size
                &&& after.next() == current_memory + non_zero_new_size
                &&& after.most_recent() == self.most_recent()
                &&& current_memory + non_zero_new_size <= self.end()
            },
            Err(_) => {
                &&& current_memory + non_zero_new_size > self.end()
                &&& *after == *self
            },
        }
        &&& current_memory != self.most_recent() ==> match result {
            Ok((address, actual_size)) => {
                &&& is_next_aligned(self.next(), non_zero_power_of_two_alignment as int, address as int)
                &&& address == after.most_recent()
                &&& actual_size == non_zero_new_size
                &&& after.next() == address + non_zero_new_size
                &&& address + non_zero_new_size <= self.end()
            },
            Err(_) => {
                &&& *after == *self
                &&& forall|address: int| #[trigger] is_next_aligned(self.next(), non_zero_power_of_two_alignment as int, address) ==> address + non_zero_new_size > self.end()
            },
        }
    }

    /// What shrinking an allocation gives.
    open spec fn shrink_outcome(&self, after: &Self, non_zero_new_size: usize, non_zero_power_of_two_alignment: usize, non_zero_current_size: usize, current_memory: usize, result: Result<(usize, usize), AllocError>) -> bool {
        &&& after.start() == self.start()
        &&& after.end() == self.end()
        &&& after.memory_source() == self.memory_source()
        &&& after.most_recent() == self.most_recent()
        &&& result == Ok::<(usize, usize), AllocError>((current_memory, non_zero_new_size))
        &&& after.next() == if current_memory == self.most_recent() {
            current_memory + non_zero_new_size
        } else {
            self.next() as int
        }
    }

    fn allocate(&mut self, non_zero_size: usize, non_zero_power_of_two_alignment: usize) -> (result: Result<(usize, usize), AllocError>) {
        let result = BumpAllocator::allocate(self, non_zero_size, non_zero_power_of_two_alignment);
        proof {
            assert(old(self).allocate_outcome(self, non_zero_size, non_zero_power_of_two_alignment, result));
        }
        result
    }

    fn deallocate(&mut self, non_zero_size: usize, non_zero_power_of_two_alignment: usize, current_memory: usize) {
        BumpAllocator::deallocate(self, non_zero_size, non_zero_power_of_two_alignment, current_memory);
        proof {
            assert(old(self).deallocate_outcome(self, non_zero_size, non_zero_power_of_two_alignment, current_memory));
        }
    }

    fn growing_reallocate(&mut self, non_zero_new_size: usize, non_zero_power_of_two_alignment: usize, non_zero_current_size: usize, current_memory: usize) -> (result: Result<(usize, usize), AllocError>) {
        let result = BumpAllocator::growing_reallocate(self, non_zero_new_size, non_zero_power_of_two_alignment, non_zero_current_size, current_memory);
        proof {
            assert(old(self).grow_outcome(self, non_zero_new_size, non_zero_power_of_two_alignment, non_zero_current_size, current_memory, result));
        }
        result
    }

    fn shrinking_reallocate(&mut self, non_zero_new_size: usize, non_zero_power_of_two_alignment: usize, non_zero_current_size: usize, current_memory: usize) -> (result: Result<(usize, usize), AllocError>) {
        let result = BumpAllocator::shrinking_reallocate(self, non_zero_new_size, non_zero_power_of_two_alignment, non_zero_current_size, current_memory);
        proof {
            assert(old(self).shrink_outcome(self, non_zero_new_size, non_zero_power_of_two_alignment, non_zero_current_size, current_memory, result));
        }
        result
    }
}

} // verus!
