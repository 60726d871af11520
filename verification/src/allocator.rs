//! What every allocator shares: the error it reports, the byte ranges it hands out, and the
//! operations it offers.
use vstd::prelude::*;
use crate::memory_address::is_power_of_two;

verus! {

/// The error an allocator reports when it can not satisfy a request.
#[derive(Clone, Copy, Debug, PartialEq, Eq, Structural)]
pub struct AllocError;

/// The address handed out for an allocation of no bytes; never a real allocation.
pub const ZERO_SIZED_ALLOCATION: usize = usize::MAX;

/// The bytes from `start` up to, but not including, `start + length`.
pub open spec fn span(start: int, length: int) -> Set<int> {
    Set::new(|byte: int| start <= byte < start + length)
}

/// Does no byte of `bytes` lie in `span(start, length)`?
pub open spec fn disjoint_from(start: int, length: int, bytes: Set<int>) -> bool {
    forall|byte: int| start <= byte < start + length ==> !#[trigger] bytes.contains(byte)
}

/// The result of an allocation whose memory is at `pointer`: none when `pointer` is null
/// (`0`), else the memory and its `non_zero_new_size` bytes.
pub fn adapt_pointer(pointer: usize, non_zero_new_size: usize) -> (result: Result<(usize, usize), AllocError>)
    ensures
        pointer == 0 ==> result == Err::<(usize, usize), AllocError>(AllocError),
        pointer != 0 ==> result == Ok::<(usize, usize), AllocError>((pointer, non_zero_new_size)),
{
    if pointer == 0 {
        Err(AllocError)
    } else {
        Ok((pointer, non_zero_new_size))
    }
}

/// The address a `GlobalAlloc` entry point returns for `outcome`: the allocation's address, or
/// `0` when there is none.
pub open spec fn returned_address(outcome: Result<(usize, usize), AllocError>) -> usize {
    match outcome {
        Ok((memory_address, _actual_size)) => memory_address,
        Err(_) => 0,
    }
}

/// An allocator of memory: hands out, takes back and resizes allocations, each given by its
/// address and the number of bytes it really holds.
pub trait Allocator: Sized {
    /// The allocator's invariant.
    spec fn valid(&self) -> bool;

    /// Does the allocator take requests for `non_zero_size` bytes aligned to
    /// `non_zero_power_of_two_alignment`?
    spec fn accepts(&self, non_zero_size: usize, non_zero_power_of_two_alignment: usize) -> bool;

    /// Does the allocator take a request to grow the allocation at `current_memory` to
    /// `non_zero_new_size` bytes aligned to `non_zero_power_of_two_alignment`?
    spec fn accepts_growth(&self, non_zero_new_size: usize, non_zero_power_of_two_alignment: usize, current_memory: usize) -> bool;

    /// Are the `non_zero_size` bytes at `current_memory` an allocation that this allocator
    /// handed out, and that it may take back or resize?
    spec fn holds(&self, non_zero_size: usize, non_zero_power_of_two_alignment: usize, current_memory: usize) -> bool;

    /// Is `after`, with `result`, what allocating `non_zero_size` bytes aligned to
    /// `non_zero_power_of_two_alignment` from this allocator gives?
    spec fn allocate_outcome(&self, after: &Self, non_zero_size: usize, non_zero_power_of_two_alignment: usize, result: Result<(usize, usize), AllocError>) -> bool;

    /// Is `after` what taking back the allocation of `non_zero_size` bytes at `current_memory`
    /// from this allocator gives?
    spec fn deallocate_outcome(&self, after: &Self, non_zero_size: usize, non_zero_power_of_two_alignment: usize, current_memory: usize) -> bool;

    /// Is `after`, with `result`, what growing the allocation of `non_zero_current_size` bytes at
    /// `current_memory` to `non_zero_new_size` bytes gives?
    spec fn grow_outcome(&self, after: &Self, non_zero_new_size: usize, non_zero_power_of_two_alignment: usize, non_zero_current_size: usize, current_memory: usize, result: Result<(usize, usize), AllocError>) -> bool;

    /// Is `after`, with `result`, what shrinking the allocation of `non_zero_current_size` bytes
    /// at `current_memory` to `non_zero_new_size` bytes gives?
    spec fn shrink_outcome(&self, after: &Self, non_zero_new_size: usize, non_zero_power_of_two_alignment: usize, non_zero_current_size: usize, current_memory: usize, result: Result<(usize, usize), AllocError>) -> bool;

    /// Tells a caller whether the allocator takes a request for `non_zero_size` bytes aligned
    /// to `non_zero_power_of_two_alignment`.
    fn takes(&self, non_zero_size: usize, non_zero_power_of_two_alignment: usize) -> (taken: bool)
        requires
            self.valid(),
        ensures
            taken == self.accepts(non_zero_size, non_zero_power_of_two_alignment),
    ;

    /// Tells a caller whether the allocator takes a request to grow the allocation at
    /// `current_memory` to `non_zero_new_size` bytes aligned to `non_zero_power_of_two_alignment`.
    fn takes_growth(&self, non_zero_new_size: usize, non_zero_power_of_two_alignment: usize, current_memory: usize) -> (taken: bool)
        requires
            self.valid(),
        ensures
            taken == self.accepts_growth(non_zero_new_size, non_zero_power_of_two_alignment, current_memory),
    ;

    /// Allocates `non_zero_size` bytes aligned to `non_zero_power_of_two_alignment`; returns
    /// their address and the number of bytes the allocation really holds.
    fn allocate(&mut self, non_zero_size: usize, non_zero_power_of_two_alignment: usize) -> (result: Result<(usize, usize), AllocError>)
        requires
            old(self).valid(),
            non_zero_size > 0,
            is_power_of_two(non_zero_power_of_two_alignment as int),
            old(self).accepts(non_zero_size, non_zero_power_of_two_alignment),
        ensures
            final(self).valid(),
            result matches Ok((_address, actual_size)) ==> actual_size >= non_zero_size,
            old(self).allocate_outcome(final(self), non_zero_size, non_zero_power_of_two_alignment, result),
    ;

    /// Takes back the allocation of `non_zero_size` bytes at `current_memory`.
    fn deallocate(&mut self, non_zero_size: usize, non_zero_power_of_two_alignment: usize, current_memory: usize)
        requires
            old(self).valid(),
            non_zero_size > 0,
            old(self).holds(non_zero_size, non_zero_power_of_two_alignment, current_memory),
        ensures
            final(self).valid(),
            old(self).deallocate_outcome(final(self), non_zero_size, non_zero_power_of_two_alignment, current_memory),
    ;

    /// Grows the allocation of `non_zero_current_size` bytes at `current_memory` to
    /// `non_zero_new_size` bytes, moving it if need be.
    fn growing_reallocate(&mut self, non_zero_new_size: usize, non_zero_power_of_two_alignment: usize, non_zero_current_size: usize, current_memory: usize) -> (result: Result<(usize, usize), AllocError>)
        requires
            old(self).valid(),
            0 < non_zero_current_size <= non_zero_new_size,
            is_power_of_two(non_zero_power_of_two_alignment as int),
            old(self).holds(non_zero_current_size, non_zero_power_of_two_alignment, current_memory),
            old(self).accepts_growth(non_zero_new_size, non_zero_power_of_two_alignment, current_memory),
        ensures
            final(self).valid(),
            result matches Ok((_address, actual_size)) ==> actual_size >= non_zero_new_size,
            old(self).grow_outcome(final(self), non_zero_new_size, non_zero_power_of_two_alignment, non_zero_current_size, current_memory, result),
    ;

    /// Shrinks the allocation of `non_zero_current_size` bytes at `current_memory` to
    /// `non_zero_new_size` bytes.
    fn shrinking_reallocate(&mut self, non_zero_new_size: usize, non_zero_power_of_two_alignment: usize, non_zero_current_size: usize, current_memory: usize) -> (result: Result<(usize, usize), AllocError>)
        requires
            old(self).valid(),
            0 < non_zero_new_size <= non_zero_current_size,
            is_power_of_two(non_zero_power_of_two_alignment as int),
            old(self).holds(non_zero_current_size, non_zero_power_of_two_alignment, current_memory),
        ensures
            final(self).valid(),
            result matches Ok((_address, actual_size)) ==> actual_size >= non_zero_new_size,
            old(self).shrink_outcome(final(self), non_zero_new_size, non_zero_power_of_two_alignment, non_zero_current_size, current_memory, result),
    ;

    /// Resizes the allocation of `current_size` bytes at `current_memory`, either of which may
    /// be empty, to `new_size` bytes: nothing to do for the same size, an allocation when it
    /// was empty, a deallocation when it becomes empty, else a growing or shrinking
    /// reallocation.
    fn reallocate(&mut self, current_memory: usize, current_size: usize, non_zero_power_of_two_alignment: usize, new_size: usize) -> (result: Result<(usize, usize), AllocError>)
        requires
            old(self).valid(),
            is_power_of_two(non_zero_power_of_two_alignment as int),
            current_size != new_size && current_size > 0 ==> old(self).holds(current_size, non_zero_power_of_two_alignment, current_memory),
            new_size > current_size && current_size == 0 ==> old(self).accepts(new_size, non_zero_power_of_two_alignment),
            new_size > current_size && current_size > 0 ==> old(self).accepts_growth(new_size, non_zero_power_of_two_alignment, current_memory),
        ensures
            final(self).valid(),
            current_size == new_size ==> result == Ok::<(usize, usize), AllocError>((current_memory, new_size)),
            new_size == 0 && current_size > 0 ==> result == Ok::<(usize, usize), AllocError>((ZERO_SIZED_ALLOCATION, 0)),
            result matches Ok((_address, actual_size)) ==> actual_size >= new_size,
            (current_size == new_size ==> *final(self) == *old(self) && result == Ok::<(usize, usize), AllocError>((current_memory, new_size)))
                && (new_size > current_size && current_size == 0 ==> old(self).allocate_outcome(final(self), new_size, non_zero_power_of_two_alignment, result))
                && (new_size > current_size && current_size > 0 ==> old(self).grow_outcome(final(self), new_size, non_zero_power_of_two_alignment, current_size, current_memory, result))
                && (new_size < current_size && new_size == 0 ==> old(self).deallocate_outcome(final(self), current_size, non_zero_power_of_two_alignment, current_memory)
                    && result == Ok::<(usize, usize), AllocError>((ZERO_SIZED_ALLOCATION, 0)))
                && (0 < new_size < current_size ==> old(self).shrink_outcome(final(self), new_size, non_zero_power_of_two_alignment, current_size, current_memory, result)),
    {
        if current_size == new_size {
            return Ok((current_memory, new_size));
        }
        if new_size > current_size {
            if current_size == 0 {
                return self.allocate(new_size, non_zero_power_of_two_alignment);
            }
            self.growing_reallocate(new_size, non_zero_power_of_two_alignment, current_size, current_memory)
        } else {
            if new_size == 0 {
                self.deallocate(current_size, non_zero_power_of_two_alignment, current_memory);
                return Ok((ZERO_SIZED_ALLOCATION, new_size));
            }
            self.shrinking_reallocate(new_size, non_zero_power_of_two_alignment, current_size, current_memory)
        }
    }

    /// Allocates `size` bytes, which may be none, for memory that the caller zeroes: an
    /// allocation of no bytes is the zero-sized allocation.
    fn allocate_zeroed(&mut self, size: usize, non_zero_power_of_two_alignment: usize) -> (result: Result<(usize, usize), AllocError>)
        requires
            old(self).valid(),
            is_power_of_two(non_zero_power_of_two_alignment as int),
            size > 0 ==> old(self).accepts(size, non_zero_power_of_two_alignment),
        ensures
            final(self).valid(),
            size == 0 ==> result == Ok::<(usize, usize), AllocError>((ZERO_SIZED_ALLOCATION, 0)),
            result matches Ok((_address, actual_size)) ==> actual_size >= size,
            size > 0 ==> old(self).allocate_outcome(final(self), size, non_zero_power_of_two_alignment, result),
    {
        if size == 0 {
            return Ok((ZERO_SIZED_ALLOCATION, 0));
        }
        self.allocate(size, non_zero_power_of_two_alignment)
    }

    /// `GlobalAlloc::alloc`: the address of an allocation of `size` bytes, the zero-sized
    /// allocation for none, or `0` when there is no memory.
    #[allow(non_snake_case)]
    fn GlobalAlloc_alloc(&mut self, size: usize, non_zero_power_of_two_alignment: usize) -> (address: usize)
        requires
            old(self).valid(),
            is_power_of_two(non_zero_power_of_two_alignment as int),
            size > 0 ==> old(self).accepts(size, non_zero_power_of_two_alignment),
        ensures
            final(self).valid(),
            size == 0 ==> address == ZERO_SIZED_ALLOCATION,
            size > 0 ==> exists|outcome: Result<(usize, usize), AllocError>|
                #[trigger] old(self).allocate_outcome(final(self), size, non_zero_power_of_two_alignment, outcome)
                    && (outcome matches Ok((memory_address, _actual_size)) ==> address == memory_address)
                    && (outcome is Err ==> address == 0),
    {
        if size == 0 {
            return ZERO_SIZED_ALLOCATION;
        }
        let outcome = self.allocate(size, non_zero_power_of_two_alignment);
        proof {
            assert(old(self).allocate_outcome(self, size, non_zero_power_of_two_alignment, outcome));
        }
        match outcome {
            Ok((memory_address, _actual_size)) => memory_address,
            Err(_) => 0,
        }
    }

    /// `GlobalAlloc::alloc_zeroed`: as `GlobalAlloc_alloc`, for memory that the caller zeroes.
    #[allow(non_snake_case)]
    fn GlobalAlloc_alloc_zeroed(&mut self, size: usize, non_zero_power_of_two_alignment: usize) -> (address: usize)
        requires
            old(self).valid(),
            is_power_of_two(non_zero_power_of_two_alignment as int),
            size > 0 ==> old(self).accepts(size, non_zero_power_of_two_alignment),
        ensures
            final(self).valid(),
            size == 0 ==> address == ZERO_SIZED_ALLOCATION,
            size > 0 ==> exists|outcome: Result<(usize, usize), AllocError>|
                #[trigger] old(self).allocate_outcome(final(self), size, non_zero_power_of_two_alignment, outcome)
                    && (outcome matches Ok((memory_address, _actual_size)) ==> address == memory_address)
                    && (outcome is Err ==> address == 0),
    {
        let outcome = self.allocate_zeroed(size, non_zero_power_of_two_alignment);
        proof {
            if size > 0 {
                assert(old(self).allocate_outcome(self, size, non_zero_power_of_two_alignment, outcome));
            }
        }
        match outcome {
            Ok((memory_address, _actual_size)) => memory_address,
            Err(_) => 0,
        }
    }

    /// `GlobalAlloc::dealloc`: takes back the allocation of `size` bytes at `pointer`; the
    /// zero-sized allocation is not taken back.
    #[allow(non_snake_case)]
    fn GlobalAlloc_dealloc(&mut self, pointer: usize, size: usize, non_zero_power_of_two_alignment: usize)
        requires
            old(self).valid(),
            pointer != 0,
            pointer != ZERO_SIZED_ALLOCATION ==> size > 0 && old(self).holds(size, non_zero_power_of_two_alignment, pointer),
        ensures
            final(self).valid(),
            pointer == ZERO_SIZED_ALLOCATION ==> *final(self) == *old(self),
            pointer != ZERO_SIZED_ALLOCATION ==> old(self).deallocate_outcome(final(self), size, non_zero_power_of_two_alignment, pointer),
    {
        if pointer == ZERO_SIZED_ALLOCATION {
            return;
        }
        self.deallocate(size, non_zero_power_of_two_alignment, pointer)
    }

    /// `GlobalAlloc::realloc`: the address of the allocation of `size` bytes at `pointer`
    /// resized to `new_size` bytes, or `0` when there is no memory.
    #[allow(non_snake_case)]
    fn GlobalAlloc_realloc(&mut self, pointer: usize, size: usize, non_zero_power_of_two_alignment: usize, new_size: usize) -> (address: usize)
        requires
            old(self).valid(),
            pointer != 0,
            is_power_of_two(non_zero_power_of_two_alignment as int),
            size != new_size && size > 0 ==> old(self).holds(size, non_zero_power_of_two_alignment, pointer),
            new_size > size && size == 0 ==> old(self).accepts(new_size, non_zero_power_of_two_alignment),
            new_size > size && size > 0 ==> old(self).accepts_growth(new_size, non_zero_power_of_two_alignment, pointer),
        ensures
            final(self).valid(),
            size == new_size ==> address == pointer,
            new_size == 0 && size > 0 ==> address == ZERO_SIZED_ALLOCATION,
            exists|outcome: Result<(usize, usize), AllocError>|
                #[trigger] returned_address(outcome) == address && (size == new_size ==> *final(self) == *old(self) && outcome == Ok::<(usize, usize), AllocError>((pointer, new_size)))
                && (new_size > size && size == 0 ==> old(self).allocate_outcome(final(self), new_size, non_zero_power_of_two_alignment, outcome))
                && (new_size > size && size > 0 ==> old(self).grow_outcome(final(self), new_size, non_zero_power_of_two_alignment, size, pointer, outcome))
                && (new_size < size && new_size == 0 ==> old(self).deallocate_outcome(final(self), size, non_zero_power_of_two_alignment, pointer)
                    && outcome == Ok::<(usize, usize), AllocError>((ZERO_SIZED_ALLOCATION, 0)))
                && (0 < new_size < size ==> old(self).shrink_outcome(final(self), new_size, non_zero_power_of_two_alignment, size, pointer, outcome)),
    {
        let outcome = self.reallocate(pointer, size, non_zero_power_of_two_alignment, new_size);
        let address = match outcome {
            Ok((memory_address, _actual_size)) => memory_address,
            Err(_) => 0,
        };
        proof {
            assert(returned_address(outcome) == address);
        }
        address
    }

    /// `Allocator::allocate`: an allocation of `size` bytes and the bytes it holds; the
    /// zero-sized allocation, holding none, for no bytes.
    #[allow(non_snake_case)]
    fn AllocRef_alloc(&mut self, size: usize, non_zero_power_of_two_alignment: usize) -> (result: Result<(usize, usize), AllocError>)
        requires
            old(self).valid(),
            is_power_of_two(non_zero_power_of_two_alignment as int),
            size > 0 ==> old(self).accepts(size, non_zero_power_of_two_alignment),
        ensures
            final(self).valid(),
            size == 0 ==> result == Ok::<(usize, usize), AllocError>((ZERO_SIZED_ALLOCATION, 0)),
            result matches Ok((_address, actual_size)) ==> actual_size >= size,
            size > 0 ==> old(self).allocate_outcome(final(self), size, non_zero_power_of_two_alignment, result),
    {
        if size == 0 {
            return Ok((ZERO_SIZED_ALLOCATION, 0));
        }
        self.allocate(size, non_zero_power_of_two_alignment)
    }

    /// `Allocator::deallocate`: takes back the allocation of `size` bytes at `pointer`; the
    /// zero-sized allocation is not taken back.
    #[allow(non_snake_case)]
    fn AllocRef_dealloc(&mut self, pointer: usize, size: usize, non_zero_power_of_two_alignment: usize)
        requires
            old(self).valid(),
            pointer != ZERO_SIZED_ALLOCATION ==> size > 0 && old(self).holds(size, non_zero_power_of_two_alignment, pointer),
        ensures
            final(self).valid(),
            pointer == ZERO_SIZED_ALLOCATION ==> *final(self) == *old(self),
            pointer != ZERO_SIZED_ALLOCATION ==> old(self).deallocate_outcome(final(self), size, non_zero_power_of_two_alignment, pointer),
    {
        if pointer == ZERO_SIZED_ALLOCATION {
            return;
        }
        self.deallocate(size, non_zero_power_of_two_alignment, pointer)
    }

    /// `Allocator::grow`: the allocation of `current_size` bytes at `pointer` grown to
    /// `new_size` bytes; a new allocation when it held none.
    #[allow(non_snake_case)]
    fn AllocRef_grow(&mut self, pointer: usize, current_size: usize, new_size: usize, non_zero_power_of_two_new_alignment: usize) -> (result: Result<(usize, usize), AllocError>)
        requires
            old(self).valid(),
            current_size <= new_size,
            is_power_of_two(non_zero_power_of_two_new_alignment as int),
            current_size == 0 && new_size > 0 ==> old(self).accepts(new_size, non_zero_power_of_two_new_alignment),
            current_size > 0 ==> old(self).holds(current_size, non_zero_power_of_two_new_alignment, pointer)
                && old(self).accepts_growth(new_size, non_zero_power_of_two_new_alignment, pointer),
        ensures
            final(self).valid(),
            current_size == 0 && new_size == 0 ==> result == Ok::<(usize, usize), AllocError>((ZERO_SIZED_ALLOCATION, 0)),
            result matches Ok((_address, actual_size)) ==> actual_size >= new_size,
            current_size == 0 && new_size > 0 ==> old(self).allocate_outcome(final(self), new_size, non_zero_power_of_two_new_alignment, result),
            current_size > 0 ==> old(self).grow_outcome(final(self), new_size, non_zero_power_of_two_new_alignment, current_size, pointer, result),
    {
        if current_size == 0 {
            return self.AllocRef_alloc(new_size, non_zero_power_of_two_new_alignment);
        }
        self.growing_reallocate(new_size, non_zero_power_of_two_new_alignment, current_size, pointer)
    }

    /// `Allocator::shrink`: the allocation of `current_size` bytes at `pointer` shrunk to
    /// `new_size` bytes.
    #[allow(non_snake_case)]
    fn AllocRef_shrink(&mut self, pointer: usize, current_size: usize, new_size: usize, non_zero_power_of_two_new_alignment: usize) -> (result: Result<(usize, usize), AllocError>)
        requires
            old(self).valid(),
            0 < new_size <= current_size,
            is_power_of_two(non_zero_power_of_two_new_alignment as int),
            old(self).holds(current_size, non_zero_power_of_two_new_alignment, pointer),
        ensures
            final(self).valid(),
            result matches Ok((_address, actual_size)) ==> actual_size >= new_size,
            old(self).shrink_outcome(final(self), new_size, non_zero_power_of_two_new_alignment, current_size, pointer, result),
    {
        self.shrinking_reallocate(new_size, non_zero_power_of_two_new_alignment, current_size, pointer)
    }
}

} // verus!
