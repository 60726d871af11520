//! Where allocators obtain the memory they manage.
use vstd::prelude::*;
use crate::allocator::AllocError;

verus! {

/// A source of memory: hands out and takes back ranges of addresses.
pub trait MemorySource {
    /// May the source be asked for `non_zero_size` bytes?
    spec fn can_obtain(&self, non_zero_size: usize) -> bool;

    /// May the `non_zero_size` bytes at `current_memory` be given back to the source?
    spec fn can_release(&self, non_zero_size: usize, current_memory: usize) -> bool;

    /// Is `after`, with `obtained`, what obtaining `non_zero_size` bytes from this source gives?
    spec fn obtain_outcome(&self, after: &Self, non_zero_size: usize, obtained: Result<usize, AllocError>) -> bool;

    /// Is `after` what giving back the `non_zero_size` bytes at `current_memory` to this source
    /// gives?
    spec fn release_outcome(&self, after: &Self, non_zero_size: usize, current_memory: usize) -> bool;

    /// Obtains a range of `non_zero_size` bytes and returns the address of its first byte,
    /// which is never `0`; the range does not wrap past the end of the address space.
    fn obtain(&mut self, non_zero_size: usize) -> (obtained: Result<usize, AllocError>)
        requires
            non_zero_size > 0,
            old(self).can_obtain(non_zero_size),
        ensures
            obtained matches Ok(address) ==> address > 0 && address + non_zero_size <= usize::MAX,
            old(self).obtain_outcome(final(self), non_zero_size, obtained),
    ;

    /// Gives back the range of `non_zero_size` bytes at `current_memory` that `obtain` handed
    /// out.
    fn release(&mut self, non_zero_size: usize, current_memory: usize)
        requires
            non_zero_size > 0,
            old(self).can_release(non_zero_size, current_memory),
        ensures
            old(self).release_outcome(final(self), non_zero_size, current_memory),
    ;
}

} // verus!
