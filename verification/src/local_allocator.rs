//! Allocators with a known range of memory addresses, so that the allocator that handed out an
//! allocation can be found again from its address.
use vstd::prelude::*;
use crate::allocator::Allocator;

verus! {

/// A range of memory addresses for which an allocator can allocate.
#[derive(Clone, Copy, Debug, PartialEq, Eq, Structural)]
pub struct MemoryRange {
    /// From (inclusive).
    pub from: usize,
    /// To (exclusive).
    pub to: usize,
}

impl MemoryRange {
    /// Does the range hold `memory_address`?
    pub open spec fn includes(&self, memory_address: int) -> bool {
        self.from <= memory_address < self.to
    }

    /// The range from `from` up to, but not including, `to`.
    pub fn new(from: usize, to: usize) -> (range: Self)
        ensures
            range.from == from,
            range.to == to,
    {
        MemoryRange { from, to }
    }

    /// The range of an allocator that is not in use: it holds no address.
    pub fn not_in_use() -> (range: Self)
        ensures
            range.from == usize::MAX,
            range.to == usize::MAX,
            forall|memory_address: int| !#[trigger] range.includes(memory_address),
    {
        MemoryRange { from: usize::MAX, to: usize::MAX }
    }

    /// Does the range hold `from_memory_address`?
    pub fn contains(&self, from_memory_address: usize) -> (contained: bool)
        ensures
            contained == self.includes(from_memory_address as int),
    {
        from_memory_address >= self.from && from_memory_address < self.to
    }
}

impl Default for MemoryRange {
    /// The range of an allocator that is not in use.
    fn default() -> (range: Self)
        ensures
            range.from == usize::MAX,
            range.to == usize::MAX,
    {
        Self::not_in_use()
    }
}

/// A local allocator is an allocator with a known range of memory addresses it uses for
/// allocated memory, so that it can be told which memory to take back.
pub trait LocalAllocator: Allocator {
    /// The range of memory addresses the allocator hands out.
    spec fn range(&self) -> MemoryRange;

    /// The range of memory addresses that can be used to allocate memory by this allocator.
    fn memory_range(&self) -> (range: MemoryRange)
        requires
            self.valid(),
        ensures
            range == self.range(),
    ;

    /// Is this allocator responsible for an allocation starting at `from_memory_address`?
    fn contains(&self, from_memory_address: usize) -> (contained: bool)
        requires
            self.valid(),
        ensures
            contained == self.range().includes(from_memory_address as int),
    {
        self.memory_range().contains(from_memory_address)
    }
}

} // verus!
