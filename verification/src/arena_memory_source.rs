//! An arena memory source: fixed-size blocks carved out of memory from another source.
//!
//! The free blocks form a list: each free block records the slot index of the next free one,
//! and the arena the first. A block is handed out from the front of the list and given back
//! to its front.
use vstd::prelude::*;
use crate::allocator::AllocError;
use crate::memory_source::MemorySource;

verus! {

/// The index of a block of an arena, or the sentinel that marks the end of the free list.
#[derive(Clone, Copy, Debug, PartialEq, Eq, Structural)]
pub struct SlotIndex(pub usize);

/// The slot index that marks the end of the free list: every block is allocated.
pub const IS_FULLY_ALLOCATED_NEXT_AVAILABLE_SLOT_INDEX_SENTINEL: usize = usize::MAX;

impl SlotIndex {
    /// Is this the end of the free list?
    pub fn is_fully_allocated(self) -> (fully_allocated: bool)
        ensures
            fully_allocated == (self.0 == IS_FULLY_ALLOCATED_NEXT_AVAILABLE_SLOT_INDEX_SENTINEL),
    {
        self.0 == IS_FULLY_ALLOCATED_NEXT_AVAILABLE_SLOT_INDEX_SENTINEL
    }

    /// Moves on to the next slot.
    pub fn increment(&mut self)
        requires
            old(self).0 < usize::MAX,
        ensures
            final(self).0 == old(self).0 + 1,
    {
        self.0 = self.0 + 1;
    }
}

impl Default for SlotIndex {
    /// The first slot.
    fn default() -> (slot_index: Self)
        ensures
            slot_index.0 == 0,
    {
        SlotIndex(0)
    }
}

/// The slot index that follows the free block at position `position` of `free`.
pub open spec fn following(free: Seq<usize>, position: int) -> usize {
    if position + 1 < free.len() {
        free[position + 1]
    } else {
        IS_FULLY_ALLOCATED_NEXT_AVAILABLE_SLOT_INDEX_SENTINEL
    }
}

/// An arena of `number_of_blocks` blocks of `block_size` bytes, backed by memory from `MS`.
pub struct ArenaMemorySource<MS: MemorySource> {
    next_available_slot_index: SlotIndex,
    block_size: usize,
    number_of_blocks: usize,
    memory_source: MS,
    allocations_start_from: usize,
    memory_source_size: usize,
    next_available_slot_indices: Vec<SlotIndex>,
    free_slots: Ghost<Seq<usize>>,
}

impl<MS: MemorySource> ArenaMemorySource<MS> {
    /// The address of the first block.
    pub closed spec fn start(&self) -> int {
        self.allocations_start_from as int
    }

    /// The size of each block in bytes.
    pub closed spec fn size_of_block(&self) -> int {
        self.block_size as int
    }

    /// The number of blocks.
    pub closed spec fn blocks(&self) -> int {
        self.number_of_blocks as int
    }

    /// The slot indices of the free blocks, in the order they will be handed out.
    pub closed spec fn free(&self) -> Seq<usize> {
        self.free_slots@
    }

    /// The source the arena's memory came from.
    pub closed spec fn memory_source(&self) -> MS {
        self.memory_source
    }

    /// The number of bytes the arena obtained from its source.
    pub closed spec fn memory_size(&self) -> int {
        self.memory_source_size as int
    }

    /// The address of the block with slot index `slot`.
    pub open spec fn address_of_slot(&self, slot: int) -> int {
        self.start() + self.size_of_block() * slot
    }

    /// The arena's invariant.
    pub closed spec fn wf(&self) -> bool {
        &&& self.block_size > 0
        &&& 0 < self.number_of_blocks < usize::MAX
        &&& self.allocations_start_from > 0
        &&& self.memory_source_size == self.block_size * self.number_of_blocks
        &&& self.allocations_start_from + self.memory_source_size <= usize::MAX
        &&& self.next_available_slot_indices.len() == self.number_of_blocks
        &&& self.free_slots@.no_duplicates()
        &&& forall|k: int| 0 <= k < self.free_slots@.len() ==> #[trigger] self.free_slots@[k] < self.number_of_blocks
        &&& self.next_available_slot_index.0 == (if self.free_slots@.len() == 0 {
            IS_FULLY_ALLOCATED_NEXT_AVAILABLE_SLOT_INDEX_SENTINEL
        } else {
            self.free_slots@[0]
        })
        &&& forall|k: int| 0 <= k < self.free_slots@.len() ==> self.next_available_slot_indices@[#[trigger] self.free_slots@[k] as int].0 == following(self.free_slots@, k)
    }

    /// An arena of `number_of_blocks` blocks of `block_size` bytes in memory obtained from
    /// `memory_source`; every block is free, to be handed out from the first.
    pub fn new(block_size: usize, number_of_blocks: usize, memory_source: MS) -> (result: Result<Self, AllocError>)
        requires
            block_size > 0,
            0 < number_of_blocks < usize::MAX,
            block_size * number_of_blocks <= usize::MAX,
            memory_source.can_obtain((block_size * number_of_blocks) as usize),
        ensures
            result matches Ok(arena) ==> arena.wf() && arena.size_of_block() == block_size
                && arena.blocks() == number_of_blocks && arena.free() == Seq::new(
                number_of_blocks as nat,
                |slot: int| slot as usize,
            ),
            exists|after: MS, obtained: Result<usize, AllocError>|
                #[trigger] memory_source.obtain_outcome(&after, (block_size * number_of_blocks) as usize, obtained)
                    && (obtained is Err <==> result is Err)
                    && (obtained matches Ok(start) ==> result matches Ok(made) && made.start() == start
                        && made.memory_source() == after),
    {
        let memory_source_size = block_size * number_of_blocks;
        proof {
            assert(memory_source_size > 0) by (nonlinear_arith)
                requires memory_source_size == block_size * number_of_blocks, block_size > 0, number_of_blocks > 0;
        }
        let ghost given = memory_source;
        let mut memory_source = memory_source;
        let obtained = memory_source.obtain(memory_source_size);
        proof {
            assert(given.obtain_outcome(&memory_source, memory_source_size, obtained));
        }
        let allocations_start_from = match obtained {
            Ok(address) => address,
            Err(error) => return Err(error),
        };
        Ok(Self::new_with_memory(block_size, number_of_blocks, memory_source, allocations_start_from))
    }

    /// An arena of `number_of_blocks` blocks of `block_size` bytes in the memory at
    /// `allocations_start_from` that `memory_source` handed out; every block is free.
    pub fn new_with_memory(block_size: usize, number_of_blocks: usize, memory_source: MS, allocations_start_from: usize) -> (arena: Self)
        requires
            block_size > 0,
            0 < number_of_blocks < usize::MAX,
            allocations_start_from > 0,
            allocations_start_from + block_size * number_of_blocks <= usize::MAX,
        ensures
            arena.wf(),
            arena.start() == allocations_start_from,
            arena.size_of_block() == block_size,
            arena.blocks() == number_of_blocks,
            arena.free() == Seq::new(number_of_blocks as nat, |slot: int| slot as usize),
            arena.memory_source() == memory_source,
            arena.memory_size() == block_size * number_of_blocks,
    {
        let mut next_available_slot_indices: Vec<SlotIndex> = Vec::new();
        let mut slot_index = SlotIndex(1);
        while slot_index.0 < number_of_blocks
            invariant
                1 <= slot_index.0 <= number_of_blocks < usize::MAX,
                next_available_slot_indices.len() == slot_index.0 - 1,
                forall|k: int| 0 <= k < next_available_slot_indices.len() ==> #[trigger] next_available_slot_indices@[k].0 == k + 1,
            decreases number_of_blocks - slot_index.0,
        {
            next_available_slot_indices.push(slot_index);
            slot_index.increment();
        }
        next_available_slot_indices.push(SlotIndex(IS_FULLY_ALLOCATED_NEXT_AVAILABLE_SLOT_INDEX_SENTINEL));
        let ghost free = Seq::new(number_of_blocks as nat, |slot: int| slot as usize);
        let arena = ArenaMemorySource {
            next_available_slot_index: SlotIndex::default(),
            block_size,
            number_of_blocks,
            memory_source,
            allocations_start_from,
            memory_source_size: block_size * number_of_blocks,
            next_available_slot_indices,
            free_slots: Ghost(free),
        };
        proof {
            assert forall|k: int| 0 <= k < free.len() implies arena.next_available_slot_indices@[#[trigger] free[k] as int].0 == following(free, k) by {
                assert(free[k] == k);
            }
        }
        arena
    }

    /// Gives the arena's memory back to the source it came from, and hands back that source.
    pub fn release_memory(self) -> (memory_source: MS)
        requires
            self.wf(),
            self.memory_source().can_release(self.memory_size() as usize, self.start() as usize),
        ensures
            self.memory_source().release_outcome(&memory_source, self.memory_size() as usize, self.start() as usize),
    {
        proof {
            let (block_size, number_of_blocks) = (self.block_size as int, self.number_of_blocks as int);
            assert(block_size * number_of_blocks > 0) by (nonlinear_arith)
                requires block_size > 0, number_of_blocks > 0;
        }
        let mut memory_source = self.memory_source;
        memory_source.release(self.memory_source_size, self.allocations_start_from);
        memory_source
    }

    /// The address of the block with slot index `slot_index`.
    fn block_from_slot_index(&self, slot_index: SlotIndex) -> (address: usize)
        requires
            self.wf(),
            slot_index.0 < self.blocks(),
        ensures
            address == self.address_of_slot(slot_index.0 as int),
    {
        proof {
            let block_size = self.block_size as int;
            let slot = slot_index.0 as int;
            let blocks = self.number_of_blocks as int;
            assert(block_size * slot <= block_size * blocks) by (nonlinear_arith)
                requires slot < blocks, block_size > 0, slot >= 0;
        }
        self.allocations_start_from + self.block_size * slot_index.0
    }

    /// The slot index of the block at `current_memory`.
    fn slot_index_from_block(&self, current_memory: usize) -> (slot_index: SlotIndex)
        requires
            self.wf(),
            current_memory >= self.start(),
        ensures
            slot_index.0 == (current_memory - self.start()) / self.size_of_block(),
    {
        SlotIndex((current_memory - self.allocations_start_from) / self.block_size)
    }

    /// The block at the address of slot `slot` has slot index `slot`.
    proof fn lemma_slot_of_address(&self, slot: int)
        requires
            self.wf(),
            0 <= slot < self.blocks(),
        ensures
            (self.address_of_slot(slot) - self.start()) / self.size_of_block() == slot,
    {
        vstd::arithmetic::div_mod::lemma_div_multiples_vanish(slot, self.size_of_block());
    }

    /// Is the block at `current_memory`, of which `non_zero_size` bytes are used, one that
    /// this arena handed out?
    pub open spec fn holds_block(&self, non_zero_size: usize, current_memory: usize) -> bool {
        &&& non_zero_size <= self.size_of_block()
        &&& exists|slot: int| 0 <= slot < self.blocks() && current_memory == self.address_of_slot(slot)
            && !self.free().contains(slot as usize)
    }
}

impl<MS: MemorySource> MemorySource for ArenaMemorySource<MS> {
    open spec fn can_obtain(&self, non_zero_size: usize) -> bool {
        &&& self.wf()
        &&& non_zero_size <= self.size_of_block()
    }

    open spec fn can_release(&self, non_zero_size: usize, current_memory: usize) -> bool {
        &&& self.wf()
        &&& self.holds_block(non_zero_size, current_memory)
    }

    /// What obtaining gives: the first block of the free list, or an error when every block is
    /// allocated.
    open spec fn obtain_outcome(&self, after: &Self, non_zero_size: usize, obtained: Result<usize, AllocError>) -> bool {
        &&& after.wf()
        &&& after.start() == self.start()
        &&& after.size_of_block() == self.size_of_block()
        &&& after.blocks() == self.blocks()
        &&& after.memory_source() == self.memory_source()
        &&& after.memory_size() == self.memory_size()
        &&& self.free().len() == 0 ==> obtained is Err && after.free() == self.free()
        &&& self.free().len() > 0 ==> obtained == Ok::<usize, AllocError>(self.address_of_slot(self.free()[0] as int) as usize)
            && after.free() == self.free().drop_first()
    }

    /// What releasing gives: the block at `current_memory` at the front of the free list.
    open spec fn release_outcome(&self, after: &Self, non_zero_size: usize, current_memory: usize) -> bool {
        &&& after.wf()
        &&& after.start() == self.start()
        &&& after.size_of_block() == self.size_of_block()
        &&& after.blocks() == self.blocks()
        &&& after.memory_source() == self.memory_source()
        &&& after.memory_size() == self.memory_size()
        &&& after.free() == seq![((current_memory - self.start()) / self.size_of_block()) as usize].add(self.free())
    }

    /// Hands out the first block of the free list, or fails when every block is allocated.
    fn obtain(&mut self, non_zero_size: usize) -> (obtained: Result<usize, AllocError>)
        ensures
            final(self).wf(),
            final(self).start() == old(self).start(),
            final(self).size_of_block() == old(self).size_of_block(),
            final(self).blocks() == old(self).blocks(),
            final(self).memory_source() == old(self).memory_source(),
            final(self).memory_size() == old(self).memory_size(),
            old(self).free().len() == 0 ==> obtained is Err && final(self).free() == old(self).free(),
            old(self).free().len() > 0 ==> obtained == Ok::<usize, AllocError>(old(self).address_of_slot(old(self).free()[0] as int) as usize)
                && final(self).free() == old(self).free().drop_first(),
    {
        let next_available_slot_index = self.next_available_slot_index;
        if next_available_slot_index.is_fully_allocated() {
            proof {
                if self.free_slots@.len() > 0 {
                    assert(self.free_slots@[0] < self.number_of_blocks);
                }
            }
            proof {
                assert(old(self).obtain_outcome(self, non_zero_size, Err(AllocError)));
            }
            return Err(AllocError);
        }
        let address = self.block_from_slot_index(next_available_slot_index);
        let ghost before = self.free_slots@;
        self.next_available_slot_index = self.next_available_slot_indices[next_available_slot_index.0];
        self.free_slots = Ghost(before.drop_first());
        proof {
            assert(self.next_available_slot_indices@[before[0] as int].0 == following(before, 0));
            assert forall|k: int| 0 <= k < self.free_slots@.len() implies self.next_available_slot_indices@[#[trigger] self.free_slots@[k] as int].0 == following(self.free_slots@, k) by {
                assert(self.free_slots@[k] == before[k + 1]);
                assert(self.next_available_slot_indices@[before[k + 1] as int].0 == following(before, k + 1));
            }
            let block_size = self.block_size as int;
            let slot = before[0] as int;
            assert(block_size * slot + non_zero_size <= block_size * (self.number_of_blocks as int)) by (nonlinear_arith)
                requires slot < self.number_of_blocks, block_size > 0, slot >= 0, non_zero_size <= block_size;
            assert(old(self).obtain_outcome(self, non_zero_size, Ok(address)));
        }
        Ok(address)
    }

    /// Puts the block at `current_memory` at the front of the free list.
    fn release(&mut self, non_zero_size: usize, current_memory: usize)
        ensures
            final(self).wf(),
            final(self).start() == old(self).start(),
            final(self).size_of_block() == old(self).size_of_block(),
            final(self).blocks() == old(self).blocks(),
            final(self).memory_source() == old(self).memory_source(),
            final(self).memory_size() == old(self).memory_size(),
            final(self).free() == seq![((current_memory - old(self).start()) / old(self).size_of_block()) as usize].add(old(self).free()),
    {
        let ghost slot = choose|slot: int| 0 <= slot < self.blocks() && current_memory == self.address_of_slot(slot)
            && !self.free().contains(slot as usize);
        proof {
            self.lemma_slot_of_address(slot);
        }
        let slot_index = self.slot_index_from_block(current_memory);
        let ghost before = self.free_slots@;
        self.next_available_slot_indices.set(slot_index.0, self.next_available_slot_index);
        self.next_available_slot_index = slot_index;
        self.free_slots = Ghost(seq![slot_index.0].add(before));
        proof {
            assert forall|k: int| 0 <= k < self.free_slots@.len() implies self.next_available_slot_indices@[#[trigger] self.free_slots@[k] as int].0 == following(self.free_slots@, k) by {
                if k > 0 {
                    assert(self.free_slots@[k] == before[k - 1]);
                    assert(before[k - 1] != slot_index.0);
                }
            }
            assert(self.free_slots@.no_duplicates()) by {
                assert forall|i: int, j: int| 0 <= i < j < self.free_slots@.len() implies self.free_slots@[i] != self.free_slots@[j] by {
                    if i == 0 {
                        assert(self.free_slots@[j] == before[j - 1]);
                    }
                }
            }
        }
    }
}

impl<MS: MemorySource> ArenaMemorySource<MS> {
    /// A block given back is the next one handed out, and handing it out leaves the free list
    /// as it was before it was given back.
    pub proof fn lemma_release_then_obtain(before: Self, released: Self, slot: usize)
        requires
            released.free() == seq![slot].add(before.free()),
        ensures
            released.free().len() > 0,
            released.free()[0] == slot,
            released.free().drop_first() == before.free(),
    {
        assert(released.free().drop_first() =~= before.free());
    }
}

} // verus!
