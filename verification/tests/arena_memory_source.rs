use context_allocator::allocator::AllocError;
use context_allocator::arena_memory_source::{ArenaMemorySource, SlotIndex};
use context_allocator::memory_source::MemorySource;

const START: usize = 0x3000;

#[derive(Debug)]
struct FixedMemorySource {
    address: usize,
}

impl MemorySource for FixedMemorySource {
    fn can_obtain(&self, _non_zero_size: usize) -> bool {
        true
    }

    fn can_release(&self, _non_zero_size: usize, _current_memory: usize) -> bool {
        true
    }

    fn obtain_outcome(&self, _after: &Self, _non_zero_size: usize, _obtained: Result<usize, AllocError>) -> bool {
        true
    }

    fn release_outcome(&self, _after: &Self, _non_zero_size: usize, _current_memory: usize) -> bool {
        true
    }

    fn obtain(&mut self, _non_zero_size: usize) -> Result<usize, AllocError> {
        Ok(self.address)
    }

    fn release(&mut self, _non_zero_size: usize, _current_memory: usize) {}
}

/// Hands out the memory at one fixed address and records each range given back.
#[derive(Debug)]
struct RecordingMemorySource {
    address: usize,
    released: Vec<(usize, usize)>,
}

impl MemorySource for RecordingMemorySource {
    fn can_obtain(&self, _non_zero_size: usize) -> bool {
        true
    }

    fn can_release(&self, _non_zero_size: usize, _current_memory: usize) -> bool {
        true
    }

    fn obtain_outcome(&self, _after: &Self, _non_zero_size: usize, _obtained: Result<usize, AllocError>) -> bool {
        true
    }

    fn release_outcome(&self, _after: &Self, _non_zero_size: usize, _current_memory: usize) -> bool {
        true
    }

    fn obtain(&mut self, _non_zero_size: usize) -> Result<usize, AllocError> {
        Ok(self.address)
    }

    fn release(&mut self, non_zero_size: usize, current_memory: usize) {
        self.released.push((non_zero_size, current_memory));
    }
}

fn new_arena() -> ArenaMemorySource<FixedMemorySource> {
    ArenaMemorySource::new(64, 4, FixedMemorySource { address: START }).expect("Did not create arena")
}

#[test]
fn arena_hands_out_blocks_in_order_until_full() {
    let mut arena = new_arena();
    assert_eq!(arena.obtain(64), Ok(START));
    assert_eq!(arena.obtain(1), Ok(START + 64));
    assert_eq!(arena.obtain(32), Ok(START + 128));
    assert_eq!(arena.obtain(64), Ok(START + 192));
    assert_eq!(arena.obtain(1), Err(AllocError));
}

#[test]
fn arena_hands_out_the_most_recently_released_block_first() {
    let mut arena = new_arena();
    let first = arena.obtain(64).unwrap();
    let second = arena.obtain(64).unwrap();
    arena.release(64, first);
    arena.release(64, second);
    assert_eq!(arena.obtain(64), Ok(second));
    assert_eq!(arena.obtain(64), Ok(first));
    assert_eq!(arena.obtain(64), Ok(START + 128));
}

#[test]
fn arena_release_of_a_full_arena_makes_room() {
    let mut arena = new_arena();
    for _ in 0..4 {
        arena.obtain(64).unwrap();
    }
    assert_eq!(arena.obtain(64), Err(AllocError));
    arena.release(64, START + 64);
    assert_eq!(arena.obtain(64), Ok(START + 64));
    assert_eq!(arena.obtain(64), Err(AllocError));
}

#[test]
fn arena_of_one_block() {
    let mut arena = ArenaMemorySource::new(16, 1, FixedMemorySource { address: START }).unwrap();
    assert_eq!(arena.obtain(16), Ok(START));
    assert_eq!(arena.obtain(16), Err(AllocError));
}

#[test]
fn slot_index_sentinel_marks_a_fully_allocated_arena() {
    assert!(SlotIndex(usize::MAX).is_fully_allocated());
    assert!(!SlotIndex(0).is_fully_allocated());
    let mut slot = SlotIndex::default();
    slot.increment();
    assert_eq!(slot, SlotIndex(1));
}

#[test]
fn releasing_the_arena_gives_its_memory_back_to_the_source() {
    let source = RecordingMemorySource { address: START, released: Vec::new() };
    let mut arena = ArenaMemorySource::new(64, 4, source).expect("Did not create arena");
    assert_eq!(arena.obtain(64), Ok(START));
    let source = arena.release_memory();
    assert_eq!(source.released, vec![(256, START)]);
}
