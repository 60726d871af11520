use context_allocator::allocator::{AllocError, Allocator};
use context_allocator::bit_set::allocator::BitSetAllocator;

const START: usize = 0x1000;

/// One word of bit set: 64 blocks of 16 bytes.
fn one_word_allocator() -> BitSetAllocator {
    BitSetAllocator::new(8, START, 16)
}

#[test]
fn bit_set_first_allocation_takes_the_first_block() {
    let mut allocator = one_word_allocator();
    assert_eq!(allocator.allocate(16, 1), Ok((START, 16)));
}

#[test]
fn bit_set_small_allocations_follow_each_other() {
    let mut allocator = one_word_allocator();
    assert_eq!(allocator.allocate(16, 1), Ok((START, 16)));
    assert_eq!(allocator.allocate(32, 1), Ok((START + 16, 32)));
    assert_eq!(allocator.allocate(1, 1), Ok((START + 48, 16)));
}

#[test]
fn bit_set_deallocated_blocks_are_reused() {
    let mut allocator = one_word_allocator();
    let first = allocator.allocate(16, 1).unwrap().0;
    let second = allocator.allocate(32, 1).unwrap().0;
    let _third = allocator.allocate(16, 1).unwrap().0;
    allocator.deallocate(32, 1, second);
    assert_eq!(allocator.allocate(32, 1), Ok((second, 32)));
    allocator.deallocate(16, 1, first);
    assert_eq!(allocator.allocate(16, 1), Ok((first, 16)));
}

#[test]
fn bit_set_allocation_larger_than_the_bit_set_fails() {
    let mut allocator = one_word_allocator();
    assert_eq!(allocator.allocate(64 * 16 + 1, 1), Err(AllocError));
}

#[test]
fn bit_set_whole_word_allocation() {
    let mut allocator = one_word_allocator();
    assert_eq!(allocator.allocate(64 * 16, 1), Ok((START, 64 * 16)));
    assert_eq!(allocator.allocate(1, 1), Err(AllocError));
    allocator.deallocate(64 * 16, 1, START);
    assert_eq!(allocator.allocate(1, 1), Ok((START, 16)));
}

#[test]
fn bit_set_allocation_spans_words() {
    let mut allocator = BitSetAllocator::new(16, START, 16);
    assert_eq!(allocator.allocate(16, 1), Ok((START, 16)));
    // 64 blocks: the 63 free blocks that end the first word and the first block of the next.
    assert_eq!(allocator.allocate(64 * 16, 1), Ok((START + 16, 64 * 16)));
    assert_eq!(allocator.allocate(16, 1), Ok((START + 65 * 16, 16)));
}

#[test]
fn bit_set_full_words_are_used_one_after_another() {
    let mut allocator = BitSetAllocator::new(16, START, 16);
    assert_eq!(allocator.allocate(64 * 16, 1), Ok((START, 64 * 16)));
    assert_eq!(allocator.allocate(64 * 16, 1), Ok((START + 64 * 16, 64 * 16)));
    assert_eq!(allocator.allocate(16, 1), Err(AllocError));
}

#[test]
fn bit_set_shrinking_frees_the_end() {
    let mut allocator = one_word_allocator();
    let allocation = allocator.allocate(48, 1).unwrap().0;
    assert_eq!(allocator.shrinking_reallocate(16, 1, 48, allocation), Ok((allocation, 16)));
    assert_eq!(allocator.allocate(32, 1), Ok((allocation + 16, 32)));
}

#[test]
fn bit_set_growing_within_the_same_blocks_stays() {
    let mut allocator = one_word_allocator();
    let allocation = allocator.allocate(17, 1).unwrap().0;
    assert_eq!(allocator.growing_reallocate(32, 1, 17, allocation), Ok((allocation, 32)));
}

#[test]
fn bit_set_growing_moves_when_blocks_follow() {
    let mut allocator = one_word_allocator();
    let first = allocator.allocate(16, 1).unwrap().0;
    let second = allocator.allocate(16, 1).unwrap().0;
    assert_eq!(second, START + 16);
    // The block after `first` is taken, so the grown allocation goes after `second`.
    assert_eq!(allocator.growing_reallocate(32, 1, 16, first), Ok((START + 32, 32)));
    assert_eq!(allocator.allocate(16, 1), Ok((first, 16)));
}

#[test]
fn bit_set_allocator_trait_reports_the_bytes_of_the_blocks() {
    let mut allocator = one_word_allocator();
    assert_eq!(Allocator::allocate(&mut allocator, 20, 1), Ok((START, 32)));
}

#[test]
fn bit_set_deallocate_undoes_allocate() {
    let mut allocator = one_word_allocator();
    let allocation = allocator.allocate(100, 1).unwrap().0;
    allocator.deallocate(100, 1, allocation);
    assert_eq!(allocator.allocate(64 * 16, 1), Ok((START, 64 * 16)));
}

#[test]
fn bit_set_search_finds_a_run_inside_a_partly_used_word() {
    let mut allocator = one_word_allocator();
    assert_eq!(allocator.allocate(16, 1), Ok((START, 16)));
    assert_eq!(allocator.allocate(32, 1), Ok((START + 16, 32)));
    allocator.deallocate(16, 1, START);
    // The free block at the start is too small; the run comes after the allocated ones.
    assert_eq!(allocator.allocate(32, 1), Ok((START + 48, 32)));
}

#[test]
fn bit_set_allocation_fails_when_no_word_offers_a_run() {
    let mut allocator = one_word_allocator();
    assert_eq!(allocator.allocate(16 * 60, 1), Ok((START, 16 * 60)));
    assert_eq!(allocator.allocate(16 * 5, 1), Err(AllocError));
    assert_eq!(allocator.allocate(16 * 4, 1), Ok((START + 16 * 60, 16 * 4)));
}

#[test]
fn bit_set_long_run_fails_when_too_few_free_blocks_are_gathered() {
    let mut allocator = BitSetAllocator::new(16, START, 16);
    assert_eq!(allocator.allocate(16, 1), Ok((START, 16)));
    // 127 blocks are free, from block 1 on: a run of 128 fails, one of 127 succeeds.
    assert_eq!(allocator.allocate(128 * 16, 1), Err(AllocError));
    assert_eq!(allocator.allocate(127 * 16, 1), Ok((START + 16, 127 * 16)));
}

#[test]
fn bit_set_failed_growth_keeps_the_allocation() {
    let mut allocator = one_word_allocator();
    assert_eq!(allocator.allocate(16 * 40, 1), Ok((START, 16 * 40)));
    assert_eq!(allocator.allocate(16 * 20, 1), Ok((START + 16 * 40, 16 * 20)));
    // 50 blocks do not fit anywhere once the first 40 are freed; they must stay allocated.
    assert_eq!(allocator.growing_reallocate(16 * 50, 1, 16 * 40, START), Err(AllocError));
    assert_eq!(allocator.allocate(16 * 5, 1), Err(AllocError));
    assert_eq!(allocator.allocate(16 * 4, 1), Ok((START + 16 * 60, 16 * 4)));
}

#[test]
fn bit_set_aligned_run_across_words_starts_at_the_first_aligned_free_block() {
    // Two words of 8-byte blocks; the first 60 blocks are taken.
    let mut allocator = BitSetAllocator::new(16, START, 8);
    assert_eq!(allocator.allocate(60 * 8, 1), Ok((START, 60 * 8)));
    // Six blocks aligned to four blocks (32 bytes): block 60 is the first such free run.
    assert_eq!(allocator.allocate(48, 32), Ok((START + 480, 48)));
}

#[test]
fn bit_set_aligned_run_inside_a_word_starts_at_an_aligned_block() {
    let mut allocator = one_word_allocator();
    assert_eq!(allocator.allocate(16, 1), Ok((START, 16)));
    // Aligned to four blocks: block 4 is the first aligned free block.
    assert_eq!(allocator.allocate(16, 64), Ok((START + 64, 16)));
    assert_eq!(allocator.allocate(16, 1), Ok((START + 16, 16)));
}

#[test]
fn bit_set_alignment_larger_than_a_word_starts_at_an_aligned_word() {
    let mut allocator = BitSetAllocator::new(16, START, 16);
    assert_eq!(allocator.allocate(16, 1), Ok((START, 16)));
    assert_eq!(allocator.allocate(16, 64 * 16), Ok((START + 64 * 16, 16)));
}

#[test]
fn bit_set_over_an_existing_bit_set_keeps_its_allocated_blocks() {
    // The first 60 blocks of 8 bytes are marked allocated in the given bit set.
    let mut allocator = BitSetAllocator::with_bit_set(vec![0xFFFF_FFFF_FFFF_FFF0, 0], START, 8);
    assert_eq!(allocator.allocate(48, 32), Ok((START + 480, 48)));
    assert_eq!(allocator.allocate(8, 8), Ok((START + 528, 8)));
}
