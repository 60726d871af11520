//! The bit set allocator: one bit per block of memory, set while the block is allocated.
use vstd::prelude::*;
use crate::allocator::{AllocError, Allocator, disjoint_from, span};
use crate::bit_set::numbers::{
    AbsoluteLocationInBitSet,
    BitSetWordPointer,
    BlockSize,
    NumberOfBits,
    BIT_SET_WORD_SIZE_IN_BITS,
    BIT_SET_WORD_SIZE_IN_BYTES,
};
use crate::bit_set::word::{
    allocated_blocks,
    bit_is_set,
    block_is_allocated,
    lemma_and_nonzero_bits,
    lemma_and_zero_bits,
    lemma_full_and_empty_words,
    lemma_shifted_mask,
    mask_covers,
    with_blocks_allocated,
    with_blocks_unallocated,
    BitSetWord,
};
use crate::memory_address::{
    is_power_of_two,
    lemma_exponent_below_bits,
    lemma_power_of_two_adds,
    lemma_power_of_two_monotonic,
    lemma_power_of_two_positive,
    lemma_power_of_two_values,
    lemma_shift_left_multiplies,
    logarithm_base2,
    power_of_two,
};

verus! {

/// Clears the blocks from `location` up to the end of its word, or fewer when
/// `number_of_bits_required` ends sooner; returns the next word and the blocks still to clear.
fn unset_unaligned_trailing_bits_at_front(bit_set: &mut Vec<u64>, location: AbsoluteLocationInBitSet, number_of_bits_required: NumberOfBits) -> (remaining: (BitSetWordPointer, NumberOfBits))
    requires
        location.minor.0 < 64,
        number_of_bits_required.0 >= 1,
        location.major.0 * 64 + location.minor.0 + number_of_bits_required.0 <= old(bit_set).len() * 64,
    ensures
        remaining.1.0 <= number_of_bits_required.0,
        remaining.0.0 <= old(bit_set).len(),
        remaining.1.0 > 0 ==> remaining.0.0 * 64 == location.major.0 * 64 + location.minor.0
            + number_of_bits_required.0 - remaining.1.0,
        with_blocks_unallocated(
            old(bit_set)@,
            final(bit_set)@,
            location.major.0 * 64 + location.minor.0,
            location.major.0 * 64 + location.minor.0 + number_of_bits_required.0 - remaining.1.0,
        ),
{
    if location.minor.is_zero() {
        (location.major, number_of_bits_required)
    } else {
        let number_of_lower_bits = NumberOfBits::in_bit_set_word().sub(location.minor);
        let bits_unset_to_reach_alignment = if number_of_bits_required.0 >= number_of_lower_bits.0 {
            location.major.unset_bottom_bits(bit_set, number_of_lower_bits);
            number_of_lower_bits
        } else {
            location.major.unset_middle_bits(bit_set, number_of_bits_required, number_of_lower_bits);
            number_of_bits_required
        };
        (location.major.increment(), number_of_bits_required.sub(bits_unset_to_reach_alignment))
    }
}

/// Clears whole words from `location_major` while at least a word of blocks remains to clear.
fn unset_aligned_bits_in_middle(bit_set: &mut Vec<u64>, location_major: BitSetWordPointer, remaining_bits_to_unset_in_middle_and_at_end: NumberOfBits) -> (remaining: (BitSetWordPointer, NumberOfBits))
    requires
        location_major.0 * 64 + remaining_bits_to_unset_in_middle_and_at_end.0 <= old(bit_set).len() * 64,
    ensures
        remaining.1.0 < 64,
        remaining.0.0 * 64 + remaining.1.0 == location_major.0 * 64
            + remaining_bits_to_unset_in_middle_and_at_end.0,
        with_blocks_unallocated(old(bit_set)@, final(bit_set)@, location_major.0 * 64, remaining.0.0 * 64),
{
    let mut location_major = location_major;
    let mut remaining_bits = remaining_bits_to_unset_in_middle_and_at_end;
    let ghost first = location_major.0 * 64;
    while remaining_bits.0 >= BIT_SET_WORD_SIZE_IN_BITS
        invariant
            location_major.0 * 64 + remaining_bits.0 == first
                + remaining_bits_to_unset_in_middle_and_at_end.0,
            first <= location_major.0 * 64,
            location_major.0 * 64 + remaining_bits.0 <= old(bit_set).len() * 64,
            with_blocks_unallocated(old(bit_set)@, bit_set@, first, location_major.0 * 64),
        decreases remaining_bits.0,
    {
        location_major.unset_all_bits_and_increment_assign(bit_set);
        remaining_bits.sub_assign(NumberOfBits::in_bit_set_word());
    }
    (location_major, remaining_bits)
}

/// Clears the first `remaining_bits_to_unset_at_end` blocks of the word at `location_major`.
fn unset_unaligned_leading_bits_at_end(bit_set: &mut Vec<u64>, location_major: BitSetWordPointer, remaining_bits_to_unset_at_end: NumberOfBits)
    requires
        remaining_bits_to_unset_at_end.0 < 64,
        location_major.0 * 64 + remaining_bits_to_unset_at_end.0 <= old(bit_set).len() * 64,
    ensures
        with_blocks_unallocated(
            old(bit_set)@,
            final(bit_set)@,
            location_major.0 * 64,
            location_major.0 * 64 + remaining_bits_to_unset_at_end.0,
        ),
{
    if remaining_bits_to_unset_at_end.is_not_zero() {
        location_major.unset_top_bits(bit_set, remaining_bits_to_unset_at_end);
    }
}

/// Sets the blocks of the run that lie before the whole words in front of
/// `bit_set_word_pointer`; the run has `bits_to_set_at_front_and_in_middle` blocks before that
/// word. Returns the first whole word of the run, the blocks of the run in whole words, and the
/// run's first block.
fn set_unaligned_trailing_bits_in_front(bit_set: &mut Vec<u64>, bits_to_set_at_front_and_in_middle: NumberOfBits, bit_set_word_pointer: BitSetWordPointer) -> (front: (BitSetWordPointer, NumberOfBits, NumberOfBits))
    requires
        bits_to_set_at_front_and_in_middle.0 <= bit_set_word_pointer.0 * 64,
        bit_set_word_pointer.0 <= old(bit_set).len(),
        old(bit_set).len() * 64 <= usize::MAX,
    ensures
        front.2.0 == bit_set_word_pointer.0 * 64 - bits_to_set_at_front_and_in_middle.0,
        front.0.0 * 64 + front.1.0 == bit_set_word_pointer.0 * 64,
        front.1.0 % 64 == 0,
        front.2.0 <= front.0.0 * 64,
        with_blocks_allocated(old(bit_set)@, final(bit_set)@, front.2.0 as int, front.0.0 * 64),
{
    let unaligned_trailing_bits_in_front = bits_to_set_at_front_and_in_middle.remainder_of_bits_that_do_not_fit_in_a_bit_set_word();
    let starts_from = bit_set_word_pointer.decrement_in_bit_set_words(bits_to_set_at_front_and_in_middle.round_up_to_number_of_bit_set_words());
    let rounded_down_number_of_bits = starts_from.difference_in_number_of_bits(BitSetWordPointer(0));
    if unaligned_trailing_bits_in_front.is_not_zero() {
        starts_from.set_bottom_bits(bit_set, unaligned_trailing_bits_in_front);
        let offset_into_bit_set = rounded_down_number_of_bits.add(NumberOfBits::in_bit_set_word().sub(unaligned_trailing_bits_in_front));
        (starts_from.increment(), bits_to_set_at_front_and_in_middle.sub(unaligned_trailing_bits_in_front), offset_into_bit_set)
    } else {
        (starts_from, bits_to_set_at_front_and_in_middle, rounded_down_number_of_bits)
    }
}

/// Sets every block of the `remaining_bits_to_set_in_middle` blocks, whole words, from
/// `location_major`; returns the word after them.
fn set_aligned_bits_in_middle(bit_set: &mut Vec<u64>, location_major: BitSetWordPointer, remaining_bits_to_set_in_middle: NumberOfBits) -> (end: BitSetWordPointer)
    requires
        remaining_bits_to_set_in_middle.0 % 64 == 0,
        location_major.0 * 64 + remaining_bits_to_set_in_middle.0 <= old(bit_set).len() * 64,
    ensures
        end.0 * 64 == location_major.0 * 64 + remaining_bits_to_set_in_middle.0,
        with_blocks_allocated(old(bit_set)@, final(bit_set)@, location_major.0 * 64, end.0 * 64),
{
    let mut location_major = location_major;
    let mut remaining_bits = remaining_bits_to_set_in_middle;
    let ghost first = location_major.0 * 64;
    while remaining_bits.is_not_zero()
        invariant
            location_major.0 * 64 + remaining_bits.0 == first + remaining_bits_to_set_in_middle.0,
            first <= location_major.0 * 64,
            remaining_bits.0 % 64 == 0,
            location_major.0 * 64 + remaining_bits.0 <= old(bit_set).len() * 64,
            with_blocks_allocated(old(bit_set)@, bit_set@, first, location_major.0 * 64),
        decreases remaining_bits.0,
    {
        location_major.set_all_bits_and_increment_assign(bit_set);
        remaining_bits.sub_assign(NumberOfBits::in_bit_set_word());
    }
    location_major
}

/// Sets the first `bits_to_set_at_end` blocks of the word at `location_major`.
fn set_unaligned_leading_bits_in_end(bit_set: &mut Vec<u64>, location_major: BitSetWordPointer, bits_to_set_at_end: NumberOfBits)
    requires
        bits_to_set_at_end.0 <= 64,
        location_major.0 * 64 + bits_to_set_at_end.0 <= old(bit_set).len() * 64,
    ensures
        with_blocks_allocated(
            old(bit_set)@,
            final(bit_set)@,
            location_major.0 * 64,
            location_major.0 * 64 + bits_to_set_at_end.0,
        ),
{
    if bits_to_set_at_end.is_not_zero() {
        location_major.set_top_bits(bit_set, bits_to_set_at_end);
    }
}

/// The `count` blocks from block `first` are free in `before` and allocated in `after`, which
/// otherwise has the same blocks allocated.
pub open spec fn allocates_run(before: Set<int>, after: Set<int>, first: int, count: int) -> bool {
    &&& disjoint_from(first, count, before)
    &&& after == before + span(first, count)
}

/// Are the `count` blocks from block `first` on among the `number_of_blocks` blocks, and none of
/// them in `allocated`?
pub open spec fn run_free_in(allocated: Set<int>, number_of_blocks: int, first: int, count: int) -> bool {
    &&& 0 <= first
    &&& first + count <= number_of_blocks
    &&& forall|block: int| first <= block < first + count ==> !#[trigger] allocated.contains(block)
}

/// Is `first` the block where a first-fit search for `count` free blocks (none in `allocated`)
/// starting at a multiple of `alignment` blocks finds them, when it looks from block `from` to
/// the end, and then from the start for a run that ends by block `from`?
pub open spec fn first_fit_from(allocated: Set<int>, number_of_blocks: int, from: int, count: int, alignment: int, first: int) -> bool {
    &&& first % alignment == 0
    &&& run_free_in(allocated, number_of_blocks, first, count)
    &&& if from <= first {
        forall|other: int| from <= other < first && other % alignment == 0
            ==> !#[trigger] run_free_in(allocated, number_of_blocks, other, count)
    } else {
        &&& first + count <= from
        &&& forall|other: int| (from <= other || other < first) && other % alignment == 0
            ==> !#[trigger] run_free_in(allocated, number_of_blocks, other, count)
    }
}

/// Does that search find no run: is every run of `count` free blocks at a multiple of
/// `alignment` blocks one that starts before block `from` and ends past it?
pub open spec fn no_fit_from(allocated: Set<int>, number_of_blocks: int, from: int, count: int, alignment: int) -> bool {
    forall|other: int| other % alignment == 0 && #[trigger] run_free_in(allocated, number_of_blocks, other, count)
        ==> other < from && other + count > from
}

/// Block arithmetic: moving `whole_blocks` blocks on from an address moves its block on by as
/// many, and `whole_blocks` blocks hold `whole_blocks * block_size` bytes.
proof fn lemma_block_arithmetic(start: int, address: int, block_size: int, whole_blocks: int)
    requires
        block_size >= 1,
        address >= start,
        whole_blocks >= 0,
    ensures
        (address + whole_blocks * block_size - start) / block_size == (address - start) / block_size
            + whole_blocks,
        (whole_blocks * block_size + block_size - 1) / block_size == whole_blocks,
{
    vstd::arithmetic::div_mod::lemma_hoist_over_denominator(address - start, whole_blocks, block_size as nat);
    vstd::arithmetic::div_mod::lemma_div_multiples_vanish_fancy(whole_blocks, block_size - 1, block_size);
    assert(whole_blocks * block_size == block_size * whole_blocks) by (nonlinear_arith);
}

/// The blocks for `size` bytes hold at most `size + block_size - 1` bytes, and more bytes never
/// need fewer blocks.
proof fn lemma_blocks_for(size: int, larger: int, block_size: int)
    requires
        block_size >= 1,
        0 <= size <= larger,
    ensures
        ((size + block_size - 1) / block_size) * block_size <= size + block_size - 1,
        (size + block_size - 1) / block_size <= (larger + block_size - 1) / block_size,
{
    vstd::arithmetic::div_mod::lemma_fundamental_div_mod(size + block_size - 1, block_size);
    vstd::arithmetic::div_mod::lemma_div_is_ordered(size + block_size - 1, larger + block_size - 1, block_size);
    assert(((size + block_size - 1) / block_size) * block_size == block_size * ((size + block_size - 1) / block_size)) by (nonlinear_arith);
}

/// The distance from `from` up to the next multiple of `alignment`.
pub open spec fn gap_to_aligned(from: int, alignment: int) -> int {
    if from % alignment == 0 {
        0
    } else {
        alignment - from % alignment
    }
}

/// The next multiple of `alignment` at or after `from` lies `gap_to_aligned` further on, and
/// nothing before it is a multiple.
proof fn lemma_gap_to_aligned(from: int, alignment: int)
    requires
        from >= 0,
        alignment > 0,
    ensures
        0 <= gap_to_aligned(from, alignment) < alignment,
        (from + gap_to_aligned(from, alignment)) % alignment == 0,
        forall|other: int| from <= other < from + gap_to_aligned(from, alignment) ==> #[trigger] (other % alignment) != 0,
{
    vstd::arithmetic::div_mod::lemma_fundamental_div_mod(from, alignment);
    let quotient = from / alignment;
    let remainder = from % alignment;
    if remainder != 0 {
        assert(from + (alignment - remainder) == (quotient + 1) * alignment) by (nonlinear_arith)
            requires from == alignment * quotient + remainder;
        vstd::arithmetic::div_mod::lemma_mod_multiples_basic(quotient + 1, alignment);
        assert forall|other: int| from <= other < from + gap_to_aligned(from, alignment) implies #[trigger] (other % alignment) != 0 by {
            assert(quotient * alignment == alignment * quotient) by (nonlinear_arith);
            vstd::arithmetic::div_mod::lemma_fundamental_div_mod_converse(other, alignment, quotient, other - alignment * quotient);
        }
    }
}

/// Two different multiples of `modulus` are at least `modulus` apart.
proof fn lemma_multiples_apart(smaller: int, larger: int, modulus: int)
    requires
        modulus > 0,
        smaller % modulus == 0,
        larger % modulus == 0,
        smaller < larger,
    ensures
        smaller + modulus <= larger,
{
    vstd::arithmetic::div_mod::lemma_fundamental_div_mod(smaller, modulus);
    vstd::arithmetic::div_mod::lemma_fundamental_div_mod(larger, modulus);
    let low = smaller / modulus;
    let high = larger / modulus;
    if high <= low {
        assert(modulus * high <= modulus * low) by (nonlinear_arith)
            requires high <= low, modulus > 0;
    } else {
        assert(modulus * low + modulus <= modulus * high) by (nonlinear_arith)
            requires low < high, modulus > 0;
    }
}

/// The next multiple of `modulus` after a multiple of it.
proof fn lemma_next_multiple(value: int, modulus: int)
    requires
        modulus > 0,
        value % modulus == 0,
    ensures
        (value + modulus) % modulus == 0,
{
    vstd::arithmetic::div_mod::lemma_fundamental_div_mod(value, modulus);
    let quotient = value / modulus;
    assert(value + modulus == (quotient + 1) * modulus) by (nonlinear_arith)
        requires value == modulus * quotient;
    vstd::arithmetic::div_mod::lemma_mod_multiples_basic(quotient + 1, modulus);
}

/// A block that starts at a multiple of `alignment_in_blocks` blocks of `block_size` bytes
/// starts at a multiple of `alignment` bytes, where `alignment` is `alignment_in_blocks` blocks
/// when larger than a block, and otherwise divides the block size.
proof fn lemma_block_alignment(first: int, block_size: int, alignment: int, alignment_in_blocks: int)
    requires
        is_power_of_two(block_size),
        is_power_of_two(alignment),
        alignment_in_blocks > 0,
        alignment <= block_size ==> alignment_in_blocks == 1,
        alignment > block_size ==> alignment == block_size * alignment_in_blocks,
        first % alignment_in_blocks == 0,
    ensures
        (first * block_size) % alignment == 0,
{
    if alignment <= block_size {
        let block_exponent = choose|e: nat| power_of_two(e) == block_size;
        let alignment_exponent = choose|e: nat| power_of_two(e) == alignment;
        if alignment_exponent > block_exponent {
            lemma_power_of_two_monotonic(block_exponent + 1, alignment_exponent);
            lemma_power_of_two_positive(block_exponent);
        }
        crate::memory_address::lemma_power_of_two_divides(alignment_exponent, block_exponent);
        lemma_power_of_two_positive(alignment_exponent);
        let multiple = power_of_two((block_exponent - alignment_exponent) as nat) as int;
        assert(first * block_size == (first * multiple) * alignment) by (nonlinear_arith)
            requires block_size == alignment * multiple;
        vstd::arithmetic::div_mod::lemma_mod_multiples_basic(first * multiple, alignment);
    } else {
        vstd::arithmetic::div_mod::lemma_fundamental_div_mod(first, alignment_in_blocks);
        let quotient = first / alignment_in_blocks;
        assert(first * block_size == quotient * alignment) by (nonlinear_arith)
            requires first == alignment_in_blocks * quotient + 0, alignment == block_size * alignment_in_blocks;
        lemma_power_of_two_positive(choose|e: nat| power_of_two(e) == alignment);
        vstd::arithmetic::div_mod::lemma_mod_multiples_basic(quotient, alignment);
    }
}

/// An alignment larger than a block is a whole number of blocks.
proof fn lemma_alignment_in_whole_blocks(block_size: int, alignment: int)
    requires
        is_power_of_two(block_size),
        is_power_of_two(alignment),
    ensures
        alignment > block_size ==> alignment / block_size >= 1 && alignment == block_size * (alignment / block_size),
{
    if alignment > block_size {
        let block_exponent = choose|e: nat| power_of_two(e) == block_size;
        let alignment_exponent = choose|e: nat| power_of_two(e) == alignment;
        if alignment_exponent <= block_exponent {
            lemma_power_of_two_monotonic(alignment_exponent, block_exponent);
        }
        lemma_power_of_two_adds(block_exponent, (alignment_exponent - block_exponent) as nat);
        let blocks = power_of_two((alignment_exponent - block_exponent) as nat) as int;
        lemma_power_of_two_positive((alignment_exponent - block_exponent) as nat);
        lemma_power_of_two_positive(block_exponent);
        assert(alignment == block_size * blocks);
        vstd::arithmetic::div_mod::lemma_div_multiples_vanish(blocks, block_size);
    }
}

/// A block whose first byte lies a multiple of `alignment` bytes from the first block lies a
/// multiple of `alignment_in_blocks` blocks from it.
proof fn lemma_block_alignment_in_blocks(block: int, block_size: int, alignment: int, alignment_in_blocks: int)
    requires
        block_size >= 1,
        alignment_in_blocks >= 1,
        alignment <= block_size ==> alignment_in_blocks == 1,
        alignment > block_size ==> alignment == block_size * alignment_in_blocks,
        (block * block_size) % alignment == 0,
    ensures
        block % alignment_in_blocks == 0,
{
    if alignment > block_size {
        let product = block * block_size;
        vstd::arithmetic::div_mod::lemma_fundamental_div_mod(product, alignment);
        let quotient = product / alignment;
        assert(block_size * (block - alignment_in_blocks * quotient) == 0) by (nonlinear_arith)
            requires
                product == block * block_size,
                product == alignment * quotient + 0,
                alignment == block_size * alignment_in_blocks;
        assert(block == alignment_in_blocks * quotient) by (nonlinear_arith)
            requires
                block_size * (block - alignment_in_blocks * quotient) == 0,
                block_size >= 1;
        vstd::arithmetic::div_mod::lemma_mod_multiples_basic(quotient, alignment_in_blocks);
        assert(quotient * alignment_in_blocks == alignment_in_blocks * quotient) by (nonlinear_arith);
    }
}

/// `2^exponent` fits in a `usize` when `exponent` is below its width.
proof fn lemma_power_of_two_fits(exponent: nat)
    requires
        exponent < usize::BITS,
    ensures
        power_of_two(exponent) <= usize::MAX,
{
    lemma_power_of_two_values();
    lemma_power_of_two_adds(32, 31);
    if usize::BITS == 32 {
        lemma_power_of_two_monotonic(exponent, 31);
        assert(power_of_two(32) == 2 * power_of_two(31));
    } else {
        lemma_power_of_two_monotonic(exponent, 63);
    }
}

/// In word `index` of `words`, the `count` blocks from its block `offset` on are free exactly
/// when the word has none of the bits of `mask`, which covers their bits.
proof fn lemma_run_in_word(words: Seq<u64>, index: int, offset: int, count: int, mask: u64)
    requires
        0 <= index < words.len(),
        0 <= offset,
        1 <= count,
        offset + count <= 64,
        mask_covers(mask, 64 - offset - count, 64 - offset),
    ensures
        (words[index] & mask == 0) <==> forall|block: int|
            index * 64 + offset <= block < index * 64 + offset + count ==> !#[trigger] block_is_allocated(words, block),
{
    let word = words[index];
    if word & mask == 0 {
        lemma_and_zero_bits(word, mask);
        assert forall|block: int| index * 64 + offset <= block < index * 64 + offset + count
            implies !#[trigger] block_is_allocated(words, block) by {
            vstd::arithmetic::div_mod::lemma_fundamental_div_mod_converse(block, 64, index, block - index * 64);
            assert(bit_is_set(mask, 63 - (block - index * 64)));
        }
    } else {
        lemma_and_nonzero_bits(word, mask);
        let bit = choose|bit: int| 0 <= bit < 64 && #[trigger] bit_is_set(word, bit) && bit_is_set(mask, bit);
        let block = index * 64 + 63 - bit;
        vstd::arithmetic::div_mod::lemma_fundamental_div_mod_converse(block, 64, index, 63 - bit);
        assert(block_is_allocated(words, block));
    }
}

/// A bit set allocator: hands out runs of fixed-size blocks of memory, one bit per block.
///
/// The bit set is held by the allocator; memory itself is never read or written.
pub struct BitSetAllocator {
    bit_set: Vec<u64>,
    start_search_for_next_allocation_at: BitSetWordPointer,
    allocations_start_from: usize,
    block_size: BlockSize,
}

impl BitSetAllocator {
    /// The address of the first block.
    pub closed spec fn start(&self) -> int {
        self.allocations_start_from as int
    }

    /// The size of each block in bytes.
    pub closed spec fn block_size(&self) -> int {
        self.block_size.size()
    }

    /// The number of blocks the bit set covers.
    pub closed spec fn number_of_blocks(&self) -> int {
        self.bit_set.len() * 64
    }

    /// The blocks that are allocated.
    pub closed spec fn allocated(&self) -> Set<int> {
        allocated_blocks(self.bit_set@)
    }

    /// The word where the next search for free blocks starts.
    pub closed spec fn search_cursor(&self) -> int {
        self.start_search_for_next_allocation_at.0 as int
    }

    /// Is the word `word` of the bit set clear, its 64 blocks free?
    pub closed spec fn word_is_clear(&self, word: int) -> bool {
        self.bit_set@[word] == 0
    }

    /// The allocator's invariant.
    pub closed spec fn wf(&self) -> bool {
        &&& self.block_size.wf()
        &&& self.bit_set.len() > 0
        &&& self.start_search_for_next_allocation_at.0 < self.bit_set.len()
        &&& self.allocations_start_from + self.bit_set.len() * 64 * self.block_size.size() <= usize::MAX
    }

    /// Are the `count` blocks from block `first` on free, and within the bit set?
    pub open spec fn run_is_free(&self, first: int, count: int) -> bool {
        &&& 0 <= first
        &&& first + count <= self.number_of_blocks()
        &&& forall|block: int| first <= block < first + count ==> !#[trigger] self.allocated().contains(block)
    }

    /// Is there no run of `count` free blocks that starts at a multiple of `alignment` blocks,
    /// from block `from` on, and ends by block `to`?
    pub open spec fn no_free_run(&self, from: int, to: int, count: int, alignment: int) -> bool {
        forall|other: int| from <= other && other + count <= to && other % alignment == 0
            ==> !#[trigger] self.run_is_free(other, count)
    }

    /// Is `first` the first block, from block `from` on and at a multiple of `alignment` blocks,
    /// where a run of `count` free blocks starts that ends by block `to`?
    pub open spec fn first_free_run(&self, from: int, to: int, count: int, alignment: int, first: int) -> bool {
        &&& from <= first
        &&& first + count <= to
        &&& first % alignment == 0
        &&& self.run_is_free(first, count)
        &&& self.no_free_run(from, first + count - 1, count, alignment)
    }

    /// Is `first` where a search for `count` free blocks at a multiple of `alignment` blocks
    /// finds them: the first such run from the search cursor's word to the end of the bit set,
    /// or, when there is none, the first from the start that ends by the search cursor's word?
    pub open spec fn search_finds(&self, count: int, alignment: int, first: int) -> bool {
        let cursor = self.search_cursor() * 64;
        ||| self.first_free_run(cursor, self.number_of_blocks(), count, alignment, first)
        ||| self.no_free_run(cursor, self.number_of_blocks(), count, alignment)
            && self.first_free_run(0, cursor, count, alignment, first)
    }

    /// Does a search for `count` free blocks at a multiple of `alignment` blocks find none,
    /// neither from the search cursor's word to the end nor from the start to that word?
    pub open spec fn search_finds_nothing(&self, count: int, alignment: int) -> bool {
        &&& self.no_free_run(self.search_cursor() * 64, self.number_of_blocks(), count, alignment)
        &&& self.no_free_run(0, self.search_cursor() * 64, count, alignment)
    }

    /// The alignment `alignment`, in bytes, counted in blocks; blocks are aligned to their own
    /// size.
    pub open spec fn alignment_in_blocks(&self, alignment: int) -> int {
        if alignment <= self.block_size() {
            1
        } else {
            alignment / self.block_size()
        }
    }

    /// What a search finds, as a first fit over the allocated blocks from the search cursor's
    /// word.
    pub proof fn lemma_search_finds_first_fit(&self, count: int, alignment: int, first: int)
        requires
            count >= 1,
            self.search_finds(count, alignment, first),
        ensures
            first_fit_from(self.allocated(), self.number_of_blocks(), self.search_cursor() * 64, count, alignment, first),
    {
        let n = self.number_of_blocks();
        let from = self.search_cursor() * 64;
        assert forall|other: int| #[trigger] run_free_in(self.allocated(), n, other, count) == self.run_is_free(other, count) by {}
        if self.first_free_run(from, n, count, alignment, first) {
            assert forall|other: int| from <= other < first && other % alignment == 0
                implies !#[trigger] run_free_in(self.allocated(), n, other, count) by {
                assert(!self.run_is_free(other, count));
            }
        } else {
            assert forall|other: int| (from <= other || other < first) && other % alignment == 0
                implies !#[trigger] run_free_in(self.allocated(), n, other, count) by {
                if from <= other && other + count <= n {
                    assert(!self.run_is_free(other, count));
                } else if other < first {
                    assert(!self.run_is_free(other, count));
                }
            }
        }
    }

    /// What a search that finds nothing leaves: only runs that straddle the search cursor's word.
    pub proof fn lemma_search_finds_nothing_no_fit(&self, count: int, alignment: int)
        requires
            self.search_finds_nothing(count, alignment),
        ensures
            no_fit_from(self.allocated(), self.number_of_blocks(), self.search_cursor() * 64, count, alignment),
    {
        let n = self.number_of_blocks();
        let from = self.search_cursor() * 64;
        assert forall|other: int| other % alignment == 0 && #[trigger] run_free_in(self.allocated(), n, other, count)
            implies other < from && other + count > from by {
            assert(self.run_is_free(other, count));
        }
    }

    /// The block that the byte at `address` lies in.
    pub open spec fn block_of(&self, address: int) -> int {
        (address - self.start()) / self.block_size()
    }

    /// The number of blocks that hold `size` bytes.
    pub open spec fn blocks_for(&self, size: int) -> int {
        (size + self.block_size() - 1) / self.block_size()
    }

    /// Facts that follow from the invariant.
    pub proof fn lemma_wf(&self)
        requires
            self.wf(),
        ensures
            self.block_size() >= 1,
            is_power_of_two(self.block_size()),
            self.number_of_blocks() >= 64,
            0 <= self.search_cursor() < self.number_of_blocks() / 64,
            self.start() + self.number_of_blocks() * self.block_size() <= usize::MAX,
            self.number_of_blocks() <= usize::MAX,
            forall|block: int| #[trigger] self.allocated().contains(block) ==> 0 <= block < self.number_of_blocks(),
    {
        self.block_size.lemma_wf();
        assert(self.number_of_blocks() * self.block_size() == self.bit_set.len() * 64 * self.block_size.size()) by (nonlinear_arith)
            requires self.number_of_blocks() == self.bit_set.len() * 64, self.block_size() == self.block_size.size();
        assert(self.number_of_blocks() <= self.number_of_blocks() * self.block_size()) by (nonlinear_arith)
            requires self.number_of_blocks() >= 0, self.block_size() >= 1;
    }

    /// A bit set allocator for `size_in_bytes` bytes of bit set, one bit per block of
    /// `block_size` bytes, with the first block at `allocations_start_from`; every block is
    /// free.
    pub fn new(size_in_bytes: usize, allocations_start_from: usize, block_size: usize) -> (allocator: Self)
        requires
            size_in_bytes > 0,
            size_in_bytes % BIT_SET_WORD_SIZE_IN_BYTES == 0,
            is_power_of_two(block_size as int),
            allocations_start_from + size_in_bytes * 8 * block_size <= usize::MAX,
        ensures
            allocator.wf(),
            allocator.start() == allocations_start_from,
            allocator.block_size() == block_size,
            allocator.number_of_blocks() == size_in_bytes * 8,
            allocator.allocated() == Set::<int>::empty(),
            allocator.search_cursor() == 0,
    {
        let number_of_words = size_in_bytes / BIT_SET_WORD_SIZE_IN_BYTES;
        let mut bit_set: Vec<u64> = Vec::new();
        while bit_set.len() < number_of_words
            invariant
                bit_set.len() <= number_of_words,
                forall|index: int| 0 <= index < bit_set.len() ==> bit_set@[index] == 0,
            decreases number_of_words - bit_set.len(),
        {
            bit_set.push(0);
        }
        proof {
            assert(number_of_words * 64 == size_in_bytes * 8);
        }
        let allocator = Self::with_bit_set(bit_set, allocations_start_from, block_size);
        proof {
            crate::bit_set::word::lemma_full_and_empty_words();
            assert(allocator.allocated() =~= Set::<int>::empty());
        }
        allocator
    }

    /// A bit set allocator over `bit_set`, whose set bits mark the blocks already allocated:
    /// one bit per block of `block_size` bytes, with the first block at
    /// `allocations_start_from`.
    pub fn with_bit_set(bit_set: Vec<u64>, allocations_start_from: usize, block_size: usize) -> (allocator: Self)
        requires
            bit_set.len() > 0,
            is_power_of_two(block_size as int),
            allocations_start_from + bit_set.len() * 64 * block_size <= usize::MAX,
        ensures
            allocator.wf(),
            allocator.start() == allocations_start_from,
            allocator.block_size() == block_size,
            allocator.number_of_blocks() == bit_set.len() * 64,
            allocator.allocated() == allocated_blocks(bit_set@),
            allocator.search_cursor() == 0,
    {
        BitSetAllocator {
            bit_set,
            start_search_for_next_allocation_at: BitSetWordPointer(0),
            allocations_start_from,
            block_size: BlockSize::new(block_size),
        }
    }

    /// Where in the bit set the block holding `start_of_allocated_memory` is.
    fn absolute_location_in_bit_set(&self, start_of_allocated_memory: usize) -> (location: AbsoluteLocationInBitSet)
        requires
            self.wf(),
            start_of_allocated_memory >= self.start(),
        ensures
            location.major.0 * 64 + location.minor.0 == self.block_of(start_of_allocated_memory as int),
            location.minor.0 < 64,
    {
        let blocks_offset = self.block_size.blocks_offset(self.allocations_start_from, start_of_allocated_memory);
        blocks_offset.to_absolute_location_in_bit_set(BitSetWordPointer(0))
    }

    /// The number of blocks that hold `non_zero_size` bytes.
    fn number_of_bits_required(&self, non_zero_size: usize) -> (bits: NumberOfBits)
        requires
            self.wf(),
            non_zero_size + self.block_size() - 1 <= usize::MAX,
        ensures
            bits.0 == self.blocks_for(non_zero_size as int),
    {
        self.block_size.number_of_blocks_required(non_zero_size)
    }

    /// Frees the blocks holding the `non_zero_size` bytes at `current_memory`.
    pub fn deallocate(&mut self, non_zero_size: usize, _non_zero_power_of_two_alignment: usize, current_memory: usize)
        requires
            old(self).wf(),
            non_zero_size > 0,
            non_zero_size + old(self).block_size() - 1 <= usize::MAX,
            current_memory >= old(self).start(),
            old(self).block_of(current_memory as int) + old(self).blocks_for(non_zero_size as int)
                <= old(self).number_of_blocks(),
        ensures
            final(self).wf(),
            final(self).start() == old(self).start(),
            final(self).block_size() == old(self).block_size(),
            final(self).number_of_blocks() == old(self).number_of_blocks(),
            final(self).search_cursor() == old(self).search_cursor(),
            final(self).allocated() == old(self).allocated().difference(
                span(old(self).block_of(current_memory as int), old(self).blocks_for(non_zero_size as int)),
            ),
    {
        let location = self.absolute_location_in_bit_set(current_memory);
        let number_of_bits_required = self.number_of_bits_required(non_zero_size);
        proof {
            let size = non_zero_size as int;
            let block_size = self.block_size();
            self.lemma_wf();
            assert((size + block_size - 1) / block_size >= 1) by (nonlinear_arith)
                requires size >= 1, block_size >= 1;
        }
        let ghost before = self.bit_set@;
        let ghost first = location.major.0 * 64 + location.minor.0;
        let (location_major, remaining_bits_to_unset_in_middle_and_at_end) = unset_unaligned_trailing_bits_at_front(&mut self.bit_set, location, number_of_bits_required);
        let (location_major, remaining_bits_to_unset_at_end) = unset_aligned_bits_in_middle(&mut self.bit_set, location_major, remaining_bits_to_unset_in_middle_and_at_end);
        unset_unaligned_leading_bits_at_end(&mut self.bit_set, location_major, remaining_bits_to_unset_at_end);
        proof {
            let last = first + number_of_bits_required.0;
            assert(with_blocks_unallocated(before, self.bit_set@, first, last));
            assert(self.allocated() =~= old(self).allocated().difference(span(first, number_of_bits_required.0 as int)));
        }
    }

    /// `self` and `other` manage the same blocks of the same memory.
    pub open spec fn same_layout(&self, other: &Self) -> bool {
        &&& self.start() == other.start()
        &&& self.block_size() == other.block_size()
        &&& self.number_of_blocks() == other.number_of_blocks()
    }

    /// Is `address` the address of a block from which a run of `count` blocks fits?
    pub open spec fn is_run_address(&self, address: int, count: int) -> bool {
        let first = self.block_of(address);
        &&& address == self.start() + first * self.block_size()
        &&& 0 <= first
        &&& first + count <= self.number_of_blocks()
    }

    /// Going from `self` to `after` allocated the `count` free blocks that start at `address`.
    pub open spec fn allocation_at(&self, after: &Self, address: int, count: int) -> bool {
        &&& self.is_run_address(address, count)
        &&& allocates_run(self.allocated(), after.allocated(), self.block_of(address), count)
    }

    /// Are the words from `from` up to, but not including, `to` clear, all their blocks free?
    pub closed spec fn words_clear(&self, from: int, to: int) -> bool {
        forall|word: int| from <= word < to ==> self.bit_set@[word] == 0
    }

    /// The address of block `first` lies in the managed memory, and `first` is its block.
    proof fn lemma_block_address(&self, first: int)
        requires
            self.wf(),
            0 <= first <= self.number_of_blocks(),
        ensures
            first * self.block_size() <= self.number_of_blocks() * self.block_size(),
            self.block_of(self.start() + first * self.block_size()) == first,
    {
        self.lemma_wf();
        let block_size = self.block_size();
        vstd::arithmetic::mul::lemma_mul_inequality(first, self.number_of_blocks(), block_size);
        vstd::arithmetic::div_mod::lemma_div_multiples_vanish(first, block_size);
        assert(first * block_size == block_size * first) by (nonlinear_arith);
    }

    /// Records where the search stopped and returns the address of block `offset_into_bit_set`.
    fn successful_allocation(&mut self, bit_set_word_pointer: BitSetWordPointer, offset_into_bit_set: NumberOfBits) -> (address: usize)
        requires
            old(self).wf(),
            bit_set_word_pointer.0 < old(self).bit_set.len(),
            offset_into_bit_set.0 <= old(self).number_of_blocks(),
        ensures
            final(self).wf(),
            final(self).bit_set == old(self).bit_set,
            final(self).allocations_start_from == old(self).allocations_start_from,
            final(self).block_size == old(self).block_size,
            final(self).start_search_for_next_allocation_at == bit_set_word_pointer,
            address == old(self).start() + offset_into_bit_set.0 * old(self).block_size(),
            old(self).block_of(address as int) == offset_into_bit_set.0,
    {
        proof {
            self.lemma_block_address(offset_into_bit_set.0 as int);
        }
        self.start_search_for_next_allocation_at = bit_set_word_pointer;
        let offset = offset_into_bit_set.scale_to_memory_offset_in_bytes(&self.block_size);
        self.allocations_start_from + offset.to_usize()
    }

    /// The mask and whether the `count` blocks from block `offset` of the word at `index` are
    /// free are two views of one fact.
    proof fn lemma_run_in_word_is_free(&self, index: int, offset: int, count: int, mask: u64)
        requires
            self.wf(),
            0 <= index < self.bit_set.len(),
            0 <= offset,
            1 <= count,
            offset + count <= 64,
            mask_covers(mask, 64 - offset - count, 64 - offset),
        ensures
            (self.bit_set@[index] & mask == 0) == self.run_is_free(index * 64 + offset, count),
    {
        lemma_run_in_word(self.bit_set@, index, offset, count, mask);
        if self.bit_set@[index] & mask != 0 {
            let block = choose|block: int| index * 64 + offset <= block < index * 64 + offset + count
                && #[trigger] block_is_allocated(self.bit_set@, block);
            assert(self.allocated().contains(block));
        }
    }

    /// Looks inside the word at `bit_set_word_pointer`, `current`, for `number_of_bits_required`
    /// free blocks that start at a multiple of `alignment` blocks, trying the positions nearest
    /// the word's start first; allocates the first run found.
    fn search_in_word(&mut self, number_of_bits_required: NumberOfBits, bit_set_word_pointer: BitSetWordPointer, current: BitSetWord, alignment: usize) -> (found: Option<usize>)
        requires
            old(self).wf(),
            1 <= number_of_bits_required.0 <= 64,
            bit_set_word_pointer.0 < old(self).bit_set.len(),
            current.0 == old(self).bit_set@[bit_set_word_pointer.0 as int],
            alignment > 0,
        ensures
            final(self).wf(),
            final(self).same_layout(old(self)),
            found is None ==> *final(self) == *old(self) && old(self).no_free_run(
                bit_set_word_pointer.0 * 64,
                bit_set_word_pointer.0 * 64 + 64,
                number_of_bits_required.0 as int,
                alignment as int,
            ),
            found matches Some(address) ==> {
                &&& old(self).allocation_at(final(self), address as int, number_of_bits_required.0 as int)
                &&& old(self).first_free_run(
                    bit_set_word_pointer.0 * 64,
                    bit_set_word_pointer.0 * 64 + 64,
                    number_of_bits_required.0 as int,
                    alignment as int,
                    old(self).block_of(address as int),
                )
                &&& final(self).search_cursor() == bit_set_word_pointer.0
            },
    {
        proof {
            self.lemma_wf();
        }
        let n = number_of_bits_required.0;
        let word_start = bit_set_word_pointer.0 * 64;
        let remainder = word_start % alignment;
        let mut offset: usize = if remainder == 0 { 0 } else { alignment - remainder };
        let count = n as u64;
        proof {
            assert(count < 64 ==> 1u64 << count >= 1) by (bit_vector);
        }
        let unshifted: u64 = if n == 64 { 0xFFFF_FFFF_FFFF_FFFFu64 } else { ((1u64 << count) - 1) as u64 };
        proof {
            lemma_gap_to_aligned(word_start as int, alignment as int);
            assert(offset == gap_to_aligned(word_start as int, alignment as int));
        }
        while offset <= 64 - n
            invariant
                *self == *old(self),
                self.wf(),
                bit_set_word_pointer.0 < self.bit_set.len(),
                current.0 == self.bit_set@[bit_set_word_pointer.0 as int],
                1 <= n <= 64,
                n == number_of_bits_required.0,
                count == n,
                alignment > 0,
                word_start == bit_set_word_pointer.0 * 64,
                word_start + 64 <= self.number_of_blocks(),
                (word_start + offset) % (alignment as int) == 0,
                n == 64 ==> unshifted == 0xFFFF_FFFF_FFFF_FFFFu64,
                n < 64 ==> unshifted == ((1u64 << count) - 1) as u64,
                forall|other: int| word_start <= other < word_start + offset && other % (alignment as int) == 0
                    ==> !#[trigger] self.run_is_free(other, n as int),
            ensures
                *self == *old(self),
                forall|other: int| word_start <= other <= word_start + 64 - n && other % (alignment as int) == 0
                    ==> !#[trigger] self.run_is_free(other, n as int),
            decreases 65 - offset,
        {
            let shift = (64 - n - offset) as u64;
            let mask = unshifted << shift;
            proof {
                if n == 64 {
                    lemma_full_and_empty_words();
                    assert(0xFFFF_FFFF_FFFF_FFFFu64 << 0u64 == 0xFFFF_FFFF_FFFF_FFFFu64) by (bit_vector);
                } else {
                    lemma_shifted_mask(count, shift);
                }
                self.lemma_run_in_word_is_free(bit_set_word_pointer.0 as int, offset as int, n as int, mask);
            }
            if current.0 & mask == 0 {
                let ghost before = *self;
                let ghost first = (word_start + offset) as int;
                bit_set_word_pointer.set_some_bits(&mut self.bit_set, current, mask);
                proof {
                    assert forall|block: int| 0 <= block < before.bit_set.len() * 64 implies (#[trigger] block_is_allocated(self.bit_set@, block)
                        <==> (block_is_allocated(before.bit_set@, block) || first <= block < first + n)) by {
                        if block / 64 == bit_set_word_pointer.0 {
                            vstd::arithmetic::div_mod::lemma_fundamental_div_mod(block, 64);
                            assert(bit_is_set(mask, 63 - block % 64) <==> first <= block < first + n);
                        } else {
                            vstd::arithmetic::div_mod::lemma_fundamental_div_mod(block, 64);
                        }
                    }
                    assert(self.allocated() =~= before.allocated() + span(first, n as int));
                    self.lemma_wf();
                }
                let address = self.successful_allocation(bit_set_word_pointer, NumberOfBits(word_start + offset));
                proof {
                    assert(before.run_is_free(first, n as int));
                    assert(disjoint_from(first, n as int, before.allocated()));
                }
                return Some(address);
            }
            if alignment > 64 - n - offset {
                proof {
                    assert forall|other: int| word_start <= other <= word_start + 64 - n && other % (alignment as int) == 0
                        implies !#[trigger] self.run_is_free(other, n as int) by {
                        if other > word_start + offset {
                            lemma_multiples_apart(word_start + offset, other, alignment as int);
                        }
                    }
                }
                break;
            }
            proof {
                assert forall|other: int| word_start <= other < word_start + offset + alignment && other % (alignment as int) == 0
                    implies !#[trigger] self.run_is_free(other, n as int) by {
                    if other > word_start + offset {
                        lemma_multiples_apart(word_start + offset, other, alignment as int);
                    }
                }
                lemma_next_multiple(word_start + offset, alignment as int);
            }
            offset = offset + alignment;
        }
        None
    }

    /// Allocates the run of `number_of_bits_required` free blocks that has
    /// `bits_to_set_at_front_and_in_middle` blocks before the word at `bit_set_word_pointer`
    /// and the rest at that word's start.
    fn allocate_in_contiguous_unset_bits(&mut self, bits_to_set_at_front_and_in_middle: NumberOfBits, bit_set_word_pointer: BitSetWordPointer, number_of_bits_required: NumberOfBits) -> (address: usize)
        requires
            old(self).wf(),
            bits_to_set_at_front_and_in_middle.0 <= number_of_bits_required.0,
            number_of_bits_required.0 - bits_to_set_at_front_and_in_middle.0 <= 64,
            bits_to_set_at_front_and_in_middle.0 <= bit_set_word_pointer.0 * 64,
            bit_set_word_pointer.0 < old(self).bit_set.len(),
            forall|block: int|
                bit_set_word_pointer.0 * 64 - bits_to_set_at_front_and_in_middle.0 <= block
                    < bit_set_word_pointer.0 * 64 - bits_to_set_at_front_and_in_middle.0
                    + number_of_bits_required.0 ==> !#[trigger] block_is_allocated(old(self).bit_set@, block),
        ensures
            final(self).wf(),
            final(self).same_layout(old(self)),
            old(self).allocation_at(final(self), address as int, number_of_bits_required.0 as int),
            old(self).block_of(address as int) == bit_set_word_pointer.0 * 64 - bits_to_set_at_front_and_in_middle.0,
            final(self).search_cursor() == bit_set_word_pointer.0,
    {
        proof {
            self.lemma_wf();
        }
        let ghost first = bit_set_word_pointer.0 * 64 - bits_to_set_at_front_and_in_middle.0;
        let ghost count = number_of_bits_required.0 as int;
        let ghost before = self.bit_set@;
        let (location_major, bits_to_set_in_middle, offset_into_bit_set) = set_unaligned_trailing_bits_in_front(&mut self.bit_set, bits_to_set_at_front_and_in_middle, bit_set_word_pointer);
        let ghost after_front = self.bit_set@;
        let ghost middle_from = location_major.0 * 64;
        let location_major = set_aligned_bits_in_middle(&mut self.bit_set, location_major, bits_to_set_in_middle);
        let ghost after_middle = self.bit_set@;
        let bits_to_set_at_end = number_of_bits_required.sub(bits_to_set_at_front_and_in_middle);
        set_unaligned_leading_bits_in_end(&mut self.bit_set, location_major, bits_to_set_at_end);
        proof {
            assert(location_major == bit_set_word_pointer);
            assert forall|block: int| 0 <= block < before.len() * 64 implies (#[trigger] block_is_allocated(self.bit_set@, block)
                <==> (block_is_allocated(before, block) || first <= block < first + count)) by {
                assert(block_is_allocated(after_front, block) <==> (block_is_allocated(before, block) || first <= block < middle_from));
                assert(block_is_allocated(after_middle, block) <==> (block_is_allocated(after_front, block) || middle_from <= block < bit_set_word_pointer.0 * 64));
                assert(block_is_allocated(self.bit_set@, block) <==> (block_is_allocated(after_middle, block) || bit_set_word_pointer.0 * 64 <= block < bit_set_word_pointer.0 * 64 + bits_to_set_at_end.0));
            }
            assert forall|block: int| first <= block < first + count implies !#[trigger] old(self).allocated().contains(block) by {}
            assert(self.allocated() =~= old(self).allocated() + span(first, count));
        }
        self.successful_allocation(bit_set_word_pointer, offset_into_bit_set)
    }

    /// Whether block `offset` of the word at `index` is allocated is whether bit `63 - offset`
    /// of that word is set.
    proof fn lemma_block_in_word(&self, index: int, offset: int)
        requires
            self.wf(),
            0 <= index < self.bit_set.len(),
            0 <= offset < 64,
        ensures
            self.allocated().contains(index * 64 + offset) == bit_is_set(self.bit_set@[index], 63 - offset),
    {
        vstd::arithmetic::div_mod::lemma_fundamental_div_mod_converse(index * 64 + offset, 64, index, offset);
    }

    /// Searches the words from the search cursor up to `end_bit_set_word_pointer` for
    /// `number_of_bits_required` free blocks that start at a multiple of `alignment` blocks, and
    /// allocates the first such run, in block order, that starts at or after the search cursor's
    /// word and ends within the words searched.
    #[verifier::rlimit(40)]
    fn scan(&mut self, number_of_bits_required: NumberOfBits, alignment: usize, end_bit_set_word_pointer: BitSetWordPointer) -> (found: Option<usize>)
        requires
            old(self).wf(),
            1 <= number_of_bits_required.0,
            alignment > 0,
            old(self).search_cursor() <= end_bit_set_word_pointer.0 <= old(self).bit_set.len(),
        ensures
            final(self).wf(),
            final(self).same_layout(old(self)),
            found is None ==> *final(self) == *old(self) && old(self).no_free_run(
                old(self).search_cursor() * 64,
                end_bit_set_word_pointer.0 * 64,
                number_of_bits_required.0 as int,
                alignment as int,
            ),
            found matches Some(address) ==> old(self).allocation_at(final(self), address as int, number_of_bits_required.0 as int)
                && old(self).first_free_run(
                    old(self).search_cursor() * 64,
                    end_bit_set_word_pointer.0 * 64,
                    number_of_bits_required.0 as int,
                    alignment as int,
                    old(self).block_of(address as int),
                ),
    {
        proof {
            self.lemma_wf();
        }
        let ghost cursor = self.search_cursor();
        let n = number_of_bits_required;
        let mut contiguous: usize = 0;
        let mut bit_set_word_pointer = self.start_search_for_next_allocation_at;
        while bit_set_word_pointer != end_bit_set_word_pointer
            invariant
                *self == *old(self),
                self.wf(),
                self.number_of_blocks() <= usize::MAX,
                self.number_of_blocks() == self.bit_set.len() * 64,
                cursor == self.search_cursor(),
                cursor <= bit_set_word_pointer.0 <= end_bit_set_word_pointer.0 <= self.bit_set.len(),
                n == number_of_bits_required,
                1 <= n.0,
                alignment > 0,
                cursor * 64 <= bit_set_word_pointer.0 * 64 - contiguous,
                forall|block: int| bit_set_word_pointer.0 * 64 - contiguous <= block < bit_set_word_pointer.0 * 64
                    ==> !#[trigger] self.allocated().contains(block),
                bit_set_word_pointer.0 * 64 - contiguous == cursor * 64
                    || self.allocated().contains(bit_set_word_pointer.0 * 64 - contiguous - 1),
                self.no_free_run(cursor * 64, bit_set_word_pointer.0 * 64, n.0 as int, alignment as int),
            decreases end_bit_set_word_pointer.0 - bit_set_word_pointer.0,
        {
            let current = bit_set_word_pointer.bit_set_word(&self.bit_set);
            let leading = current.leading_unset_bits();
            let word_start = bit_set_word_pointer.0 * 64;
            let from = word_start - contiguous;
            let remainder = from % alignment;
            let gap = if remainder == 0 { 0 } else { alignment - remainder };
            let ghost pointer = bit_set_word_pointer.0 as int;
            proof {
                lemma_gap_to_aligned(from as int, alignment as int);
                assert(gap == gap_to_aligned(from as int, alignment as int));
                assert forall|offset: int| 0 <= offset < leading.0 implies !#[trigger] self.allocated().contains(word_start + offset) by {
                    self.lemma_block_in_word(pointer, offset);
                }
                if leading.0 < 64 {
                    self.lemma_block_in_word(pointer, leading.0 as int);
                }
                // Every aligned run that starts before the next aligned block from `from` on,
                // and does not end before this word, takes an allocated block.
                assert forall|other: int| cursor * 64 <= other < from + gap && other + n.0 > word_start && other < word_start
                    && other % (alignment as int) == 0 implies !#[trigger] self.run_is_free(other, n.0 as int) by {
                    if other < from {
                        assert(self.allocated().contains(from - 1));
                    }
                }
            }
            if gap < contiguous && contiguous - gap + leading.0 >= n.0 {
                let front = contiguous - gap;
                let ghost first = (from + gap) as int;
                proof {
                    if front >= n.0 {
                        assert(self.run_is_free(first, n.0 as int));
                    }
                    assert forall|block: int| word_start - front <= block < word_start - front + n.0
                        implies !#[trigger] block_is_allocated(self.bit_set@, block) by {
                        if block < word_start {
                            assert(!self.allocated().contains(block));
                        } else {
                            assert(!self.allocated().contains(word_start + (block - word_start)));
                        }
                    }
                }
                let ghost before = *self;
                let address = self.allocate_in_contiguous_unset_bits(NumberOfBits(front), bit_set_word_pointer, n);
                proof {
                    assert forall|block: int| first <= block < first + n.0 implies !#[trigger] before.allocated().contains(block) by {
                        if block >= word_start {
                            assert(!before.allocated().contains(word_start + (block - word_start)));
                        }
                    }
                    assert(before.run_is_free(first, n.0 as int));
                    assert forall|other: int| cursor * 64 <= other && other + n.0 <= first + n.0 - 1 && other % (alignment as int) == 0
                        implies !#[trigger] before.run_is_free(other, n.0 as int) by {
                        if other + n.0 > word_start {
                            assert(other < from + gap);
                        }
                    }
                }
                return Some(address);
            }
            proof {
                // No aligned run that starts before this word ends within it.
                assert forall|other: int| cursor * 64 <= other < word_start && word_start < other + n.0 <= word_start + 64
                    && other % (alignment as int) == 0 implies !#[trigger] self.run_is_free(other, n.0 as int) by {
                    if other >= from + gap && self.run_is_free(other, n.0 as int) {
                        if leading.0 < 64 {
                            assert(!self.allocated().contains(word_start + leading.0));
                        }
                    }
                }
            }
            if n.0 <= 64 {
                let ghost before = *self;
                if let Some(address) = self.search_in_word(n, bit_set_word_pointer, current, alignment) {
                    proof {
                        let first = before.block_of(address as int);
                        assert forall|other: int| cursor * 64 <= other && other + n.0 <= first + n.0 - 1 && other % (alignment as int) == 0
                            implies !#[trigger] before.run_is_free(other, n.0 as int) by {
                            if other >= word_start {
                                assert(other + n.0 <= first + n.0 - 1);
                            }
                        }
                    }
                    return Some(address);
                }
            }
            proof {
                assert forall|other: int| cursor * 64 <= other && other + n.0 <= word_start + 64 && other % (alignment as int) == 0
                    implies !#[trigger] self.run_is_free(other, n.0 as int) by {
                    if other + n.0 > word_start && other >= word_start {
                        assert(n.0 <= 64);
                    }
                }
            }
            if leading.0 == 64 {
                proof {
                    assert forall|block: int| word_start - contiguous <= block < word_start + 64
                        implies !#[trigger] self.allocated().contains(block) by {
                        if block >= word_start {
                            assert(!self.allocated().contains(word_start + (block - word_start)));
                        }
                    }
                }
                contiguous = contiguous + 64;
            } else {
                let trailing = current.trailing_unset_bits();
                proof {
                    assert forall|block: int| word_start + 64 - trailing.0 <= block < word_start + 64
                        implies !#[trigger] self.allocated().contains(block) by {
                        self.lemma_block_in_word(pointer, block - word_start);
                    }
                    self.lemma_block_in_word(pointer, 63 - trailing.0);
                }
                contiguous = trailing.0;
            }
            bit_set_word_pointer.increment_assign();
        }
        None
    }

    /// Searches for and allocates a run of `number_of_bits_required` free blocks that starts at
    /// a multiple of `2^power_of_two_exponent` blocks: first from the search cursor's word to
    /// the end of the bit set, then from the start of the bit set up to that word.
    fn try_to_set_number_of_bits(&mut self, number_of_bits_required: NumberOfBits, power_of_two_exponent: usize) -> (result: Result<usize, AllocError>)
        requires
            old(self).wf(),
            1 <= number_of_bits_required.0,
            power_of_two_exponent < usize::BITS,
        ensures
            final(self).wf(),
            final(self).same_layout(old(self)),
            result matches Ok(address) ==> old(self).allocation_at(final(self), address as int, number_of_bits_required.0 as int)
                && old(self).search_finds(
                    number_of_bits_required.0 as int,
                    power_of_two(power_of_two_exponent as nat) as int,
                    old(self).block_of(address as int),
                ),
            result is Err ==> final(self).allocated() == old(self).allocated() && final(self).search_cursor() == 0
                && old(self).search_finds_nothing(number_of_bits_required.0 as int, power_of_two(power_of_two_exponent as nat) as int),
    {
        proof {
            lemma_power_of_two_fits(power_of_two_exponent as nat);
            lemma_shift_left_multiplies(1, power_of_two_exponent);
            lemma_power_of_two_positive(power_of_two_exponent as nat);
            self.lemma_wf();
        }
        let alignment: usize = 1usize << power_of_two_exponent;
        let ghost before = *self;
        let end_bit_set_word_pointer = BitSetWordPointer(self.bit_set.len());
        if let Some(address) = self.scan(number_of_bits_required, alignment, end_bit_set_word_pointer) {
            return Ok(address);
        }
        let end_bit_set_word_pointer = self.start_search_for_next_allocation_at;
        self.start_search_for_next_allocation_at = BitSetWordPointer(0);
        let ghost middle = *self;
        proof {
            assert(middle.allocated() == before.allocated());
        }
        proof {
            assert forall|first: int, count: int| #[trigger] middle.run_is_free(first, count) == before.run_is_free(first, count) by {}
        }
        if let Some(address) = self.scan(number_of_bits_required, alignment, end_bit_set_word_pointer) {
            proof {
                let first = before.block_of(address as int);
                let n = number_of_bits_required.0 as int;
                assert(middle.block_of(address as int) == first);
                assert(middle.is_run_address(address as int, n) == before.is_run_address(address as int, n));
                assert(middle.search_cursor() == 0);
                assert(middle.run_is_free(first, n));
                assert forall|other: int| 0 <= other && other + n <= first + n - 1 && other % (alignment as int) == 0
                    implies !#[trigger] before.run_is_free(other, n) by {
                    assert(!middle.run_is_free(other, n));
                }
                assert(before.first_free_run(0, before.search_cursor() * 64, n, alignment as int, first));
            }
            return Ok(address);
        }
        proof {
            let n = number_of_bits_required.0 as int;
            assert(middle.search_cursor() == 0);
            assert forall|other: int| 0 <= other && other + n <= before.search_cursor() * 64 && other % (alignment as int) == 0
                implies !#[trigger] before.run_is_free(other, n) by {
                assert(!middle.run_is_free(other, n));
            }
            assert(before.no_free_run(0, before.search_cursor() * 64, number_of_bits_required.0 as int, alignment as int));
        }
        Err(AllocError)
    }

    /// Allocates the blocks for `non_zero_size` bytes, starting at the first block in search
    /// order whose address is aligned to `non_zero_power_of_two_alignment` relative to the
    /// first block (blocks are aligned to their own size). Returns the address and the number
    /// of bytes the blocks hold.
    pub fn allocate(&mut self, non_zero_size: usize, non_zero_power_of_two_alignment: usize) -> (result: Result<(usize, usize), AllocError>)
        requires
            old(self).wf(),
            non_zero_size > 0,
            non_zero_size + old(self).block_size() - 1 <= usize::MAX,
            is_power_of_two(non_zero_power_of_two_alignment as int),
        ensures
            final(self).wf(),
            final(self).same_layout(old(self)),
            result matches Ok((_address, actual_size)) ==> actual_size >= non_zero_size,
            result matches Ok((address, actual_size)) ==> actual_size == old(self).blocks_for(non_zero_size as int) * old(self).block_size()
                && old(self).allocation_at(final(self), address as int, old(self).blocks_for(non_zero_size as int))
                && old(self).search_finds(
                    old(self).blocks_for(non_zero_size as int),
                    old(self).alignment_in_blocks(non_zero_power_of_two_alignment as int),
                    old(self).block_of(address as int),
                )
                && (address - old(self).start()) % (non_zero_power_of_two_alignment as int) == 0,
            result is Err ==> final(self).allocated() == old(self).allocated() && final(self).search_cursor() == 0
                && old(self).search_finds_nothing(
                    old(self).blocks_for(non_zero_size as int),
                    old(self).alignment_in_blocks(non_zero_power_of_two_alignment as int),
                ),
    {
        let ghost before = *self;
        let actual_size = self.actual_size(non_zero_size);
        let number_of_bits_required = self.number_of_bits_required(non_zero_size);
        proof {
            let size = non_zero_size as int;
            let block_size = self.block_size();
            self.lemma_wf();
            self.block_size.lemma_wf();
            assert((size + block_size - 1) / block_size >= 1) by (nonlinear_arith)
                requires size >= 1, block_size >= 1;
        }
        let ghost alignment_exponent_chosen = choose|e: nat| power_of_two(e) == non_zero_power_of_two_alignment as int;
        let ghost block_size_exponent_ghost = self.block_size.exponent();
        let power_of_two_exponent = if self.block_size.alignment_is_minimum(non_zero_power_of_two_alignment) {
            0
        } else {
            let alignment_exponent = logarithm_base2(non_zero_power_of_two_alignment);
            let block_size_exponent = self.block_size.power_of_two_exponent();
            proof {
                if alignment_exponent <= block_size_exponent {
                    lemma_power_of_two_monotonic(alignment_exponent as nat, block_size_exponent as nat);
                }
                lemma_exponent_below_bits(alignment_exponent as nat);
            }
            let power_of_two_exponent = alignment_exponent - block_size_exponent;
            if power_of_two_exponent > BIT_SET_WORD_SIZE_IN_BITS {
                return Err(AllocError);
            }
            proof {
                lemma_power_of_two_adds(block_size_exponent as nat, power_of_two_exponent as nat);
                lemma_power_of_two_positive(power_of_two_exponent as nat);
                vstd::arithmetic::div_mod::lemma_div_multiples_vanish(
                    power_of_two(power_of_two_exponent as nat) as int,
                    before.block_size(),
                );
                assert(before.block_size() * power_of_two(power_of_two_exponent as nat) == non_zero_power_of_two_alignment);
            }
            power_of_two_exponent
        };
        proof {
            assert(power_of_two(power_of_two_exponent as nat) == before.alignment_in_blocks(non_zero_power_of_two_alignment as int));
        }
        match self.try_to_set_number_of_bits(number_of_bits_required, power_of_two_exponent) {
            Ok(address) => {
                proof {
                    let first = before.block_of(address as int);
                    lemma_block_alignment(
                        first,
                        before.block_size(),
                        non_zero_power_of_two_alignment as int,
                        power_of_two(power_of_two_exponent as nat) as int,
                    );
                }
                Ok((address, actual_size))
            },
            Err(error) => Err(error),
        }
    }

    /// Grows the allocation of `non_zero_current_size` bytes at `current_memory` to
    /// `non_zero_new_size` bytes: unchanged when the blocks already hold them, otherwise the
    /// blocks are freed and the new size allocated afresh, searching from the freed blocks
    /// first; when that fails, the allocation keeps its blocks. The bytes themselves are not
    /// copied. Returns the address and the number of bytes the blocks hold.
    pub fn growing_reallocate(&mut self, non_zero_new_size: usize, non_zero_power_of_two_alignment: usize, non_zero_current_size: usize, current_memory: usize) -> (result: Result<(usize, usize), AllocError>)
        requires
            old(self).wf(),
            0 < non_zero_current_size <= non_zero_new_size,
            non_zero_new_size + old(self).block_size() - 1 <= usize::MAX,
            is_power_of_two(non_zero_power_of_two_alignment as int),
            current_memory >= old(self).start(),
            old(self).block_of(current_memory as int) + old(self).blocks_for(non_zero_current_size as int)
                <= old(self).number_of_blocks(),
        ensures
            final(self).wf(),
            final(self).same_layout(old(self)),
            result matches Ok((_address, actual_size)) ==> actual_size >= non_zero_new_size,
            old(self).blocks_for(non_zero_new_size as int) == old(self).blocks_for(non_zero_current_size as int)
                ==> result == Ok::<(usize, usize), AllocError>((current_memory, (old(self).blocks_for(non_zero_new_size as int) * old(self).block_size()) as usize)) && *final(self) == *old(self),
            old(self).blocks_for(non_zero_new_size as int) != old(self).blocks_for(non_zero_current_size as int) ==> {
                let freed = old(self).allocated().difference(
                    span(old(self).block_of(current_memory as int), old(self).blocks_for(non_zero_current_size as int)),
                );
                let from = old(self).block_of(current_memory as int) / 64 * 64;
                &&& result matches Ok((address, actual_size)) ==> actual_size == old(self).blocks_for(non_zero_new_size as int) * old(self).block_size()
                    && old(self).is_run_address(address as int, old(self).blocks_for(non_zero_new_size as int))
                    && allocates_run(freed, final(self).allocated(), old(self).block_of(address as int), old(self).blocks_for(non_zero_new_size as int))
                    && (address - old(self).start()) % (non_zero_power_of_two_alignment as int) == 0
                    && first_fit_from(
                        freed,
                        old(self).number_of_blocks(),
                        from,
                        old(self).blocks_for(non_zero_new_size as int),
                        old(self).alignment_in_blocks(non_zero_power_of_two_alignment as int),
                        old(self).block_of(address as int),
                    )
                &&& result is Err ==> final(self).allocated() == old(self).allocated()
                    && final(self).search_cursor() == old(self).search_cursor()
                    && no_fit_from(
                        freed,
                        old(self).number_of_blocks(),
                        from,
                        old(self).blocks_for(non_zero_new_size as int),
                        old(self).alignment_in_blocks(non_zero_power_of_two_alignment as int),
                    )
            },
    {
        let actual_size = self.actual_size(non_zero_new_size);
        proof {
            self.lemma_wf();
            lemma_blocks_for(non_zero_current_size as int, non_zero_new_size as int, self.block_size());
            lemma_blocks_for(non_zero_new_size as int, non_zero_new_size as int, self.block_size());
            vstd::arithmetic::mul::lemma_mul_inequality(
                self.blocks_for(non_zero_current_size as int),
                self.number_of_blocks(),
                self.block_size(),
            );
        }
        let current_number_of_bits_required = self.number_of_bits_required(non_zero_current_size);
        let new_number_of_bits_required = self.number_of_bits_required(non_zero_new_size);
        let current_memory_offset_in_bytes = current_number_of_bits_required.scale_to_memory_offset_in_bytes(&self.block_size);
        let new_memory_offset_in_bytes = new_number_of_bits_required.scale_to_memory_offset_in_bytes(&self.block_size);
        proof {
            let block_size = self.block_size();
            let current = current_number_of_bits_required.0 as int;
            let new = new_number_of_bits_required.0 as int;
            assert(current * block_size <= new * block_size) by (nonlinear_arith)
                requires current <= new, block_size >= 1;
            assert(current * block_size == new * block_size ==> current == new) by (nonlinear_arith)
                requires block_size >= 1;
        }
        let reallocate_size = new_memory_offset_in_bytes.sub(current_memory_offset_in_bytes);
        if reallocate_size.is_zero() {
            return Ok((current_memory, actual_size));
        }
        proof {
            let size = non_zero_current_size as int;
            let block_size = self.block_size();
            assert((size + block_size - 1) / block_size >= 1) by (nonlinear_arith)
                requires size >= 1, block_size >= 1;
        }
        let saved_bit_set = self.bit_set.clone();
        let saved_search_cursor = self.start_search_for_next_allocation_at;
        proof {
            assert(saved_bit_set@ =~= self.bit_set@) by {
                assert forall|i: int| 0 <= i < saved_bit_set@.len() implies saved_bit_set@[i] == self.bit_set@[i] by {
                    assert(cloned::<u64>(self.bit_set@[i], saved_bit_set@[i]));
                }
            }
        }
        self.deallocate(non_zero_current_size, non_zero_power_of_two_alignment, current_memory);
        let ghost freed = *self;
        let location = self.absolute_location_in_bit_set(current_memory);
        self.start_search_for_next_allocation_at = location.major;
        let ghost searched = *self;
        proof {
            assert(freed.allocated() == self.allocated());
            let block = old(self).block_of(current_memory as int);
            assert(block / 64 == location.major.0) by {
                assert(block == location.major.0 * 64 + location.minor.0);
            }
        }
        let allocation = self.allocate(non_zero_new_size, non_zero_power_of_two_alignment);
        match allocation {
            Ok(allocated) => {
                proof {
                    searched.lemma_search_finds_first_fit(
                        searched.blocks_for(non_zero_new_size as int),
                        searched.alignment_in_blocks(non_zero_power_of_two_alignment as int),
                        searched.block_of(allocated.0 as int),
                    );
                }
                Ok(allocated)
            },
            Err(error) => {
                proof {
                    searched.lemma_search_finds_nothing_no_fit(
                        searched.blocks_for(non_zero_new_size as int),
                        searched.alignment_in_blocks(non_zero_power_of_two_alignment as int),
                    );
                }
                // The allocation stays where it was, with its blocks still allocated.
                self.bit_set = saved_bit_set;
                self.start_search_for_next_allocation_at = saved_search_cursor;
                Err(error)
            },
        }
    }

    /// Shrinks the allocation of `non_zero_current_size` bytes at `current_memory` to
    /// `non_zero_new_size` bytes, freeing the blocks no longer needed; the allocation stays
    /// where it is. Returns the address and the number of bytes the remaining blocks hold.
    pub fn shrinking_reallocate(&mut self, non_zero_new_size: usize, non_zero_power_of_two_alignment: usize, non_zero_current_size: usize, current_memory: usize) -> (result: Result<(usize, usize), AllocError>)
        requires
            old(self).wf(),
            0 < non_zero_new_size <= non_zero_current_size,
            non_zero_current_size + old(self).block_size() - 1 <= usize::MAX,
            current_memory >= old(self).start(),
            old(self).block_of(current_memory as int) + old(self).blocks_for(non_zero_current_size as int)
                <= old(self).number_of_blocks(),
        ensures
            final(self).wf(),
            final(self).same_layout(old(self)),
            result matches Ok((_address, actual_size)) ==> actual_size >= non_zero_new_size,
            final(self).search_cursor() == old(self).search_cursor(),
            result == Ok::<(usize, usize), AllocError>((current_memory, (old(self).blocks_for(non_zero_new_size as int) * old(self).block_size()) as usize)),
            final(self).allocated() == old(self).allocated().difference(
                span(
                    old(self).block_of(current_memory as int) + old(self).blocks_for(non_zero_new_size as int),
                    old(self).blocks_for(non_zero_current_size as int) - old(self).blocks_for(non_zero_new_size as int),
                ),
            ),
    {
        let actual_size = self.actual_size(non_zero_new_size);
        proof {
            self.lemma_wf();
            lemma_blocks_for(non_zero_new_size as int, non_zero_current_size as int, self.block_size());
            vstd::arithmetic::mul::lemma_mul_inequality(
                self.blocks_for(non_zero_current_size as int),
                self.number_of_blocks(),
                self.block_size(),
            );
        }
        let current_number_of_bits_required = self.number_of_bits_required(non_zero_current_size);
        let new_number_of_bits_required = self.number_of_bits_required(non_zero_new_size);
        let current_memory_offset_in_bytes = current_number_of_bits_required.scale_to_memory_offset_in_bytes(&self.block_size);
        proof {
            vstd::arithmetic::mul::lemma_mul_inequality(
                new_number_of_bits_required.0 as int,
                current_number_of_bits_required.0 as int,
                self.block_size(),
            );
        }
        let new_memory_offset_in_bytes = new_number_of_bits_required.scale_to_memory_offset_in_bytes(&self.block_size);
        let deallocate_size = current_memory_offset_in_bytes.sub(new_memory_offset_in_bytes);
        let ghost first = self.block_of(current_memory as int);
        let ghost current = current_number_of_bits_required.0 as int;
        let ghost new = new_number_of_bits_required.0 as int;
        if deallocate_size.is_not_zero() {
            proof {
                let block_size = self.block_size();
                let start = self.start();
                let size = non_zero_new_size as int;
                assert((size + block_size - 1) / block_size >= 1) by (nonlinear_arith)
                    requires size >= 1, block_size >= 1;
                assert(current * block_size - new * block_size == (current - new) * block_size) by (nonlinear_arith);
                assert(new < current) by (nonlinear_arith)
                    requires new <= current, current * block_size - new * block_size != 0, block_size >= 1;
                assert((current - new) * block_size + block_size <= current * block_size) by (nonlinear_arith)
                    requires new >= 1, block_size >= 1;
                lemma_block_arithmetic(start, current_memory as int, block_size, new);
                lemma_block_arithmetic(start, current_memory as int, block_size, current - new);
                vstd::arithmetic::div_mod::lemma_fundamental_div_mod(current_memory - start, block_size);
                assert(current_memory - start < (first + 1) * block_size) by (nonlinear_arith)
                    requires current_memory - start == block_size * first + (current_memory - start) % block_size,
                        (current_memory - start) % block_size < block_size;
                vstd::arithmetic::mul::lemma_mul_inequality(first + new + 1, self.number_of_blocks(), block_size);
                assert((first + 1) * block_size + new * block_size == (first + new + 1) * block_size) by (nonlinear_arith);
            }
            let end_of_new_memory = current_memory + new_memory_offset_in_bytes.to_usize();
            self.deallocate(deallocate_size.to_non_zero(), non_zero_power_of_two_alignment, end_of_new_memory);
        } else {
            proof {
                let block_size = self.block_size();
                assert(current == new) by (nonlinear_arith)
                    requires current * block_size - new * block_size == 0, block_size >= 1;
                assert(self.allocated() =~= old(self).allocated().difference(span(first + new, current - new)));
            }
        }
        Ok((current_memory, actual_size))
    }

    /// Freeing the blocks of an allocation gives back the allocated blocks from before it.
    pub proof fn lemma_deallocate_undoes_allocate(before: Self, allocated: Self, freed: Self, address: int, size: int)
        requires
            before.allocation_at(&allocated, address, before.blocks_for(size)),
            allocated.same_layout(&before),
            freed.allocated() == allocated.allocated().difference(
                span(allocated.block_of(address), allocated.blocks_for(size)),
            ),
        ensures
            freed.allocated() == before.allocated(),
    {
        let run = span(before.block_of(address), before.blocks_for(size));
        assert forall|block: int| #[trigger] freed.allocated().contains(block) == before.allocated().contains(block) by {
            if run.contains(block) {
                assert(!before.allocated().contains(block));
            }
        }
        assert(freed.allocated() =~= before.allocated());
    }

    /// Two allocations in a row never share a block.
    pub proof fn lemma_allocations_are_disjoint(before: Self, first: Self, second: Self, first_address: int, first_count: int, second_address: int, second_count: int)
        requires
            before.allocation_at(&first, first_address, first_count),
            first.allocation_at(&second, second_address, second_count),
            first.same_layout(&before),
        ensures
            span(before.block_of(first_address), first_count).disjoint(
                span(first.block_of(second_address), second_count),
            ),
    {
        let earlier = span(before.block_of(first_address), first_count);
        let later = span(first.block_of(second_address), second_count);
        assert forall|block: int| earlier.contains(block) implies !later.contains(block) by {
            assert(first.allocated().contains(block));
        }
    }

    /// The number of bytes the blocks for `non_zero_size` bytes hold.
    fn actual_size(&self, non_zero_size: usize) -> (actual_size: usize)
        requires
            self.wf(),
            non_zero_size > 0,
            non_zero_size + self.block_size() - 1 <= usize::MAX,
        ensures
            actual_size == self.blocks_for(non_zero_size as int) * self.block_size(),
            actual_size >= non_zero_size,
    {
        proof {
            self.lemma_wf();
            let size = non_zero_size as int;
            let block_size = self.block_size();
            lemma_blocks_for(size, size, block_size);
            vstd::arithmetic::div_mod::lemma_fundamental_div_mod(size + block_size - 1, block_size);
            assert(((size + block_size - 1) / block_size) * block_size == block_size * ((size + block_size - 1) / block_size)) by (nonlinear_arith);
        }
        self.number_of_bits_required(non_zero_size).scale_to_memory_offset_in_bytes(&self.block_size).to_usize()
    }
}

impl BitSetAllocator {
    /// A growth that moves an allocation and succeeds puts it at an address that lies a multiple
    /// of the requested alignment from the first block, on a run of blocks that were free (the
    /// allocation's own old blocks counting as free), and allocates exactly that run: the first
    /// such aligned run in the order a search from the word of the old blocks takes, to the end
    /// and then from the start for one that ends by that word.
    pub proof fn lemma_growth_that_moves_takes_the_first_aligned_free_run(
        before: Self,
        after: Self,
        non_zero_new_size: usize,
        non_zero_power_of_two_alignment: usize,
        non_zero_current_size: usize,
        current_memory: usize,
        address: usize,
        actual_size: usize,
    )
        requires
            before.wf(),
            is_power_of_two(non_zero_power_of_two_alignment as int),
            before.blocks_for(non_zero_new_size as int) != before.blocks_for(non_zero_current_size as int),
            before.grow_outcome(&after, non_zero_new_size, non_zero_power_of_two_alignment, non_zero_current_size, current_memory, Ok((address, actual_size))),
        ensures
            ({
                let count = before.blocks_for(non_zero_new_size as int);
                let first = before.block_of(address as int);
                let from = before.block_of(current_memory as int) / 64 * 64;
                let number_of_blocks = before.number_of_blocks();
                let freed = before.allocated().difference(
                    span(before.block_of(current_memory as int), before.blocks_for(non_zero_current_size as int)),
                );
                &&& (address - before.start()) % (non_zero_power_of_two_alignment as int) == 0
                &&& address == before.start() + first * before.block_size()
                &&& run_free_in(freed, number_of_blocks, first, count)
                &&& after.allocated() == freed + span(first, count)
                &&& first < from ==> first + count <= from
                &&& forall|other: int| #![trigger run_free_in(freed, number_of_blocks, other, count)]
                    (other * before.block_size()) % (non_zero_power_of_two_alignment as int) == 0
                        && (from <= other < first || (first < from && (from <= other || other < first)))
                        ==> !run_free_in(freed, number_of_blocks, other, count)
            }),
    {
        let count = before.blocks_for(non_zero_new_size as int);
        let first = before.block_of(address as int);
        let from = before.block_of(current_memory as int) / 64 * 64;
        let number_of_blocks = before.number_of_blocks();
        let freed = before.allocated().difference(
            span(before.block_of(current_memory as int), before.blocks_for(non_zero_current_size as int)),
        );
        let alignment = non_zero_power_of_two_alignment as int;
        let in_blocks = before.alignment_in_blocks(alignment);
        before.lemma_wf();
        lemma_alignment_in_whole_blocks(before.block_size(), alignment);
        assert(first_fit_from(freed, number_of_blocks, from, count, in_blocks, first));
        assert forall|other: int| #![trigger run_free_in(freed, number_of_blocks, other, count)]
            (other * before.block_size()) % alignment == 0
                && (from <= other < first || (first < from && (from <= other || other < first)))
                implies !run_free_in(freed, number_of_blocks, other, count) by {
            lemma_block_alignment_in_blocks(other, before.block_size(), alignment, in_blocks);
        }
    }

    /// A growth that moves an allocation and fails leaves the allocated blocks as they were, the
    /// allocation's among them, and fails only when no run of free blocks (the allocation's own
    /// counting as free) lies a multiple of the requested alignment from the first block, but
    /// for runs that start before the word of the old blocks and end past its start.
    pub proof fn lemma_growth_fails_only_without_an_aligned_free_run(
        before: Self,
        after: Self,
        non_zero_new_size: usize,
        non_zero_power_of_two_alignment: usize,
        non_zero_current_size: usize,
        current_memory: usize,
    )
        requires
            before.wf(),
            is_power_of_two(non_zero_power_of_two_alignment as int),
            before.blocks_for(non_zero_new_size as int) != before.blocks_for(non_zero_current_size as int),
            before.grow_outcome(&after, non_zero_new_size, non_zero_power_of_two_alignment, non_zero_current_size, current_memory, Err(AllocError)),
        ensures
            after.allocated() == before.allocated(),
            ({
                let count = before.blocks_for(non_zero_new_size as int);
                let from = before.block_of(current_memory as int) / 64 * 64;
                let number_of_blocks = before.number_of_blocks();
                let freed = before.allocated().difference(
                    span(before.block_of(current_memory as int), before.blocks_for(non_zero_current_size as int)),
                );
                forall|other: int| #![trigger run_free_in(freed, number_of_blocks, other, count)]
                    (other * before.block_size()) % (non_zero_power_of_two_alignment as int) == 0
                        && run_free_in(freed, number_of_blocks, other, count)
                        ==> other < from < other + count
            }),
    {
        let count = before.blocks_for(non_zero_new_size as int);
        let from = before.block_of(current_memory as int) / 64 * 64;
        let number_of_blocks = before.number_of_blocks();
        let freed = before.allocated().difference(
            span(before.block_of(current_memory as int), before.blocks_for(non_zero_current_size as int)),
        );
        let alignment = non_zero_power_of_two_alignment as int;
        let in_blocks = before.alignment_in_blocks(alignment);
        before.lemma_wf();
        lemma_alignment_in_whole_blocks(before.block_size(), alignment);
        assert(no_fit_from(freed, number_of_blocks, from, count, in_blocks));
        assert forall|other: int| #![trigger run_free_in(freed, number_of_blocks, other, count)]
            (other * before.block_size()) % alignment == 0 && run_free_in(freed, number_of_blocks, other, count)
                implies other < from < other + count by {
            lemma_block_alignment_in_blocks(other, before.block_size(), alignment, in_blocks);
        }
    }
}

impl Allocator for BitSetAllocator {
    open spec fn valid(&self) -> bool {
        self.wf()
    }

    open spec fn accepts(&self, non_zero_size: usize, non_zero_power_of_two_alignment: usize) -> bool {
        non_zero_size + self.block_size() - 1 <= usize::MAX
    }

    open spec fn accepts_growth(&self, non_zero_new_size: usize, non_zero_power_of_two_alignment: usize, current_memory: usize) -> bool {
        non_zero_new_size + self.block_size() - 1 <= usize::MAX
    }

    open spec fn holds(&self, non_zero_size: usize, non_zero_power_of_two_alignment: usize, current_memory: usize) -> bool {
        &&& non_zero_size + self.block_size() - 1 <= usize::MAX
        &&& current_memory >= self.start()
        &&& self.block_of(current_memory as int) + self.blocks_for(non_zero_size as int) <= self.number_of_blocks()
    }

    fn takes(&self, non_zero_size: usize, non_zero_power_of_two_alignment: usize) -> (taken: bool) {
        proof {
            self.block_size.lemma_wf();
        }
        let block_size = self.block_size.get();
        non_zero_size <= usize::MAX - (block_size - 1)
    }

    fn takes_growth(&self, non_zero_new_size: usize, non_zero_power_of_two_alignment: usize, current_memory: usize) -> (taken: bool) {
        proof {
            self.block_size.lemma_wf();
        }
        let block_size = self.block_size.get();
        non_zero_new_size <= usize::MAX - (block_size - 1)
    }

    /// What allocating gives.
    open spec fn allocate_outcome(&self, after: &Self, non_zero_size: usize, non_zero_power_of_two_alignment: usize, result: Result<(usize, usize), AllocError>) -> bool {
        &&& after.same_layout(self)
        &&& result matches Ok((_address, actual_size)) ==> actual_size >= non_zero_size
        &&& result matches Ok((address, actual_size)) ==> actual_size == self.blocks_for(non_zero_size as int) * self.block_size()
            && self.allocation_at(after, address as int, self.blocks_for(non_zero_size as int))
            && self.search_finds(
                self.blocks_for(non_zero_size as int),
                self.alignment_in_blocks(non_zero_power_of_two_alignment as int),
                self.block_of(address as int),
            )
            && (address - self.start()) % (non_zero_power_of_two_alignment as int) == 0
        &&& result is Err ==> after.allocated() == self.allocated() && after.search_cursor() == 0
            && self.search_finds_nothing(
                self.blocks_for(non_zero_size as int),
                self.alignment_in_blocks(non_zero_power_of_two_alignment as int),
            )
    }

    /// What taking back an allocation gives.
    open spec fn deallocate_outcome(&self, after: &Self, non_zero_size: usize, non_zero_power_of_two_alignment: usize, current_memory: usize) -> bool {
        &&& after.start() == self.start()
        &&& after.block_size() == self.block_size()
        &&& after.number_of_blocks() == self.number_of_blocks()
        &&& after.search_cursor() == self.search_cursor()
        &&& after.allocated() == self.allocated().difference(
            span(self.block_of(current_memory as int), self.blocks_for(non_zero_size as int)),
        )
    }

    /// What growing an allocation gives.
    open spec fn grow_outcome(&self, after: &Self, non_zero_new_size: usize, non_zero_power_of_two_alignment: usize, non_zero_current_size: usize, current_memory: usize, result: Result<(usize, usize), AllocError>) -> bool {
        &&& after.same_layout(self)
        &&& result matches Ok((_address, actual_size)) ==> actual_size >= non_zero_new_size
        &&& self.blocks_for(non_zero_new_size as int) == self.blocks_for(non_zero_current_size as int)
            ==> result == Ok::<(usize, usize), AllocError>((current_memory, (self.blocks_for(non_zero_new_size as int) * self.block_size()) as usize)) && *after == *self
        &&& self.blocks_for(non_zero_new_size as int) != self.blocks_for(non_zero_current_size as int) ==> {
            let freed = self.allocated().difference(
                span(self.block_of(current_memory as int), self.blocks_for(non_zero_current_size as int)),
            );
            let from = self.block_of(current_memory as int) / 64 * 64;
            &&& result matches Ok((address, actual_size)) ==> actual_size == self.blocks_for(non_zero_new_size as int) * self.block_size()
                && self.is_run_address(address as int, self.blocks_for(non_zero_new_size as int))
                && allocates_run(freed, after.allocated(), self.block_of(address as int), self.blocks_for(non_zero_new_size as int))
                && (address - self.start()) % (non_zero_power_of_two_alignment as int) == 0
                && first_fit_from(
                    freed,
                    self.number_of_blocks(),
                    from,
                    self.blocks_for(non_zero_new_size as int),
                    self.alignment_in_blocks(non_zero_power_of_two_alignment as int),
                    self.block_of(address as int),
                )
            &&& result is Err ==> after.allocated() == self.allocated() && after.search_cursor() == self.search_cursor()
                && no_fit_from(
                    freed,
                    self.number_of_blocks(),
                    from,
                    self.blocks_for(non_zero_new_size as int),
                    self.alignment_in_blocks(non_zero_power_of_two_alignment as int),
                )
        }
    }

    /// What shrinking an allocation gives.
    open spec fn shrink_outcome(&self, after: &Self, non_zero_new_size: usize, non_zero_power_of_two_alignment: usize, non_zero_current_size: usize, current_memory: usize, result: Result<(usize, usize), AllocError>) -> bool {
        &&& after.same_layout(self)
        &&& result matches Ok((_address, actual_size)) ==> actual_size >= non_zero_new_size
        &&& after.search_cursor() == self.search_cursor()
        &&& result == Ok::<(usize, usize), AllocError>((current_memory, (self.blocks_for(non_zero_new_size as int) * self.block_size()) as usize))
        &&& after.allocated() == self.allocated().difference(
            span(
                self.block_of(current_memory as int) + self.blocks_for(non_zero_new_size as int),
                self.blocks_for(non_zero_current_size as int) - self.blocks_for(non_zero_new_size as int),
            ),
        )
    }

    fn allocate(&mut self, non_zero_size: usize, non_zero_power_of_two_alignment: usize) -> (result: Result<(usize, usize), AllocError>) {
        let result = BitSetAllocator::allocate(self, non_zero_size, non_zero_power_of_two_alignment);
        proof {
            assert(old(self).allocate_outcome(self, non_zero_size, non_zero_power_of_two_alignment, result));
        }
        result
    }

    fn deallocate(&mut self, non_zero_size: usize, non_zero_power_of_two_alignment: usize, current_memory: usize) {
        BitSetAllocator::deallocate(self, non_zero_size, non_zero_power_of_two_alignment, current_memory);
        proof {
            assert(old(self).deallocate_outcome(self, non_zero_size, non_zero_power_of_two_alignment, current_memory));
        }
    }

    fn growing_reallocate(&mut self, non_zero_new_size: usize, non_zero_power_of_two_alignment: usize, non_zero_current_size: usize, current_memory: usize) -> (result: Result<(usize, usize), AllocError>) {
        let result = BitSetAllocator::growing_reallocate(self, non_zero_new_size, non_zero_power_of_two_alignment, non_zero_current_size, current_memory);
        proof {
            assert(old(self).grow_outcome(self, non_zero_new_size, non_zero_power_of_two_alignment, non_zero_current_size, current_memory, result));
        }
        result
    }

    fn shrinking_reallocate(&mut self, non_zero_new_size: usize, non_zero_power_of_two_alignment: usize, non_zero_current_size: usize, current_memory: usize) -> (result: Result<(usize, usize), AllocError>) {
        let result = BitSetAllocator::shrinking_reallocate(self, non_zero_new_size, non_zero_power_of_two_alignment, non_zero_current_size, current_memory);
        proof {
            assert(old(self).shrink_outcome(self, non_zero_new_size, non_zero_power_of_two_alignment, non_zero_current_size, current_memory, result));
        }
        result
    }
}

} // verus!
