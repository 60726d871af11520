//! Counts of bits, bytes and bit set words, and block sizes.
use vstd::prelude::*;
use crate::memory_address::{
    is_power_of_two,
    lemma_exponent_below_bits,
    lemma_power_of_two_positive,
    lemma_shift_left_multiplies,
    lemma_shift_right_divides,
    logarithm_base2,
    power_of_two,
};

verus! {

/// The number of bits in a byte.
pub const BITS_IN_A_BYTE: usize = 8;

/// The number of bytes in a bit set word.
pub const BIT_SET_WORD_SIZE_IN_BYTES: usize = 8;

/// The number of bits in a bit set word.
pub const BIT_SET_WORD_SIZE_IN_BITS: usize = 64;

/// A number of bits (each bit stands for one block).
#[derive(Clone, Copy, Debug, PartialEq, Eq, Structural)]
pub struct NumberOfBits(pub usize);

/// A number of bytes.
#[derive(Clone, Copy, Debug, PartialEq, Eq, Structural)]
pub struct NumberOfBytes(pub usize);

/// A number of bit set words.
#[derive(Clone, Copy, Debug, PartialEq, Eq, Structural)]
pub struct NumberOfBitSetWords(pub usize);

impl NumberOfBits {
    /// No bits.
    pub fn zero() -> (zero: NumberOfBits)
        ensures
            zero.0 == 0,
    {
        NumberOfBits(0)
    }

    /// The bits in one bit set word.
    pub fn in_bit_set_word() -> (bits: NumberOfBits)
        ensures
            bits.0 == BIT_SET_WORD_SIZE_IN_BITS,
    {
        NumberOfBits(BIT_SET_WORD_SIZE_IN_BITS)
    }

    /// The sum of two numbers of bits.
    pub fn add(self, other: NumberOfBits) -> (sum: NumberOfBits)
        requires
            self.0 + other.0 <= usize::MAX,
        ensures
            sum.0 == self.0 + other.0,
    {
        NumberOfBits(self.0 + other.0)
    }

    /// This number of bits plus `other` bits.
    pub fn add_usize(self, other: usize) -> (sum: NumberOfBits)
        requires
            self.0 + other <= usize::MAX,
        ensures
            sum.0 == self.0 + other,
    {
        NumberOfBits(self.0 + other)
    }

    /// The difference of two numbers of bits, the first at least the second.
    pub fn sub(self, other: NumberOfBits) -> (difference: NumberOfBits)
        requires
            self.0 >= other.0,
        ensures
            difference.0 == self.0 - other.0,
    {
        NumberOfBits(self.0 - other.0)
    }

    /// Subtracts `other` bits, which are at most this many.
    pub fn sub_assign(&mut self, other: NumberOfBits)
        requires
            old(self).0 >= other.0,
        ensures
            final(self).0 == old(self).0 - other.0,
    {
        self.0 = self.0 - other.0;
    }

    /// This number of bits shifted right by `shift`.
    pub fn shr(self, shift: usize) -> (shifted: NumberOfBits)
        requires
            shift < usize::BITS,
        ensures
            shifted.0 == self.0 as nat / power_of_two(shift as nat),
    {
        proof {
            lemma_shift_right_divides(self.0, shift);
        }
        NumberOfBits(self.0 >> shift)
    }

    /// Is this no bits?
    pub fn is_zero(self) -> (zero: bool)
        ensures
            zero == (self.0 == 0),
    {
        self.0 == 0
    }

    /// Is this at least one bit?
    pub fn is_not_zero(self) -> (not_zero: bool)
        ensures
            not_zero == (self.0 != 0),
    {
        self.0 != 0
    }

    /// This number of bits as a `usize`.
    pub fn to_usize(self) -> (value: usize)
        ensures
            value == self.0,
    {
        self.0
    }

    /// This number of bits as a `u64`.
    pub fn to_u64(self) -> (value: u64)
        requires
            self.0 <= u64::MAX,
        ensures
            value == self.0,
    {
        self.0 as u64
    }

    /// The bits left over after filling whole bit set words.
    pub fn remainder_of_bits_that_do_not_fit_in_a_bit_set_word(self) -> (remainder: NumberOfBits)
        ensures
            remainder.0 == self.0 % BIT_SET_WORD_SIZE_IN_BITS,
    {
        NumberOfBits(self.0 % BIT_SET_WORD_SIZE_IN_BITS)
    }

    /// The number of bit set words needed to hold this many bits.
    pub fn round_up_to_number_of_bit_set_words(self) -> (words: NumberOfBitSetWords)
        requires
            self.0 <= usize::MAX - 63,
        ensures
            words.0 == (self.0 + BIT_SET_WORD_SIZE_IN_BITS - 1) / (BIT_SET_WORD_SIZE_IN_BITS as int),
    {
        NumberOfBitSetWords((self.0 + (BIT_SET_WORD_SIZE_IN_BITS - 1)) / BIT_SET_WORD_SIZE_IN_BITS)
    }

    /// The number of bytes these many blocks of `block_size` span.
    pub fn scale_to_memory_offset_in_bytes(self, block_size: &BlockSize) -> (bytes: NumberOfBytes)
        requires
            block_size.wf(),
            self.0 * block_size.size() <= usize::MAX,
        ensures
            bytes.0 == self.0 * block_size.size(),
    {
        block_size.scale_to_memory_offset_in_bytes(self.0)
    }

    /// This many bits as whole bit set words and the bits that remain.
    pub fn to_relative_location_in_bit_set(self) -> (location: RelativeLocationInBitSet)
        ensures
            location.major.0 == self.0 / BIT_SET_WORD_SIZE_IN_BITS,
            location.minor.0 == self.0 % BIT_SET_WORD_SIZE_IN_BITS,
    {
        let major = self.number_of_bit_set_words_rounded_down();
        let minor = self.sub(major.to_number_of_bits());
        RelativeLocationInBitSet { major, minor }
    }

    /// The location of the bit this many bits after the start of the bit set.
    pub fn to_absolute_location_in_bit_set(self, inclusive_start_of_bitset: BitSetWordPointer) -> (location: AbsoluteLocationInBitSet)
        requires
            inclusive_start_of_bitset.0 + self.0 / BIT_SET_WORD_SIZE_IN_BITS <= usize::MAX,
        ensures
            location.major.0 == inclusive_start_of_bitset.0 + self.0 / BIT_SET_WORD_SIZE_IN_BITS,
            location.minor.0 == self.0 % BIT_SET_WORD_SIZE_IN_BITS,
    {
        self.to_relative_location_in_bit_set().to_absolute_location_in_bit_set(inclusive_start_of_bitset)
    }

    /// Is this exactly one bit set word of bits?
    pub fn is_one_bit_set_word(self) -> (one: bool)
        ensures
            one == (self.0 == BIT_SET_WORD_SIZE_IN_BITS),
    {
        self.0 == BIT_SET_WORD_SIZE_IN_BITS
    }

    /// Is this fewer bits than a bit set word holds?
    pub fn less_than_a_bit_set_word_required(self) -> (less: bool)
        ensures
            less == (self.0 < BIT_SET_WORD_SIZE_IN_BITS),
    {
        self.0 < BIT_SET_WORD_SIZE_IN_BITS
    }

    /// The number of whole bit set words these bits fill.
    pub fn number_of_bit_set_words_rounded_down(self) -> (words: NumberOfBitSetWords)
        ensures
            words.0 == self.0 / BIT_SET_WORD_SIZE_IN_BITS,
    {
        NumberOfBitSetWords(self.0 / BIT_SET_WORD_SIZE_IN_BITS)
    }
}

impl NumberOfBitSetWords {
    /// One bit set word.
    pub fn one() -> (one: NumberOfBitSetWords)
        ensures
            one.0 == 1,
    {
        NumberOfBitSetWords(1)
    }

    /// The bytes these bit set words occupy.
    pub fn to_number_of_bytes(self) -> (bytes: NumberOfBytes)
        requires
            self.0 * BIT_SET_WORD_SIZE_IN_BYTES <= usize::MAX,
        ensures
            bytes.0 == self.0 * BIT_SET_WORD_SIZE_IN_BYTES,
    {
        NumberOfBytes(self.0 * BIT_SET_WORD_SIZE_IN_BYTES)
    }

    /// The bits these bit set words hold.
    pub fn to_number_of_bits(self) -> (bits: NumberOfBits)
        requires
            self.0 * BIT_SET_WORD_SIZE_IN_BITS <= usize::MAX,
        ensures
            bits.0 == self.0 * BIT_SET_WORD_SIZE_IN_BITS,
    {
        NumberOfBits(self.0 * BIT_SET_WORD_SIZE_IN_BITS)
    }

    /// The difference of two numbers of bit set words, the first at least the second.
    pub fn sub(self, other: NumberOfBitSetWords) -> (difference: NumberOfBitSetWords)
        requires
            self.0 >= other.0,
        ensures
            difference.0 == self.0 - other.0,
    {
        NumberOfBitSetWords(self.0 - other.0)
    }
}

impl NumberOfBytes {
    /// The difference of two numbers of bytes, the first at least the second.
    pub fn sub(self, other: NumberOfBytes) -> (difference: NumberOfBytes)
        requires
            self.0 >= other.0,
        ensures
            difference.0 == self.0 - other.0,
    {
        NumberOfBytes(self.0 - other.0)
    }

    /// Is this no bytes?
    pub fn is_zero(self) -> (zero: bool)
        ensures
            zero == (self.0 == 0),
    {
        self.0 == 0
    }

    /// Is this at least one byte?
    pub fn is_not_zero(self) -> (not_zero: bool)
        ensures
            not_zero == (self.0 != 0),
    {
        self.0 != 0
    }

    /// This number of bytes as a `usize`.
    pub fn to_usize(self) -> (value: usize)
        ensures
            value == self.0,
    {
        self.0
    }

    /// This number of bytes, which is not zero.
    pub fn to_non_zero(self) -> (value: usize)
        requires
            self.0 != 0,
        ensures
            value == self.0,
            value > 0,
    {
        self.0
    }

    /// The bits in these bytes.
    pub fn to_number_of_bits(self) -> (bits: NumberOfBits)
        requires
            self.0 * BITS_IN_A_BYTE <= usize::MAX,
        ensures
            bits.0 == self.0 * BITS_IN_A_BYTE,
    {
        NumberOfBits(self.0 * BITS_IN_A_BYTE)
    }
}

/// A pointer to a bit set word: its index from the start of the bit set's memory.
#[derive(Clone, Copy, Debug, PartialEq, Eq, Structural)]
pub struct BitSetWordPointer(pub usize);

/// A location in the bit set relative to its start: whole words and the bits after them.
#[derive(Clone, Copy, Debug)]
pub struct RelativeLocationInBitSet {
    pub major: NumberOfBitSetWords,
    pub minor: NumberOfBits,
}

impl RelativeLocationInBitSet {
    /// The same location, counted from `inclusive_start_of_bitset`.
    pub fn to_absolute_location_in_bit_set(self, inclusive_start_of_bitset: BitSetWordPointer) -> (location: AbsoluteLocationInBitSet)
        requires
            inclusive_start_of_bitset.0 + self.major.0 <= usize::MAX,
        ensures
            location.major.0 == inclusive_start_of_bitset.0 + self.major.0,
            location.minor == self.minor,
    {
        AbsoluteLocationInBitSet {
            major: inclusive_start_of_bitset.increment_in_bit_set_words(self.major),
            minor: self.minor,
        }
    }
}

/// A location in the bit set: the word, and the bit within it counted from the word's top.
#[derive(Clone, Copy, Debug)]
pub struct AbsoluteLocationInBitSet {
    pub major: BitSetWordPointer,
    pub minor: NumberOfBits,
}

/// The size of the blocks a bit set allocator hands out, a power of two.
#[derive(Clone, Copy, Debug)]
pub struct BlockSize {
    block_size: usize,
    block_size_less_one: usize,
    block_size_power_of_two_exponent: usize,
}

impl BlockSize {
    /// The block size in bytes.
    pub closed spec fn size(&self) -> int {
        self.block_size as int
    }

    /// The base-2 logarithm of the block size.
    pub closed spec fn exponent(&self) -> nat {
        self.block_size_power_of_two_exponent as nat
    }

    /// The fields agree with each other.
    pub closed spec fn wf(&self) -> bool {
        &&& self.block_size == power_of_two(self.block_size_power_of_two_exponent as nat)
        &&& self.block_size_less_one == self.block_size - 1
        &&& self.block_size_power_of_two_exponent < usize::BITS
    }

    /// Facts about a well formed block size.
    pub proof fn lemma_wf(&self)
        requires
            self.wf(),
        ensures
            self.size() == power_of_two(self.exponent()),
            self.size() >= 1,
            self.exponent() < usize::BITS,
    {
        lemma_power_of_two_positive(self.exponent());
    }

    /// A block size of `block_size` bytes, a power of two.
    pub fn new(block_size: usize) -> (size: BlockSize)
        requires
            is_power_of_two(block_size as int),
        ensures
            size.wf(),
            size.size() == block_size,
    {
        let exponent = logarithm_base2(block_size);
        proof {
            lemma_exponent_below_bits(exponent as nat);
            lemma_power_of_two_positive(exponent as nat);
        }
        BlockSize {
            block_size,
            block_size_less_one: block_size - 1,
            block_size_power_of_two_exponent: exponent,
        }
    }

    /// The block size in bytes.
    pub fn get(&self) -> (block_size: usize)
        ensures
            block_size == self.size(),
    {
        self.block_size
    }

    /// The base-2 logarithm of the block size.
    pub fn power_of_two_exponent(&self) -> (exponent: usize)
        ensures
            exponent == self.exponent(),
    {
        self.block_size_power_of_two_exponent
    }

    /// Is `non_zero_power_of_two_alignment` met by any block's start?
    pub fn alignment_is_minimum(&self, non_zero_power_of_two_alignment: usize) -> (minimum: bool)
        ensures
            minimum == (non_zero_power_of_two_alignment <= self.size()),
    {
        non_zero_power_of_two_alignment <= self.block_size
    }

    /// The number of blocks that hold `non_zero_size` bytes.
    pub fn number_of_blocks_required(&self, non_zero_size: usize) -> (blocks: NumberOfBits)
        requires
            self.wf(),
            non_zero_size + self.size() - 1 <= usize::MAX,
        ensures
            blocks.0 == (non_zero_size + self.size() - 1) / self.size(),
    {
        proof {
            self.lemma_wf();
            lemma_shift_right_divides(
                (non_zero_size + self.block_size_less_one) as usize,
                self.block_size_power_of_two_exponent,
            );
        }
        NumberOfBits((non_zero_size + self.block_size_less_one) >> self.block_size_power_of_two_exponent)
    }

    /// The number of whole blocks from `allocations_start_from` to `start_of_allocated_memory`.
    pub fn blocks_offset(&self, allocations_start_from: usize, start_of_allocated_memory: usize) -> (blocks: NumberOfBits)
        requires
            self.wf(),
            start_of_allocated_memory >= allocations_start_from,
        ensures
            blocks.0 == (start_of_allocated_memory - allocations_start_from) / self.size(),
    {
        proof {
            self.lemma_wf();
            lemma_shift_right_divides(
                (start_of_allocated_memory - allocations_start_from) as usize,
                self.block_size_power_of_two_exponent,
            );
        }
        NumberOfBits((start_of_allocated_memory - allocations_start_from) >> self.block_size_power_of_two_exponent)
    }

    /// The number of bytes `number_of_bits` blocks span.
    pub fn scale_to_memory_offset_in_bytes(&self, number_of_bits: usize) -> (bytes: NumberOfBytes)
        requires
            self.wf(),
            number_of_bits * self.size() <= usize::MAX,
        ensures
            bytes.0 == number_of_bits * self.size(),
    {
        proof {
            self.lemma_wf();
            lemma_shift_left_multiplies(number_of_bits, self.block_size_power_of_two_exponent);
        }
        NumberOfBytes(number_of_bits << self.block_size_power_of_two_exponent)
    }
}

impl BitSetWordPointer {
    /// The pointer `number_of_bit_set_words` words further on.
    pub fn increment_in_bit_set_words(self, number_of_bit_set_words: NumberOfBitSetWords) -> (pointer: BitSetWordPointer)
        requires
            self.0 + number_of_bit_set_words.0 <= usize::MAX,
        ensures
            pointer.0 == self.0 + number_of_bit_set_words.0,
    {
        BitSetWordPointer(self.0 + number_of_bit_set_words.0)
    }

    /// The pointer `number_of_bit_set_words` words back.
    pub fn decrement_in_bit_set_words(self, number_of_bit_set_words: NumberOfBitSetWords) -> (pointer: BitSetWordPointer)
        requires
            self.0 >= number_of_bit_set_words.0,
        ensures
            pointer.0 == self.0 - number_of_bit_set_words.0,
    {
        BitSetWordPointer(self.0 - number_of_bit_set_words.0)
    }

    /// The pointer to the next word.
    pub fn increment(self) -> (pointer: BitSetWordPointer)
        requires
            self.0 < usize::MAX,
        ensures
            pointer.0 == self.0 + 1,
    {
        self.increment_in_bit_set_words(NumberOfBitSetWords::one())
    }

    /// Moves this pointer to the next word.
    pub fn increment_assign(&mut self)
        requires
            old(self).0 < usize::MAX,
        ensures
            final(self).0 == old(self).0 + 1,
    {
        *self = self.increment();
    }

    /// The pointer `number_of_bytes` bytes (whole words) further on.
    pub fn increment_in_bytes(self, number_of_bytes: NumberOfBytes) -> (pointer: BitSetWordPointer)
        requires
            number_of_bytes.0 % BIT_SET_WORD_SIZE_IN_BYTES == 0,
            self.0 + number_of_bytes.0 / BIT_SET_WORD_SIZE_IN_BYTES <= usize::MAX,
        ensures
            pointer.0 == self.0 + number_of_bytes.0 / BIT_SET_WORD_SIZE_IN_BYTES,
    {
        BitSetWordPointer(self.0 + number_of_bytes.0 / BIT_SET_WORD_SIZE_IN_BYTES)
    }

    /// The pointer `number_of_bytes` bytes (whole words) back.
    pub fn decrement_in_bytes(self, number_of_bytes: NumberOfBytes) -> (pointer: BitSetWordPointer)
        requires
            number_of_bytes.0 % BIT_SET_WORD_SIZE_IN_BYTES == 0,
            self.0 >= number_of_bytes.0 / BIT_SET_WORD_SIZE_IN_BYTES,
        ensures
            pointer.0 == self.0 - number_of_bytes.0 / BIT_SET_WORD_SIZE_IN_BYTES,
    {
        BitSetWordPointer(self.0 - number_of_bytes.0 / BIT_SET_WORD_SIZE_IN_BYTES)
    }

    /// The number of bytes from `lower` up to this pointer.
    pub fn difference_in_number_of_bytes(self, lower: BitSetWordPointer) -> (bytes: NumberOfBytes)
        requires
            self.0 >= lower.0,
            (self.0 - lower.0) * BIT_SET_WORD_SIZE_IN_BYTES <= usize::MAX,
        ensures
            bytes.0 == (self.0 - lower.0) * BIT_SET_WORD_SIZE_IN_BYTES,
    {
        NumberOfBytes((self.0 - lower.0) * BIT_SET_WORD_SIZE_IN_BYTES)
    }

    /// The number of bits from `lower` up to this pointer.
    pub fn difference_in_number_of_bits(self, lower: BitSetWordPointer) -> (bits: NumberOfBits)
        requires
            self.0 >= lower.0,
            (self.0 - lower.0) * BIT_SET_WORD_SIZE_IN_BITS <= usize::MAX,
        ensures
            bits.0 == (self.0 - lower.0) * BIT_SET_WORD_SIZE_IN_BITS,
    {
        self.difference_in_number_of_bytes(lower).to_number_of_bits()
    }
}

} // verus!
