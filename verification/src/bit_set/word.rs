//! Bit set words: 64 blocks each, the first block in the word's most significant bit.
use vstd::prelude::*;
use vstd::std_specs::bits::{
    axiom_u64_leading_zeros,
    axiom_u64_trailing_zeros,
    u64_leading_zeros,
    u64_trailing_zeros,
};
use crate::bit_set::numbers::{BitSetWordPointer, NumberOfBits, BIT_SET_WORD_SIZE_IN_BITS};

verus! {

/// Is bit `bit` of `word` set, counting from the least significant bit?
pub open spec fn bit_is_set(word: u64, bit: int) -> bool {
    (word >> (bit as u64)) & 1u64 == 1u64
}

/// Does `mask` have exactly the bits from `low` up to, but not including, `high` set?
pub open spec fn mask_covers(mask: u64, low: int, high: int) -> bool {
    forall|bit: int| 0 <= bit < 64 ==> (#[trigger] bit_is_set(mask, bit) <==> low <= bit < high)
}

/// The bits of a bitwise or are those of either operand.
pub proof fn lemma_or_bits(word: u64, mask: u64)
    ensures
        forall|bit: int|
            0 <= bit < 64 ==> (#[trigger] bit_is_set(word | mask, bit) <==> (bit_is_set(word, bit)
                || bit_is_set(mask, bit))),
{
    assert forall|bit: int| 0 <= bit < 64 implies (#[trigger] bit_is_set(word | mask, bit) <==> (
    bit_is_set(word, bit) || bit_is_set(mask, bit))) by {
        let b = bit as u64;
        assert(((word | mask) >> b) & 1u64 == 1u64 <==> ((word >> b) & 1u64 == 1u64 || (mask >> b)
            & 1u64 == 1u64)) by (bit_vector);
    }
}

/// The bits of a word with a mask's bits cleared are those of the word outside the mask.
pub proof fn lemma_and_not_bits(word: u64, mask: u64)
    ensures
        forall|bit: int|
            0 <= bit < 64 ==> (#[trigger] bit_is_set(word & !mask, bit) <==> (bit_is_set(word, bit)
                && !bit_is_set(mask, bit))),
{
    assert forall|bit: int| 0 <= bit < 64 implies (#[trigger] bit_is_set(word & !mask, bit) <==> (
    bit_is_set(word, bit) && !bit_is_set(mask, bit))) by {
        let b = bit as u64;
        assert(((word & !mask) >> b) & 1u64 == 1u64 <==> ((word >> b) & 1u64 == 1u64 && !((mask
            >> b) & 1u64 == 1u64))) by (bit_vector);
    }
}

/// A word whose bitwise and with a mask is zero shares no set bit with it.
pub proof fn lemma_and_zero_bits(word: u64, mask: u64)
    requires
        word & mask == 0,
    ensures
        forall|bit: int|
            0 <= bit < 64 ==> !(#[trigger] bit_is_set(word, bit) && bit_is_set(mask, bit)),
{
    assert forall|bit: int| 0 <= bit < 64 implies !(#[trigger] bit_is_set(word, bit)
        && bit_is_set(mask, bit)) by {
        let b = bit as u64;
        assert(word & mask == 0 ==> !((word >> b) & 1u64 == 1u64 && (mask >> b) & 1u64 == 1u64))
            by (bit_vector);
    }
}

/// A word whose bitwise and with a mask is not zero shares a set bit with it.
pub proof fn lemma_and_nonzero_bits(word: u64, mask: u64)
    requires
        word & mask != 0,
    ensures
        exists|bit: int| 0 <= bit < 64 && #[trigger] bit_is_set(word, bit) && bit_is_set(mask, bit),
{
    let both = word & mask;
    axiom_u64_trailing_zeros(both);
    let bit = u64_trailing_zeros(both) as u64;
    assert(bit < 64 && (both >> bit) & 1u64 == 1u64 && both == word & mask
        ==> (word >> bit) & 1u64 == 1u64 && (mask >> bit) & 1u64 == 1u64) by (bit_vector);
    assert(bit_is_set(word, bit as int) && bit_is_set(mask, bit as int));
}

/// The word with no bit set, and the word with every bit set.
pub proof fn lemma_full_and_empty_words()
    ensures
        forall|bit: int| 0 <= bit < 64 ==> !#[trigger] bit_is_set(0u64, bit),
        mask_covers(0xFFFF_FFFF_FFFF_FFFFu64, 0, 64),
{
    assert forall|bit: int| 0 <= bit < 64 implies !#[trigger] bit_is_set(0u64, bit) by {
        let b = bit as u64;
        assert((0u64 >> b) & 1u64 == 0u64) by (bit_vector);
    }
    assert forall|bit: int| 0 <= bit < 64 implies (#[trigger] bit_is_set(
        0xFFFF_FFFF_FFFF_FFFFu64,
        bit,
    ) <==> 0 <= bit < 64) by {
        let b = bit as u64;
        assert(b < 64 ==> (0xFFFF_FFFF_FFFF_FFFFu64 >> b) & 1u64 == 1u64) by (bit_vector);
    }
}

/// `u64::MAX >> (64 - count)` has the lowest `count` bits set.
pub proof fn lemma_low_mask(count: u64)
    requires
        1 <= count <= 64,
    ensures
        mask_covers(0xFFFF_FFFF_FFFF_FFFFu64 >> ((64 - count) as u64), 0, count as int),
{
    let shift = (64 - count) as u64;
    assert forall|bit: int| 0 <= bit < 64 implies (#[trigger] bit_is_set(
        0xFFFF_FFFF_FFFF_FFFFu64 >> shift,
        bit,
    ) <==> 0 <= bit < count) by {
        let b = bit as u64;
        assert(b < 64 && shift < 64 && shift + count == 64 ==> (((0xFFFF_FFFF_FFFF_FFFFu64 >> shift)
            >> b) & 1u64 == 1u64 <==> b < count)) by (bit_vector);
    }
}

/// `u64::MAX << (64 - count)` has the highest `count` bits set.
pub proof fn lemma_high_mask(count: u64)
    requires
        1 <= count <= 64,
    ensures
        mask_covers(0xFFFF_FFFF_FFFF_FFFFu64 << ((64 - count) as u64), 64 - count, 64),
{
    let shift = (64 - count) as u64;
    assert forall|bit: int| 0 <= bit < 64 implies (#[trigger] bit_is_set(
        0xFFFF_FFFF_FFFF_FFFFu64 << shift,
        bit,
    ) <==> shift <= bit < 64) by {
        let b = bit as u64;
        assert(b < 64 && shift < 64 ==> (((0xFFFF_FFFF_FFFF_FFFFu64 << shift) >> b) & 1u64 == 1u64
            <==> shift <= b)) by (bit_vector);
    }
}

/// `((1 << count) - 1) << shift` has the `count` bits from bit `shift` upwards set.
pub proof fn lemma_shifted_mask(count: u64, shift: u64)
    requires
        1 <= count < 64,
        count + shift <= 64,
    ensures
        1u64 << count >= 1,
        mask_covers((((1u64 << count) - 1) as u64) << shift, shift as int, shift + count),
{
    assert(count < 64 ==> 1u64 << count >= 1) by (bit_vector);
    let unshifted = ((1u64 << count) - 1) as u64;
    assert forall|bit: int| 0 <= bit < 64 implies (#[trigger] bit_is_set(unshifted << shift, bit)
        <==> shift <= bit < shift + count) by {
        let b = bit as u64;
        assert(b < 64 && 1 <= count < 64 && count + shift <= 64 && unshifted + 1 == (1u64 << count)
            ==> (((unshifted << shift) >> b) & 1u64 == 1u64 <==> shift <= b && b < shift + count))
            by (bit_vector);
    }
}

/// The number of bits below bit `bit` of `word` that are not set.
pub open spec fn unset_bits_below(word: u64, bit: int) -> nat
    decreases bit,
{
    if bit <= 0 {
        0
    } else {
        unset_bits_below(word, bit - 1) + if bit_is_set(word, bit - 1) {
            0nat
        } else {
            1nat
        }
    }
}

/// A run of unset bits counts towards the unset bits below its end.
pub proof fn lemma_unset_bits_below_run(word: u64, from: int, bit: int)
    requires
        0 <= from <= bit <= 64,
        forall|other: int| from <= other < bit ==> !#[trigger] bit_is_set(word, other),
    ensures
        unset_bits_below(word, bit) >= bit - from,
    decreases bit - from,
{
    if bit > from {
        lemma_unset_bits_below_run(word, from, bit - 1);
    }
}

/// The unset bits below a bit never outnumber those below a higher bit.
pub proof fn lemma_unset_bits_below_monotonic(word: u64, lower: int, higher: int)
    requires
        0 <= lower <= higher,
    ensures
        unset_bits_below(word, lower) <= unset_bits_below(word, higher),
    decreases higher - lower,
{
    if higher > lower {
        lemma_unset_bits_below_monotonic(word, lower, higher - 1);
    }
}

/// Two separate runs of unset bits, `[low, low_end)` below `[high, high_end)`, both count
/// towards the unset bits below the end of the higher one.
pub proof fn lemma_unset_bits_below_two_runs(word: u64, low: int, low_end: int, high: int, high_end: int)
    requires
        0 <= low <= low_end <= high <= high_end <= 64,
        forall|other: int| low <= other < low_end ==> !#[trigger] bit_is_set(word, other),
        forall|other: int| high <= other < high_end ==> !#[trigger] bit_is_set(word, other),
    ensures
        unset_bits_below(word, high_end) >= (low_end - low) + (high_end - high),
    decreases high_end - high,
{
    if high_end > high {
        lemma_unset_bits_below_two_runs(word, low, low_end, high, high_end - 1);
    } else {
        lemma_unset_bits_below_run(word, low, low_end);
        lemma_unset_bits_below_monotonic(word, low_end, high_end);
    }
}

/// Is block `block` of the bit set `words` allocated? Block `block` is bit `63 - block % 64`
/// of word `block / 64`, so that blocks run from the most significant bit of each word.
pub open spec fn block_is_allocated(words: Seq<u64>, block: int) -> bool {
    bit_is_set(words[block / 64], 63 - block % 64)
}

/// `after` is `before` with blocks `first` up to, but not including, `last` allocated too.
pub open spec fn with_blocks_allocated(before: Seq<u64>, after: Seq<u64>, first: int, last: int) -> bool {
    &&& after.len() == before.len()
    &&& forall|block: int|
        0 <= block < before.len() * 64 ==> (#[trigger] block_is_allocated(after, block) <==> (
        block_is_allocated(before, block) || first <= block < last))
}

/// `after` is `before` with blocks `first` up to, but not including, `last` unallocated.
pub open spec fn with_blocks_unallocated(before: Seq<u64>, after: Seq<u64>, first: int, last: int) -> bool {
    &&& after.len() == before.len()
    &&& forall|block: int|
        0 <= block < before.len() * 64 ==> (#[trigger] block_is_allocated(after, block) <==> (
        block_is_allocated(before, block) && !(first <= block < last)))
}

/// The allocated blocks of the bit set `words`.
pub open spec fn allocated_blocks(words: Seq<u64>) -> Set<int> {
    Set::new(|block: int| 0 <= block < words.len() * 64 && block_is_allocated(words, block))
}

/// A word of a bit set; bit `63 - n` stands for the word's `n`th block.
#[derive(Clone, Copy, Debug, PartialEq, Eq, Structural)]
pub struct BitSetWord(pub u64);

impl BitSetWord {
    /// The number of unset bits before the first set one, counting from the top.
    pub fn leading_unset_bits(self) -> (bits: NumberOfBits)
        ensures
            bits.0 as int == u64_leading_zeros(self.0),
            bits.0 <= 64,
            forall|bit: int| 64 - bits.0 <= bit < 64 ==> !#[trigger] bit_is_set(self.0, bit),
            bits.0 < 64 ==> bit_is_set(self.0, 63 - bits.0),
            (bits.0 == 64) == (self.0 == 0),
    {
        proof {
            axiom_u64_leading_zeros(self.0);
        }
        let leading = self.0.leading_zeros();
        proof {
            let count = leading as u64;
            assert forall|bit: int| 64 - leading <= bit < 64 implies !#[trigger] bit_is_set(
                self.0,
                bit,
            ) by {
                let b = bit as u64;
                assert((self.0 >> b) & 1u64 == 0u64);
            }
            if leading < 64 {
                let value = self.0;
                let shift = (63 - count) as u64;
                assert((value >> shift) & 1u64 != 0u64 ==> (value >> shift) & 1u64 == 1u64)
                    by (bit_vector);
            }
        }
        NumberOfBits(leading as usize)
    }

    /// The number of unset bits before the first set one, counting from the bottom.
    pub fn trailing_unset_bits(self) -> (bits: NumberOfBits)
        ensures
            bits.0 == u64_trailing_zeros(self.0),
            bits.0 <= 64,
            forall|bit: int| 0 <= bit < bits.0 ==> !#[trigger] bit_is_set(self.0, bit),
            (bits.0 == 64) == (self.0 == 0),
            bits.0 < 64 ==> bit_is_set(self.0, bits.0 as int),
    {
        proof {
            axiom_u64_trailing_zeros(self.0);
        }
        let trailing = self.0.trailing_zeros();
        proof {
            assert forall|bit: int| 0 <= bit < trailing implies !#[trigger] bit_is_set(
                self.0,
                bit,
            ) by {
                let b = bit as u64;
                assert((self.0 >> b) & 1u64 == 0u64);
            }
        }
        NumberOfBits(trailing as usize)
    }

    /// The number of unset bits, wherever they are.
    pub fn all_unset_but_not_necessarily_contiguous_bits(self) -> (bits: NumberOfBits)
        ensures
            bits.0 == unset_bits_below(self.0, 64),
            bits.0 <= 64,
    {
        let mut count: usize = 0;
        let mut bit: u64 = 0;
        while bit < 64
            invariant
                bit <= 64,
                count == unset_bits_below(self.0, bit as int),
                count <= bit,
            decreases 64 - bit,
        {
            proof {
                let value = self.0;
                assert((value >> bit) & 1u64 == 0u64 || (value >> bit) & 1u64 == 1u64)
                    by (bit_vector);
                assert(unset_bits_below(value, bit + 1) == unset_bits_below(value, bit as int) + if bit_is_set(value, bit as int) {
                    0nat
                } else {
                    1nat
                });
            }
            if (self.0 >> bit) & 1 == 0 {
                count = count + 1;
            }
            bit = bit + 1;
        }
        NumberOfBits(count)
    }

    /// The word's value.
    pub fn to_u64(self) -> (value: u64)
        ensures
            value == self.0,
    {
        self.0
    }
}

/// Sets the bits of word `index` that `mask` covers, bits `low` up to `high` from the bottom:
/// blocks `64 - high` up to `64 - low` of that word.
fn set_masked_bits(bit_set: &mut Vec<u64>, index: usize, mask: u64, Ghost(low): Ghost<int>, Ghost(high): Ghost<int>)
    requires
        index < old(bit_set).len(),
        0 <= low <= high <= 64,
        mask_covers(mask, low, high),
    ensures
        final(bit_set).len() == old(bit_set).len(),
        forall|block: int|
            0 <= block < old(bit_set).len() * 64 ==> (#[trigger] block_is_allocated(final(bit_set)@, block)
                <==> (block_is_allocated(old(bit_set)@, block) || index * 64 + 64 - high <= block
                < index * 64 + 64 - low)),
{
    let word = bit_set[index];
    proof {
        lemma_or_bits(word, mask);
    }
    bit_set.set(index, word | mask);
}

/// Clears the bits of word `index` that `mask` covers, bits `low` up to `high` from the
/// bottom: blocks `64 - high` up to `64 - low` of that word.
fn unset_masked_bits(bit_set: &mut Vec<u64>, index: usize, mask: u64, Ghost(low): Ghost<int>, Ghost(high): Ghost<int>)
    requires
        index < old(bit_set).len(),
        0 <= low <= high <= 64,
        mask_covers(mask, low, high),
    ensures
        final(bit_set).len() == old(bit_set).len(),
        forall|block: int|
            0 <= block < old(bit_set).len() * 64 ==> (#[trigger] block_is_allocated(final(bit_set)@, block)
                <==> (block_is_allocated(old(bit_set)@, block) && !(index * 64 + 64 - high <= block
                < index * 64 + 64 - low))),
{
    let word = bit_set[index];
    proof {
        lemma_and_not_bits(word, mask);
    }
    bit_set.set(index, word & !mask);
}

impl BitSetWordPointer {
    /// The word this pointer points to.
    pub fn bit_set_word(self, bit_set: &Vec<u64>) -> (word: BitSetWord)
        requires
            self.0 < bit_set.len(),
        ensures
            word.0 == bit_set@[self.0 as int],
    {
        BitSetWord(bit_set[self.0])
    }

    /// Sets the lowest `number_of_lower_bits_to_set` bits of the word: its last blocks.
    pub fn set_bottom_bits(self, bit_set: &mut Vec<u64>, number_of_lower_bits_to_set: NumberOfBits)
        requires
            self.0 < old(bit_set).len(),
            1 <= number_of_lower_bits_to_set.0 <= 64,
        ensures
            final(bit_set).len() == old(bit_set).len(),
            forall|block: int|
                0 <= block < old(bit_set).len() * 64 ==> (#[trigger] block_is_allocated(final(bit_set)@, block)
                    <==> (block_is_allocated(old(bit_set)@, block) || self.0 * 64 + 64
                    - number_of_lower_bits_to_set.0 <= block < self.0 * 64 + 64)),
    {
        let count = number_of_lower_bits_to_set.0 as u64;
        proof {
            lemma_low_mask(count);
        }
        set_masked_bits(bit_set, self.0, 0xFFFF_FFFF_FFFF_FFFFu64 >> (64 - count), Ghost(0), Ghost(count as int));
    }

    /// Sets the bits of `bits_to_set` in the word, whose value is `current`.
    pub fn set_some_bits(self, bit_set: &mut Vec<u64>, current: BitSetWord, bits_to_set: u64)
        requires
            self.0 < old(bit_set).len(),
            current.0 == old(bit_set)@[self.0 as int],
        ensures
            final(bit_set).len() == old(bit_set).len(),
            forall|block: int|
                0 <= block < old(bit_set).len() * 64 ==> (#[trigger] block_is_allocated(final(bit_set)@, block)
                    <==> (block_is_allocated(old(bit_set)@, block) || (block / 64 == self.0
                    && bit_is_set(bits_to_set, 63 - block % 64)))),
    {
        proof {
            lemma_or_bits(current.0, bits_to_set);
        }
        bit_set.set(self.0, current.to_u64() | bits_to_set);
    }

    /// Sets the highest `number_of_upper_bits_to_set` bits of the word: its first blocks.
    pub fn set_top_bits(self, bit_set: &mut Vec<u64>, number_of_upper_bits_to_set: NumberOfBits)
        requires
            self.0 < old(bit_set).len(),
            1 <= number_of_upper_bits_to_set.0 <= 64,
        ensures
            final(bit_set).len() == old(bit_set).len(),
            forall|block: int|
                0 <= block < old(bit_set).len() * 64 ==> (#[trigger] block_is_allocated(final(bit_set)@, block)
                    <==> (block_is_allocated(old(bit_set)@, block) || self.0 * 64 <= block < self.0
                    * 64 + number_of_upper_bits_to_set.0)),
    {
        let count = number_of_upper_bits_to_set.0 as u64;
        proof {
            lemma_high_mask(count);
        }
        set_masked_bits(bit_set, self.0, 0xFFFF_FFFF_FFFF_FFFFu64 << (64 - count), Ghost(64 - count), Ghost(64));
    }

    /// Sets every bit of the word and moves on to the next word.
    pub fn set_all_bits_and_increment_assign(&mut self, bit_set: &mut Vec<u64>)
        requires
            old(self).0 < old(bit_set).len(),
        ensures
            final(self).0 == old(self).0 + 1,
            final(bit_set).len() == old(bit_set).len(),
            forall|block: int|
                0 <= block < old(bit_set).len() * 64 ==> (#[trigger] block_is_allocated(final(bit_set)@, block)
                    <==> (block_is_allocated(old(bit_set)@, block) || old(self).0 * 64 <= block
                    < old(self).0 * 64 + 64)),
    {
        proof {
            lemma_full_and_empty_words();
        }
        self.set_all_bits_to(bit_set, 0xFFFF_FFFF_FFFF_FFFF);
    }

    /// Clears the lowest `number_of_lower_bits_to_unset` bits of the word: its last blocks.
    pub fn unset_bottom_bits(self, bit_set: &mut Vec<u64>, number_of_lower_bits_to_unset: NumberOfBits)
        requires
            self.0 < old(bit_set).len(),
            1 <= number_of_lower_bits_to_unset.0 <= 64,
        ensures
            final(bit_set).len() == old(bit_set).len(),
            forall|block: int|
                0 <= block < old(bit_set).len() * 64 ==> (#[trigger] block_is_allocated(final(bit_set)@, block)
                    <==> (block_is_allocated(old(bit_set)@, block) && !(self.0 * 64 + 64
                    - number_of_lower_bits_to_unset.0 <= block < self.0 * 64 + 64))),
    {
        let count = number_of_lower_bits_to_unset.0 as u64;
        proof {
            lemma_low_mask(count);
        }
        unset_masked_bits(bit_set, self.0, 0xFFFF_FFFF_FFFF_FFFFu64 >> (64 - count), Ghost(0), Ghost(count as int));
    }

    /// Clears `number_of_bits_to_unset` bits of the word that end just above its lowest
    /// `number_of_lower_bits - number_of_bits_to_unset` bits.
    pub fn unset_middle_bits(self, bit_set: &mut Vec<u64>, number_of_bits_to_unset: NumberOfBits, number_of_lower_bits: NumberOfBits)
        requires
            self.0 < old(bit_set).len(),
            1 <= number_of_bits_to_unset.0 < 64,
            number_of_bits_to_unset.0 <= number_of_lower_bits.0 <= 64,
        ensures
            final(bit_set).len() == old(bit_set).len(),
            forall|block: int|
                0 <= block < old(bit_set).len() * 64 ==> (#[trigger] block_is_allocated(final(bit_set)@, block)
                    <==> (block_is_allocated(old(bit_set)@, block) && !(self.0 * 64 + 64
                    - number_of_lower_bits.0 <= block < self.0 * 64 + 64 - number_of_lower_bits.0
                    + number_of_bits_to_unset.0))),
    {
        let count = number_of_bits_to_unset.0 as u64;
        let shift = (number_of_lower_bits.0 - number_of_bits_to_unset.0) as u64;
        proof {
            lemma_shifted_mask(count, shift);
        }
        unset_masked_bits(bit_set, self.0, ((1u64 << count) - 1) << shift, Ghost(shift as int), Ghost(shift + count));
    }

    /// Clears the highest `number_of_upper_bits_to_unset` bits of the word: its first blocks.
    pub fn unset_top_bits(self, bit_set: &mut Vec<u64>, number_of_upper_bits_to_unset: NumberOfBits)
        requires
            self.0 < old(bit_set).len(),
            1 <= number_of_upper_bits_to_unset.0 <= 64,
        ensures
            final(bit_set).len() == old(bit_set).len(),
            forall|block: int|
                0 <= block < old(bit_set).len() * 64 ==> (#[trigger] block_is_allocated(final(bit_set)@, block)
                    <==> (block_is_allocated(old(bit_set)@, block) && !(self.0 * 64 <= block
                    < self.0 * 64 + number_of_upper_bits_to_unset.0))),
    {
        let count = number_of_upper_bits_to_unset.0 as u64;
        proof {
            lemma_high_mask(count);
        }
        unset_masked_bits(bit_set, self.0, 0xFFFF_FFFF_FFFF_FFFFu64 << (64 - count), Ghost(64 - count), Ghost(64));
    }

    /// Clears every bit of the word and moves on to the next word.
    pub fn unset_all_bits_and_increment_assign(&mut self, bit_set: &mut Vec<u64>)
        requires
            old(self).0 < old(bit_set).len(),
        ensures
            final(self).0 == old(self).0 + 1,
            final(bit_set).len() == old(bit_set).len(),
            forall|block: int|
                0 <= block < old(bit_set).len() * 64 ==> (#[trigger] block_is_allocated(final(bit_set)@, block)
                    <==> (block_is_allocated(old(bit_set)@, block) && !(old(self).0 * 64 <= block
                    < old(self).0 * 64 + 64))),
    {
        proof {
            lemma_full_and_empty_words();
        }
        self.set_all_bits_to(bit_set, 0x0000_0000_0000_0000);
    }

    /// Writes `value` to the word and moves on to the next word.
    fn set_all_bits_to(&mut self, bit_set: &mut Vec<u64>, value: u64)
        requires
            old(self).0 < old(bit_set).len(),
        ensures
            final(self).0 == old(self).0 + 1,
            final(bit_set)@ == old(bit_set)@.update(old(self).0 as int, value),
    {
        bit_set.set(self.0, value);
        self.increment_assign();
    }
}

} // verus!
