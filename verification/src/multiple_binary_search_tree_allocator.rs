//! An allocator that keeps its free blocks in sixteen ordered sets, one for each power-of-two
//! block size from 32 bytes to 1 MiB, and merges neighbouring free blocks as they are freed.
use vstd::prelude::*;
use crate::allocator::{AllocError, Allocator, disjoint_from, span};
use crate::binary_search_trees::red_black_tree::{
    contiguous_run,
    followed_by_contiguous,
    strictly_ascending,
    NodePointer,
};
use crate::binary_search_trees::cached_first_child::{
    lemma_run_offset,
    BinarySearchTreeWithCachedKnowledgeOfFirstChild,
};
use crate::binary_search_trees::trees::{
    lemma_tree_block_size_increases,
    lemma_tree_block_sizes,
    tree_block_size,
    BinarySearchTreesWithCachedKnowledgeOfFirstChild,
    MAXIMUM_ALLOCATION_SIZE,
    MINIMUM_ALLOCATION_SIZE,
    NUMBER_OF_BINARY_SEARCH_TREES,
};
use crate::memory_address::{
    is_power_of_two,
    lemma_power_of_two_at_least,
    lemma_largest_power_of_two_divisor,
    lemma_power_of_two_above,
    lemma_power_of_two_between,
    lemma_power_of_two_values,
    next_power_of_two,
    power_of_two,
};
use crate::local_allocator::{LocalAllocator, MemoryRange};
use crate::memory_source::MemorySource;

verus! {

/// In a run of contiguous blocks, every byte from the first block's start to the last block's
/// end lies in one of the run's blocks.
proof fn lemma_run_covers(addresses: Seq<usize>, from: int, to: int, block_size: int, byte: int)
    requires
        0 <= from <= to < addresses.len(),
        contiguous_run(addresses, from, to, block_size),
        addresses[from] <= byte < addresses[to] + block_size,
    ensures
        exists|k: int| from <= k <= to && #[trigger] addresses[k] <= byte < addresses[k] + block_size,
    decreases to - from,
{
    if byte < addresses[to] || from == to {
        if from == to {
            assert(addresses[to] <= byte);
        } else {
            assert(followed_by_contiguous(addresses, to - 1, block_size));
            lemma_run_covers(addresses, from, to - 1, block_size, byte);
        }
    }
}

/// The block size used for an allocation of `size` bytes: the smallest power of two that is at
/// least `size` and at least the smallest block size.
pub open spec fn allocation_block_size(size: int) -> int {
    let floored = if size < MINIMUM_ALLOCATION_SIZE {
        MINIMUM_ALLOCATION_SIZE as int
    } else {
        size
    };
    choose|block_size: int|
        is_power_of_two(block_size) && floored <= block_size < 2 * floored
}

/// The index of the set whose blocks are used for an allocation of `size` bytes.
pub open spec fn allocation_tree_index(size: int) -> int {
    choose|index: int|
        0 <= index < NUMBER_OF_BINARY_SEARCH_TREES && tree_block_size(index)
            == allocation_block_size(size)
}

/// The alignment that blocks of the larger sets are searched with.
pub open spec fn floored_alignment(alignment: int) -> int {
    if alignment < MINIMUM_ALLOCATION_SIZE {
        MINIMUM_ALLOCATION_SIZE as int
    } else {
        alignment
    }
}

/// Is the block at index `at` of `addresses` the first one aligned to `alignment`?
pub open spec fn first_aligned_at(addresses: Seq<usize>, alignment: int, at: int) -> bool {
    &&& 0 <= at < addresses.len()
    &&& addresses[at] as int % alignment == 0
    &&& forall|j: int| 0 <= j < at ==> #[trigger] addresses[j] as int % alignment != 0
}

/// Is no block of `addresses` aligned to `alignment`?
pub open spec fn none_aligned(addresses: Seq<usize>, alignment: int) -> bool {
    forall|j: int| 0 <= j < addresses.len() ==> #[trigger] addresses[j] as int % alignment != 0
}

/// A power of two from the smallest block size up is its own allocation block size.
proof fn lemma_allocation_block_size_of_power_of_two(size: int)
    requires
        is_power_of_two(size),
        size >= MINIMUM_ALLOCATION_SIZE,
    ensures
        allocation_block_size(size) == size,
{
    assert(is_power_of_two(size) && size <= size < 2 * size);
    let chosen = allocation_block_size(size);
    lemma_power_of_two_between(size, chosen);
}

/// The block size for an allocation is a power of two from the smallest block size up that
/// holds the allocation.
pub proof fn lemma_allocation_block_size(size: int)
    requires
        size > 0,
    ensures
        is_power_of_two(allocation_block_size(size)),
        size <= allocation_block_size(size),
        MINIMUM_ALLOCATION_SIZE <= allocation_block_size(size),
        size <= MAXIMUM_ALLOCATION_SIZE ==> allocation_block_size(size) <= MAXIMUM_ALLOCATION_SIZE
            && 0 <= allocation_tree_index(size) < NUMBER_OF_BINARY_SEARCH_TREES
            && tree_block_size(allocation_tree_index(size)) == allocation_block_size(size),
{
    let floored = if size < MINIMUM_ALLOCATION_SIZE {
        MINIMUM_ALLOCATION_SIZE as int
    } else {
        size
    };
    lemma_power_of_two_at_least(floored);
    let block_size = allocation_block_size(size);
    if size <= MAXIMUM_ALLOCATION_SIZE {
        lemma_power_of_two_values();
        assert(is_power_of_two(MAXIMUM_ALLOCATION_SIZE as int)) by {
            assert(power_of_two(20) == MAXIMUM_ALLOCATION_SIZE);
        }
        if block_size > MAXIMUM_ALLOCATION_SIZE {
            lemma_power_of_two_above(block_size, MAXIMUM_ALLOCATION_SIZE as int);
        }
        let exponent = choose|exponent: nat| power_of_two(exponent) == block_size;
        if exponent < 5 {
            crate::memory_address::lemma_power_of_two_monotonic(exponent, 4);
            assert(power_of_two(4) == 16) by {
                assert(power_of_two(1) == 2);
                assert(power_of_two(2) == 4);
                assert(power_of_two(3) == 8);
            }
        }
        if exponent > 20 {
            crate::memory_address::lemma_power_of_two_monotonic(21, exponent);
            assert(power_of_two(21) == 2 * power_of_two(20));
        }
        let index = exponent - 5;
        assert(tree_block_size(index) == block_size);
    }
}

/// The difference of two multiples of `modulus` is a multiple of it.
proof fn lemma_difference_of_multiples(larger: int, smaller: int, modulus: int)
    requires
        modulus > 0,
        larger % modulus == 0,
        smaller % modulus == 0,
    ensures
        (larger - smaller) % modulus == 0,
{
    vstd::arithmetic::div_mod::lemma_fundamental_div_mod(larger, modulus);
    vstd::arithmetic::div_mod::lemma_fundamental_div_mod(smaller, modulus);
    let difference = larger / modulus - smaller / modulus;
    assert(larger - smaller == difference * modulus) by (nonlinear_arith)
        requires
            larger == modulus * (larger / modulus) + 0,
            smaller == modulus * (smaller / modulus) + 0,
            difference == larger / modulus - smaller / modulus,
    ;
    vstd::arithmetic::div_mod::lemma_mod_multiples_basic(difference, modulus);
}

/// Is there a free block of the size of set `index` at `address` in the memory of an allocator
/// over `size` bytes at `start`, as it begins? The memory is cut from its start into blocks of
/// the largest size for as long as they fit, then into at most one block of each smaller size,
/// larger first; a remainder smaller than the smallest block is not used.
pub open spec fn initially_free(start: int, size: int, index: int, address: int) -> bool {
    let block_size = tree_block_size(index);
    if index == NUMBER_OF_BINARY_SEARCH_TREES - 1 {
        start <= address && (address - start) % block_size == 0 && address + block_size <= start + size
    } else {
        &&& 0 <= index < NUMBER_OF_BINARY_SEARCH_TREES - 1
        &&& size % (2 * block_size) >= block_size
        &&& address == start + size - size % (2 * block_size)
    }
}

/// Two different multiples of `modulus` are at least `modulus` apart.
proof fn lemma_multiples_apart(smaller: int, larger: int, modulus: int)
    requires
        modulus > 0,
        smaller % modulus == 0,
        larger % modulus == 0,
        smaller < larger,
    ensures
        smaller + modulus <= larger,
{
    lemma_difference_of_multiples(larger, smaller, modulus);
    let difference = larger - smaller;
    vstd::arithmetic::div_mod::lemma_fundamental_div_mod(difference, modulus);
    let quotient = difference / modulus;
    assert(difference == modulus * quotient);
    if quotient <= 0 {
        assert(modulus * quotient <= 0) by (nonlinear_arith)
            requires modulus > 0, quotient <= 0;
    } else {
        assert(modulus * quotient >= modulus) by (nonlinear_arith)
            requires modulus > 0, quotient >= 1;
    }
}

/// The next multiple of `modulus` after a multiple of it.
proof fn lemma_next_multiple(value: int, modulus: int)
    requires
        modulus > 0,
        value % modulus == 0,
    ensures
        (value + modulus) % modulus == 0,
{
    vstd::arithmetic::div_mod::lemma_fundamental_div_mod(value, modulus);
    let quotient = value / modulus;
    assert(value + modulus == (quotient + 1) * modulus) by (nonlinear_arith)
        requires value == modulus * quotient;
    vstd::arithmetic::div_mod::lemma_mod_multiples_basic(quotient + 1, modulus);
}

/// The blocks of the largest size that cutting up memory leaves, and what remains after them.
proof fn lemma_initial_largest_blocks(start: int, size: int, filled: int, remaining: int)
    requires
        filled >= 0,
        remaining >= 0,
        filled + remaining == size,
        filled % MAXIMUM_ALLOCATION_SIZE as int == 0,
        remaining < MAXIMUM_ALLOCATION_SIZE,
    ensures
        remaining == size % MAXIMUM_ALLOCATION_SIZE as int,
        forall|address: int| (start <= address < start + filled && (address - start) % MAXIMUM_ALLOCATION_SIZE as int == 0)
            <==> #[trigger] initially_free(start, size, NUMBER_OF_BINARY_SEARCH_TREES - 1, address),
{
    let maximum = MAXIMUM_ALLOCATION_SIZE as int;
    lemma_tree_block_sizes();
    vstd::arithmetic::div_mod::lemma_fundamental_div_mod(filled, maximum);
    vstd::arithmetic::div_mod::lemma_fundamental_div_mod_converse(size, maximum, filled / maximum, remaining);
    assert forall|address: int| (start <= address < start + filled && (address - start) % maximum == 0)
        <==> #[trigger] initially_free(start, size, NUMBER_OF_BINARY_SEARCH_TREES - 1, address) by {
        if start <= address && (address - start) % maximum == 0 {
            if address < start + filled {
                lemma_multiples_apart(address - start, filled, maximum);
            }
        }
    }
}

/// The one block of a smaller size that cutting up memory may leave, and what remains after it.
proof fn lemma_initial_smaller_block(start: int, size: int, index: int, first: int, reached: int, before: int, remaining: int)
    requires
        0 <= index < NUMBER_OF_BINARY_SEARCH_TREES - 1,
        size >= 0,
        before == size % (2 * tree_block_size(index)),
        before >= tree_block_size(index),
        first == start + size - before,
        reached - first == before - remaining,
        first <= reached <= first + tree_block_size(index),
        (reached - first) % tree_block_size(index) == 0,
        0 <= remaining < tree_block_size(index),
    ensures
        remaining == size % tree_block_size(index),
        forall|address: int| (first <= address < reached && (address - first) % tree_block_size(index) == 0)
            <==> #[trigger] initially_free(start, size, index, address),
{
    let block_size = tree_block_size(index);
    lemma_tree_block_sizes();
    if reached - first < block_size {
        lemma_multiples_apart(0, reached - first, block_size);
    }
    assert(reached == first + block_size);
    vstd::arithmetic::div_mod::lemma_mod_mod(size, block_size, 2);
    vstd::arithmetic::div_mod::lemma_fundamental_div_mod_converse(before, block_size, 1, remaining);
    assert forall|address: int| (first <= address < reached && (address - first) % block_size == 0)
        <==> #[trigger] initially_free(start, size, index, address) by {
        if first <= address < reached {
            vstd::arithmetic::div_mod::lemma_small_mod((address - first) as nat, block_size as nat);
        }
    }
}

/// Below the sizes already cut, the remainder of memory holds no block of the size of set
/// `index` when it is smaller than that size.
proof fn lemma_initial_no_block(start: int, size: int, last: int, remaining: int, index: int, address: int)
    requires
        0 <= index < last <= NUMBER_OF_BINARY_SEARCH_TREES,
        size >= 0,
        last == NUMBER_OF_BINARY_SEARCH_TREES ==> remaining == size,
        last < NUMBER_OF_BINARY_SEARCH_TREES ==> remaining == size % tree_block_size(last),
        0 <= remaining < tree_block_size(index),
    ensures
        !initially_free(start, size, index, address),
{
    lemma_tree_block_sizes();
    if index < NUMBER_OF_BINARY_SEARCH_TREES - 1 {
        let doubled = tree_block_size(index + 1);
        if last == NUMBER_OF_BINARY_SEARCH_TREES {
            vstd::arithmetic::div_mod::lemma_small_mod(size as nat, doubled as nat);
        } else {
            crate::memory_address::lemma_power_of_two_divides((5 + index + 1) as nat, (5 + last) as nat);
            let ratio = power_of_two((last - index - 1) as nat) as int;
            crate::memory_address::lemma_power_of_two_positive((last - index - 1) as nat);
            assert(tree_block_size(last) == doubled * ratio);
            vstd::arithmetic::div_mod::lemma_mod_mod(size, doubled, ratio);
            vstd::arithmetic::div_mod::lemma_small_mod(remaining as nat, doubled as nat);
        }
    }
}

/// Does the block at index `at` of `blocks`, each `block_size` bytes, touch the block before
/// it or the block after it?
pub open spec fn touches_neighbour(blocks: Seq<usize>, at: int, block_size: int) -> bool {
    ||| at > 0 && blocks[at - 1] + block_size == blocks[at]
    ||| at + 1 < blocks.len() && blocks[at] + block_size == blocks[at + 1]
}

/// Is the run of blocks from position `first_at` to position `last_at` of `blocks` the whole of
/// the longest run of contiguous blocks of `block_size` bytes through position `at`, but for at
/// most one block at one of its ends?
pub open spec fn whole_run_but_at_most_one_end(blocks: Seq<usize>, at: int, first_at: int, last_at: int, block_size: int) -> bool {
    exists|back_at: int, forward_at: int|
        0 <= back_at <= first_at && last_at <= forward_at < blocks.len()
            && back_at <= at <= forward_at
            && (first_at - back_at) + (forward_at - last_at) <= 1
            && #[trigger] contiguous_run(blocks, back_at, forward_at, block_size)
            && (back_at == 0 || blocks[back_at - 1] + block_size != blocks[back_at])
            && (forward_at == blocks.len() - 1 || blocks[forward_at] + block_size != blocks[forward_at + 1])
}

/// Is `merged` what freeing the block at `address` into `blocks`, the free blocks of one size
/// (`block_size` bytes, the set at `index`), leaves of that set? `grown` is `blocks` with the
/// block added. When the block touches a free block of its size, and larger blocks exist, an
/// even number of contiguous blocks around it leaves the set, to be freed as larger blocks;
/// otherwise the set is just `grown`.
pub open spec fn freed_into(blocks: Seq<usize>, grown: Seq<usize>, merged: Seq<usize>, index: int, block_size: int, address: usize) -> bool {
    &&& strictly_ascending(grown)
    &&& forall|x: usize| #[trigger] grown.contains(x) <==> blocks.contains(x) || x == address
    &&& forall|at: int| 0 <= at < grown.len() && #[trigger] grown[at] == address ==> {
        &&& (index == NUMBER_OF_BINARY_SEARCH_TREES - 1 || !touches_neighbour(grown, at, block_size)) ==> merged == grown
        &&& index < NUMBER_OF_BINARY_SEARCH_TREES - 1 && touches_neighbour(grown, at, block_size) ==> exists|first_at: int, last_at: int|
            0 <= first_at < last_at < grown.len() && (last_at - first_at) % 2 == 1
                && contiguous_run(grown, first_at, last_at, block_size)
                && whole_run_but_at_most_one_end(grown, at, first_at, last_at, block_size)
                && merged == grown.subrange(0, first_at) + grown.subrange(last_at + 1, grown.len() as int)
    }
}

/// Does `blocks` hold a block at `address`?
pub open spec fn holds_block(blocks: Seq<usize>, address: int) -> bool {
    0 <= address <= usize::MAX && blocks.contains(address as usize)
}

/// Does the block of `block_size` bytes at `address` make, with the blocks of `blocks`, a run of
/// exactly two contiguous blocks: one neighbour in `blocks`, and no block beyond that neighbour
/// nor on the block's other side?
pub open spec fn pairs_with_one_neighbour(blocks: Seq<usize>, block_size: int, address: int) -> bool {
    ||| holds_block(blocks, address - block_size) && !holds_block(blocks, address - 2 * block_size)
        && !holds_block(blocks, address + block_size)
    ||| holds_block(blocks, address + block_size) && !holds_block(blocks, address + 2 * block_size)
        && !holds_block(blocks, address - block_size)
}

/// The first block of the pair that the block at `address` makes with its one neighbour.
pub open spec fn pair_start(blocks: Seq<usize>, block_size: int, address: int) -> int {
    if holds_block(blocks, address - block_size) {
        address - block_size
    } else {
        address
    }
}

/// In a strictly ascending sequence of blocks that do not overlap the one at `at`, a maximal
/// run of contiguous blocks around `at` that pairs it with one neighbour is that pair.
proof fn lemma_pair_run(blocks: Seq<usize>, size: int, at: int, back_at: int, forward_at: int)
    requires
        strictly_ascending(blocks),
        size > 0,
        0 <= back_at <= at <= forward_at < blocks.len(),
        contiguous_run(blocks, back_at, forward_at, size),
        back_at == 0 || blocks[back_at - 1] + size != blocks[back_at],
        forward_at == blocks.len() - 1 || blocks[forward_at] + size != blocks[forward_at + 1],
        forall|k: int| 0 <= k < blocks.len() && k != at ==> blocks[k] + size <= blocks[at] || blocks[at] + size <= blocks[k],
        pairs_with_one_neighbour(blocks, size, blocks[at] as int),
    ensures
        forward_at == back_at + 1,
        blocks[back_at] == pair_start(blocks, size, blocks[at] as int),
{
    let address = blocks[at] as int;
    if holds_block(blocks, address - size) {
        let k = choose|k: int| 0 <= k < blocks.len() && blocks[k] == (address - size) as usize;
        if k > at {
            assert(blocks[at] < blocks[k]);
        }
        if k < at - 1 {
            assert(blocks[k] < blocks[at - 1]);
        }
        assert(blocks[at - 1] == address - size);
        if forward_at > at {
            assert(followed_by_contiguous(blocks, at, size));
            assert(blocks.contains(blocks[at + 1]));
        }
        if back_at < at - 1 {
            assert(followed_by_contiguous(blocks, at - 2, size));
            assert(blocks.contains(blocks[at - 2]));
        }
    } else {
        let k = choose|k: int| 0 <= k < blocks.len() && blocks[k] == (address + size) as usize;
        if k < at {
            assert(blocks[k] < blocks[at]);
        }
        if k > at + 1 {
            assert(blocks[at + 1] < blocks[k]);
        }
        assert(blocks[at + 1] == address + size);
        if back_at < at {
            assert(followed_by_contiguous(blocks, at - 1, size));
            assert(blocks.contains(blocks[at - 1]));
        }
        if forward_at > at + 1 {
            assert(followed_by_contiguous(blocks, at + 1, size));
            assert(blocks.contains(blocks[at + 2]));
        }
    }
}

/// Are the bytes from `from` up to `to` what is left of a block of set `larger` at
/// `from - tree_block_size(index)` once its first `tree_block_size(index)` bytes are taken?
/// They are then the blocks of sets `index` up to, but not including, `larger`, each lying its
/// own size past that start.
pub open spec fn splits_into_doubling_blocks(from: int, to: int, index: int, larger: int) -> bool {
    &&& 0 <= index < larger < NUMBER_OF_BINARY_SEARCH_TREES
    &&& from >= tree_block_size(index)
    &&& to - from == tree_block_size(larger) - tree_block_size(index)
}

/// What a larger block size exceeds a smaller one by is an odd multiple of the smaller.
proof fn lemma_doubling_remainder(smaller: int, larger: int)
    requires
        0 <= smaller < larger < NUMBER_OF_BINARY_SEARCH_TREES,
    ensures
        (tree_block_size(larger) - tree_block_size(smaller)) % tree_block_size(smaller) == 0,
        ((tree_block_size(larger) - tree_block_size(smaller)) / tree_block_size(smaller)) % 2 == 1,
{
    lemma_tree_block_sizes();
    lemma_tree_block_size_increases(smaller, larger);
    let size = tree_block_size(smaller);
    let ratio = tree_block_size(larger) / (2 * size);
    vstd::arithmetic::div_mod::lemma_fundamental_div_mod(tree_block_size(larger), 2 * size);
    assert(tree_block_size(larger) - size == (2 * ratio - 1) * size) by (nonlinear_arith)
        requires tree_block_size(larger) == (2 * size) * ratio + 0;
    vstd::arithmetic::div_mod::lemma_mod_multiples_basic(2 * ratio - 1, size);
    vstd::arithmetic::div_mod::lemma_div_multiples_vanish(2 * ratio - 1, size);
    assert((2 * ratio - 1) * size == size * (2 * ratio - 1)) by (nonlinear_arith);
}

/// Does a free block of the size of set `index` of `allocator` end where `address` starts, or
/// start where the block of that size at `address` ends?
pub open spec fn touches_free_block<MS: MemorySource>(allocator: MultipleBinarySearchTreeAllocator<MS>, index: int, address: usize) -> bool {
    ||| allocator.free_blocks(index).contains((address - tree_block_size(index)) as usize)
    ||| allocator.free_blocks(index).contains((address + tree_block_size(index)) as usize)
}

/// A multiple-binary-search-tree allocator over the memory obtained from `MS`.
///
/// Free blocks have power-of-two sizes; no book-keeping is kept for allocated blocks.
/// This allocator never grows or shrinks its memory region.
pub struct MultipleBinarySearchTreeAllocator<MS: MemorySource> {
    inner: BinarySearchTreesWithCachedKnowledgeOfFirstChild,
    memory_source: MS,
    allocations_start_from: usize,
    memory_source_size: usize,
}

impl<MS: MemorySource> MultipleBinarySearchTreeAllocator<MS> {
    /// The first address of the managed memory.
    pub closed spec fn start(&self) -> int {
        self.allocations_start_from as int
    }

    /// The source the managed memory came from.
    pub closed spec fn memory_source(&self) -> MS {
        self.memory_source
    }

    /// The number of bytes of managed memory.
    pub closed spec fn size(&self) -> int {
        self.memory_source_size as int
    }

    /// Is there a free block of the size of set `index` at `address`?
    pub closed spec fn is_free_block(&self, index: int, address: usize) -> bool {
        0 <= index < NUMBER_OF_BINARY_SEARCH_TREES && self.inner.tree(index).contains(address)
    }

    /// The addresses of the free blocks in set `index`, in ascending order.
    pub closed spec fn free_blocks(&self, index: int) -> Seq<usize> {
        self.inner.tree(index)
    }

    /// The bytes that lie in some free block.
    pub closed spec fn free_bytes(&self) -> Set<int> {
        Set::new(
            |byte: int|
                exists|index: int, address: usize|
                    #[trigger] self.is_free_block(index, address) && address <= byte < address
                        + tree_block_size(index),
        )
    }

    /// No two free blocks share a byte.
    closed spec fn blocks_disjoint(&self) -> bool {
        forall|i1: int, a1: usize, i2: int, a2: usize|
            #[trigger] self.is_free_block(i1, a1) && #[trigger] self.is_free_block(i2, a2) && (i1
                != i2 || a1 != a2) ==> a1 + tree_block_size(i1) <= a2 || a2 + tree_block_size(i2)
                <= a1
    }

    /// Every free block lies in the managed memory.
    closed spec fn blocks_in_range(&self) -> bool {
        forall|index: int, address: usize|
            #[trigger] self.is_free_block(index, address) ==> self.allocations_start_from
                <= address && address + tree_block_size(index) <= self.allocations_start_from
                + self.memory_source_size
    }

    /// The allocator's invariant.
    pub closed spec fn wf(&self) -> bool {
        &&& self.inner.wf()
        &&& self.allocations_start_from > 0
        &&& self.allocations_start_from + self.memory_source_size <= usize::MAX
        &&& self.blocks_disjoint()
        &&& self.blocks_in_range()
    }

    /// Do the bytes from `address` for `length` bytes lie in the managed memory?
    pub open spec fn within(&self, address: int, length: int) -> bool {
        self.start() <= address && address + length <= self.start() + self.size()
    }

    /// Allocators with the same free blocks have the same free bytes.
    proof fn lemma_same_blocks_same_bytes(first: Self, second: Self)
        requires
            forall|j: int, x: usize| #[trigger] first.is_free_block(j, x) == second.is_free_block(j, x),
        ensures
            first.free_bytes() == second.free_bytes(),
    {
        assert forall|byte: int| #[trigger] first.free_bytes().contains(byte) == second.free_bytes().contains(byte) by {
            if first.free_bytes().contains(byte) {
                let (j, x) = choose|j: int, x: usize|
                    #[trigger] first.is_free_block(j, x) && x <= byte < x + tree_block_size(j);
                assert(second.is_free_block(j, x));
            }
            if second.free_bytes().contains(byte) {
                let (j, x) = choose|j: int, x: usize|
                    #[trigger] second.is_free_block(j, x) && x <= byte < x + tree_block_size(j);
                assert(first.is_free_block(j, x));
            }
        }
        assert(first.free_bytes() =~= second.free_bytes());
    }

    /// The managed memory starts above `0` and ends within the address space.
    pub proof fn lemma_bounds(&self)
        requires
            self.wf(),
        ensures
            self.start() > 0,
            self.start() + self.size() <= usize::MAX,
    {
    }

    /// Facts that follow from the invariant.
    proof fn lemma_wf_facts(&self, index: int)
        requires
            self.wf(),
            0 <= index < NUMBER_OF_BINARY_SEARCH_TREES,
        ensures
            strictly_ascending(self.inner.tree(index)),
            forall|j: int|
                0 <= j < self.inner.tree(index).len() ==> #[trigger] self.inner.tree(index)[j]
                    + tree_block_size(index) <= usize::MAX && self.inner.tree(index)[j] != 0
                    && self.start() <= self.inner.tree(index)[j] && self.inner.tree(index)[j]
                    + tree_block_size(index) <= self.start() + self.size(),
    {
        self.inner.lemma_wf(index);
        assert forall|j: int| 0 <= j < self.inner.tree(index).len() implies #[trigger] self.inner.tree(
            index,
        )[j] + tree_block_size(index) <= usize::MAX && self.inner.tree(index)[j] != 0
            && self.start() <= self.inner.tree(index)[j] && self.inner.tree(index)[j]
            + tree_block_size(index) <= self.start() + self.size() by {
            assert(self.is_free_block(index, self.inner.tree(index)[j]));
        }
    }

    /// Adds the block at `address` to set `index`.
    fn insert_free_block(&mut self, index: usize, address: usize) -> (inserted: NodePointer)
        requires
            old(self).wf(),
            index < NUMBER_OF_BINARY_SEARCH_TREES,
            old(self).within(address as int, tree_block_size(index as int)),
            disjoint_from(address as int, tree_block_size(index as int), old(self).free_bytes()),
        ensures
            final(self).wf(),
            final(self).start() == old(self).start(),
            final(self).size() == old(self).size(),
            final(self).memory_source() == old(self).memory_source(),
            final(self).free_bytes() == old(self).free_bytes().union(
                span(address as int, tree_block_size(index as int)),
            ),
            inserted.address_of() == address,
            final(self).free_blocks(index as int).contains(address),
            forall|j: int| 0 <= j < NUMBER_OF_BINARY_SEARCH_TREES && j != index ==> #[trigger] final(self).free_blocks(j) == old(self).free_blocks(j),
            forall|x: usize| #[trigger] final(self).free_blocks(index as int).contains(x)
                <==> old(self).free_blocks(index as int).contains(x) || x == address,
    {
        proof {
            lemma_tree_block_sizes();
        }
        let ghost before = *self;
        let inserted = self.inner.insert_memory_address(index, address);
        proof {
            let size = tree_block_size(index as int);
            assert forall|j: int, x: usize| #[trigger]
                self.is_free_block(j, x) <==> before.is_free_block(j, x) || (j == index && x
                    == address) by {
                if 0 <= j < NUMBER_OF_BINARY_SEARCH_TREES && j != index {
                    assert(self.inner.tree(j) == before.inner.tree(j));
                }
            }
            assert forall|byte: int| #[trigger]
                self.free_bytes().contains(byte) == before.free_bytes().union(
                    span(address as int, size),
                ).contains(byte) by {
                if self.free_bytes().contains(byte) {
                    let (j, x) = choose|j: int, x: usize|
                        #[trigger] self.is_free_block(j, x) && x <= byte < x + tree_block_size(j);
                    if !before.is_free_block(j, x) {
                        assert(span(address as int, size).contains(byte));
                    } else {
                        assert(before.free_bytes().contains(byte));
                    }
                }
                if before.free_bytes().contains(byte) {
                    let (j, x) = choose|j: int, x: usize|
                        #[trigger] before.is_free_block(j, x) && x <= byte < x + tree_block_size(j);
                    assert(self.is_free_block(j, x));
                }
                if span(address as int, size).contains(byte) {
                    assert(self.is_free_block(index as int, address));
                }
            }
            assert(self.free_bytes() =~= before.free_bytes().union(span(address as int, size)));
            assert forall|i1: int, a1: usize, i2: int, a2: usize|
                #[trigger] self.is_free_block(i1, a1) && #[trigger] self.is_free_block(i2, a2) && (
                i1 != i2 || a1 != a2) implies a1 + tree_block_size(i1) <= a2 || a2
                + tree_block_size(i2) <= a1 by {
                if before.is_free_block(i1, a1) && before.is_free_block(i2, a2) {
                } else if !before.is_free_block(i1, a1) {
                    if before.is_free_block(i2, a2) {
                        if !(a1 + tree_block_size(i1) <= a2 || a2 + tree_block_size(i2) <= a1) {
                            let byte = if a1 < a2 {
                                a2 as int
                            } else {
                                a1 as int
                            };
                            assert(before.free_bytes().contains(byte));
                        }
                    } else {
                        assert(i1 == i2 && a1 == a2);
                    }
                } else {
                    if !(a1 + tree_block_size(i1) <= a2 || a2 + tree_block_size(i2) <= a1) {
                        let byte = if a1 < a2 {
                            a2 as int
                        } else {
                            a1 as int
                        };
                        assert(before.free_bytes().contains(byte));
                    }
                }
            }
            assert(self.is_free_block(index as int, address));
        }
        inserted
    }

    /// Removes the block `node_pointer` from set `index`.
    fn remove_free_block(&mut self, index: usize, node_pointer: NodePointer, is_cached_first_child: bool)
        requires
            old(self).wf(),
            index < NUMBER_OF_BINARY_SEARCH_TREES,
            old(self).free_blocks(index as int).contains(node_pointer.address_of()),
            is_cached_first_child == (node_pointer.address_of() == old(self).free_blocks(
                index as int,
            )[0]),
        ensures
            final(self).wf(),
            final(self).start() == old(self).start(),
            final(self).size() == old(self).size(),
            final(self).memory_source() == old(self).memory_source(),
            final(self).free_bytes() == old(self).free_bytes().difference(
                span(node_pointer.address_of() as int, tree_block_size(index as int)),
            ),
            span(node_pointer.address_of() as int, tree_block_size(index as int)).subset_of(
                old(self).free_bytes(),
            ),
            forall|j: int| 0 <= j < NUMBER_OF_BINARY_SEARCH_TREES && j != index ==> #[trigger] final(self).free_blocks(j) == old(self).free_blocks(j),
            forall|x: usize| #[trigger] final(self).free_blocks(index as int).contains(x)
                <==> old(self).free_blocks(index as int).contains(x) && x != node_pointer.address_of(),
    {
        let ghost before = *self;
        let ghost address = node_pointer.address_of();
        self.inner.remove(index, node_pointer, is_cached_first_child);
        proof {
            let size = tree_block_size(index as int);
            assert forall|j: int, x: usize| #[trigger]
                self.is_free_block(j, x) <==> before.is_free_block(j, x) && !(j == index && x
                    == address) by {
                if 0 <= j < NUMBER_OF_BINARY_SEARCH_TREES && j != index {
                    assert(self.inner.tree(j) == before.inner.tree(j));
                }
            }
            assert(before.is_free_block(index as int, address));
            assert forall|byte: int| #[trigger]
                self.free_bytes().contains(byte) == before.free_bytes().difference(
                    span(address as int, size),
                ).contains(byte) by {
                if self.free_bytes().contains(byte) {
                    let (j, x) = choose|j: int, x: usize|
                        #[trigger] self.is_free_block(j, x) && x <= byte < x + tree_block_size(j);
                    assert(before.free_bytes().contains(byte));
                    assert(before.is_free_block(index as int, address));
                }
                if before.free_bytes().contains(byte) && !span(address as int, size).contains(
                    byte,
                ) {
                    let (j, x) = choose|j: int, x: usize|
                        #[trigger] before.is_free_block(j, x) && x <= byte < x + tree_block_size(j);
                    assert(self.is_free_block(j, x));
                }
            }
            assert(self.free_bytes() =~= before.free_bytes().difference(
                span(address as int, size),
            ));
            assert forall|byte: int| span(address as int, size).contains(byte) implies before.free_bytes().contains(
                byte,
            ) by {
                assert(before.is_free_block(index as int, address));
            }
        }
    }

    /// The block size used for an allocation of `non_zero_size` bytes.
    fn block_size(non_zero_size: usize) -> (block_size: usize)
        requires
            0 < non_zero_size <= MAXIMUM_ALLOCATION_SIZE,
        ensures
            block_size == allocation_block_size(non_zero_size as int),
            is_power_of_two(block_size as int),
            MINIMUM_ALLOCATION_SIZE <= block_size <= MAXIMUM_ALLOCATION_SIZE,
            non_zero_size <= block_size,
            block_size < 2 * (if non_zero_size < MINIMUM_ALLOCATION_SIZE {
                MINIMUM_ALLOCATION_SIZE
            } else {
                non_zero_size
            }),
    {
        let floored = BinarySearchTreesWithCachedKnowledgeOfFirstChild::floor_size_to_minimum(
            non_zero_size,
        );
        let block_size = next_power_of_two(floored);
        proof {
            let chosen = allocation_block_size(non_zero_size as int);
            assert(is_power_of_two(block_size as int) && floored <= block_size < 2 * floored);
            assert(is_power_of_two(chosen) && floored <= chosen < 2 * floored);
            if chosen < block_size {
                lemma_power_of_two_between(chosen, block_size as int);
            } else {
                lemma_power_of_two_between(block_size as int, chosen);
            }
            lemma_power_of_two_values();
            assert(is_power_of_two(MAXIMUM_ALLOCATION_SIZE as int)) by {
                assert(power_of_two(20) == MAXIMUM_ALLOCATION_SIZE);
            }
            if block_size > MAXIMUM_ALLOCATION_SIZE {
                lemma_power_of_two_above(block_size as int, MAXIMUM_ALLOCATION_SIZE as int);
            }
        }
        block_size
    }

    /// Removes the free blocks of set `index` from `first` to `last`, which form a run of
    /// contiguous blocks.
    fn remove_contiguous_free_blocks(&mut self, index: usize, first: usize, last: usize, block_size: usize)
        requires
            old(self).wf(),
            index < NUMBER_OF_BINARY_SEARCH_TREES,
            block_size == tree_block_size(index as int),
            exists|first_at: int, last_at: int|
                0 <= first_at <= last_at < old(self).free_blocks(index as int).len() && old(
                    self,
                ).free_blocks(index as int)[first_at] == first && old(self).free_blocks(
                    index as int,
                )[last_at] == last && contiguous_run(
                    old(self).free_blocks(index as int),
                    first_at,
                    last_at,
                    block_size as int,
                ),
        ensures
            final(self).wf(),
            final(self).start() == old(self).start(),
            final(self).size() == old(self).size(),
            final(self).memory_source() == old(self).memory_source(),
            first <= last,
            span(first as int, last + block_size - first).subset_of(old(self).free_bytes()),
            final(self).free_bytes() == old(self).free_bytes().difference(
                span(first as int, last + block_size - first),
            ),
            forall|j: int| 0 <= j < NUMBER_OF_BINARY_SEARCH_TREES && j != index ==> #[trigger] final(self).free_blocks(j) == old(self).free_blocks(j),
            exists|first_at: int, last_at: int|
                0 <= first_at <= last_at < old(self).free_blocks(index as int).len()
                    && old(self).free_blocks(index as int)[first_at] == first
                    && old(self).free_blocks(index as int)[last_at] == last
                    && final(self).free_blocks(index as int) == old(self).free_blocks(index as int).subrange(0, first_at)
                        + old(self).free_blocks(index as int).subrange(last_at + 1, old(self).free_blocks(index as int).len() as int),
    {
        proof {
            lemma_tree_block_sizes();
            self.lemma_wf_facts(index as int);
        }
        let ghost before = *self;
        let ghost tree = self.inner.tree(index as int);
        let ghost (first_at, last_at) = choose|first_at: int, last_at: int|
            0 <= first_at <= last_at < tree.len() && tree[first_at] == first && tree[last_at]
                == last && contiguous_run(tree, first_at, last_at, block_size as int);
        proof {
            assert(tree[last_at] + block_size <= usize::MAX);
            if first_at < last_at {
                assert(tree[first_at] < tree[last_at]);
            }
        }
        self.inner.remove_contiguous_blocks(index, first, last, block_size);
        proof {
            let total = last + block_size - first;
            let (f2, l2) = choose|f2: int, l2: int|
                0 <= f2 <= l2 < tree.len() && tree[f2] == first && tree[l2] == last
                    && self.inner.tree(index as int) == tree.subrange(0, f2) + tree.subrange(
                    l2 + 1,
                    tree.len() as int,
                );
            assert(f2 == first_at) by {
                if f2 < first_at {
                    assert(tree[f2] < tree[first_at]);
                }
                if f2 > first_at {
                    assert(tree[first_at] < tree[f2]);
                }
            }
            assert(l2 == last_at) by {
                if l2 < last_at {
                    assert(tree[l2] < tree[last_at]);
                }
                if l2 > last_at {
                    assert(tree[last_at] < tree[l2]);
                }
            }
            let after = self.inner.tree(index as int);
            assert forall|x: usize| #[trigger]
                after.contains(x) <==> tree.contains(x) && (x < first || x > last) by {
                if after.contains(x) {
                    let k = choose|k: int| 0 <= k < after.len() && after[k] == x;
                    if k < first_at {
                        assert(tree[k] == x);
                        assert(tree[k] < tree[first_at]);
                    } else {
                        assert(tree[k + (last_at - first_at + 1)] == x);
                        assert(tree[last_at] < tree[k + (last_at - first_at + 1)]);
                    }
                }
                if tree.contains(x) && (x < first || x > last) {
                    let k = choose|k: int| 0 <= k < tree.len() && tree[k] == x;
                    if k < first_at {
                        assert(after[k] == x);
                    } else if k > last_at {
                        assert(after[k - (last_at - first_at + 1)] == x);
                    } else {
                        if k > first_at {
                            assert(tree[first_at] < tree[k]);
                        }
                        if k < last_at {
                            assert(tree[k] < tree[last_at]);
                        }
                    }
                }
            }
            assert forall|j: int, x: usize| #[trigger]
                self.is_free_block(j, x) <==> before.is_free_block(j, x) && !(j == index && first
                    <= x <= last) by {
                if 0 <= j < NUMBER_OF_BINARY_SEARCH_TREES && j != index {
                    assert(self.inner.tree(j) == before.inner.tree(j));
                }
            }
            assert forall|byte: int| span(first as int, total).contains(byte) implies before.free_bytes().contains(
                byte,
            ) by {
                lemma_run_covers(tree, first_at, last_at, block_size as int, byte);
                let k = choose|k: int|
                    first_at <= k <= last_at && #[trigger] tree[k] <= byte < tree[k] + block_size;
                assert(before.is_free_block(index as int, tree[k]));
            }
            assert forall|byte: int| #[trigger]
                self.free_bytes().contains(byte) == before.free_bytes().difference(
                    span(first as int, total),
                ).contains(byte) by {
                if self.free_bytes().contains(byte) {
                    let (j, x) = choose|j: int, x: usize|
                        #[trigger] self.is_free_block(j, x) && x <= byte < x + tree_block_size(j);
                    assert(before.free_bytes().contains(byte));
                    if span(first as int, total).contains(byte) {
                        lemma_run_covers(tree, first_at, last_at, block_size as int, byte);
                        let k = choose|k: int|
                            first_at <= k <= last_at && #[trigger] tree[k] <= byte < tree[k]
                                + block_size;
                        assert(before.is_free_block(index as int, tree[k]));
                        if k > first_at {
                            assert(tree[first_at] < tree[k]);
                        }
                        if k < last_at {
                            assert(tree[k] < tree[last_at]);
                        }
                        assert(before.is_free_block(j, x));
                    }
                }
                if before.free_bytes().contains(byte) && !span(first as int, total).contains(byte) {
                    let (j, x) = choose|j: int, x: usize|
                        #[trigger] before.is_free_block(j, x) && x <= byte < x + tree_block_size(j);
                    assert(self.is_free_block(j, x));
                }
            }
            assert(self.free_bytes() =~= before.free_bytes().difference(span(first as int, total)));
            assert(self.free_blocks(index as int) == tree.subrange(0, first_at) + tree.subrange(last_at + 1, tree.len() as int));
        }
    }

    /// Frees the block of set `binary_search_tree_index` at `memory_address`, merging it with
    /// contiguous free blocks of its size.
    fn deallocate_block(&mut self, binary_search_tree_index: usize, memory_address: usize)
        requires
            old(self).wf(),
            binary_search_tree_index < NUMBER_OF_BINARY_SEARCH_TREES,
            old(self).within(memory_address as int, tree_block_size(binary_search_tree_index as int)),
            disjoint_from(
                memory_address as int,
                tree_block_size(binary_search_tree_index as int),
                old(self).free_bytes(),
            ),
        ensures
            final(self).wf(),
            final(self).start() == old(self).start(),
            final(self).size() == old(self).size(),
            final(self).memory_source() == old(self).memory_source(),
            final(self).free_bytes() == old(self).free_bytes().union(
                span(memory_address as int, tree_block_size(binary_search_tree_index as int)),
            ),
            forall|j: int| 0 <= j < binary_search_tree_index ==> #[trigger] final(self).free_blocks(j) == old(self).free_blocks(j),
            exists|grown: Seq<usize>| #[trigger] freed_into(
                old(self).free_blocks(binary_search_tree_index as int),
                grown,
                final(self).free_blocks(binary_search_tree_index as int),
                binary_search_tree_index as int,
                tree_block_size(binary_search_tree_index as int),
                memory_address,
            ),
            !touches_free_block(*old(self), binary_search_tree_index as int, memory_address)
                || binary_search_tree_index == NUMBER_OF_BINARY_SEARCH_TREES - 1
                ==> forall|j: int| 0 <= j < NUMBER_OF_BINARY_SEARCH_TREES && j != binary_search_tree_index ==> #[trigger] final(self).free_blocks(j) == old(self).free_blocks(j),
            !touches_free_block(*old(self), binary_search_tree_index as int, memory_address) ==> forall|x: usize|
                #[trigger] final(self).free_blocks(binary_search_tree_index as int).contains(x)
                    <==> old(self).free_blocks(binary_search_tree_index as int).contains(x) || x == memory_address,
            binary_search_tree_index < NUMBER_OF_BINARY_SEARCH_TREES - 1 && pairs_with_one_neighbour(
                old(self).free_blocks(binary_search_tree_index as int),
                tree_block_size(binary_search_tree_index as int),
                memory_address as int,
            ) ==> exists|grown: Seq<usize>| #[trigger] freed_into(
                old(self).free_blocks(binary_search_tree_index + 1),
                grown,
                final(self).free_blocks(binary_search_tree_index + 1),
                binary_search_tree_index + 1,
                2 * tree_block_size(binary_search_tree_index as int),
                pair_start(old(self).free_blocks(binary_search_tree_index as int), tree_block_size(binary_search_tree_index as int), memory_address as int) as usize,
            ),
            binary_search_tree_index < NUMBER_OF_BINARY_SEARCH_TREES - 1 && pairs_with_one_neighbour(
                old(self).free_blocks(binary_search_tree_index as int),
                tree_block_size(binary_search_tree_index as int),
                memory_address as int,
            ) && !touches_free_block(
                *old(self),
                binary_search_tree_index + 1,
                pair_start(old(self).free_blocks(binary_search_tree_index as int), tree_block_size(binary_search_tree_index as int), memory_address as int) as usize,
            ) ==> forall|j: int| binary_search_tree_index + 1 < j < NUMBER_OF_BINARY_SEARCH_TREES
                ==> #[trigger] final(self).free_blocks(j) == old(self).free_blocks(j),
        decreases NUMBER_OF_BINARY_SEARCH_TREES - binary_search_tree_index, 1int,
    {
        let block_size = BinarySearchTreesWithCachedKnowledgeOfFirstChild::binary_search_tree_index_to_block_size(
            binary_search_tree_index,
        );
        let has_blocks = self.inner.binary_search_tree_for(binary_search_tree_index).has_blocks();
        let ghost before = *self;
        let inserted_node_pointer = self.insert_free_block(binary_search_tree_index, memory_address);
        let ghost after_insert = *self;
        let ghost grown = after_insert.free_blocks(binary_search_tree_index as int);
        proof {
            lemma_tree_block_sizes();
            after_insert.lemma_wf_facts(binary_search_tree_index as int);
            before.lemma_wf_facts(binary_search_tree_index as int);
            assert(grown.contains(memory_address));
            let at = choose|at: int| 0 <= at < grown.len() && grown[at] == memory_address;
            assert forall|other: int| 0 <= other < grown.len() && grown[other] == memory_address implies other == at by {
                if other < at {
                    assert(grown[other] < grown[at]);
                }
                if other > at {
                    assert(grown[at] < grown[other]);
                }
            }
            if !has_blocks {
                assert forall|k: int| 0 <= k < grown.len() implies grown[k] == memory_address by {
                    assert(grown.contains(grown[k]));
                }
                if grown.len() >= 2 {
                    assert(grown[0] < grown[1]);
                }
            }
            let block_size_int = tree_block_size(binary_search_tree_index as int);
            if touches_neighbour(grown, at, block_size_int) {
                if at > 0 && grown[at - 1] + block_size_int == grown[at] {
                    assert(grown.contains(grown[at - 1]));
                    assert(before.free_blocks(binary_search_tree_index as int).contains((memory_address - block_size_int) as usize));
                } else {
                    assert(grown.contains(grown[at + 1]));
                    assert(before.free_blocks(binary_search_tree_index as int).contains((memory_address + block_size_int) as usize));
                }
            }
        }
        proof {
            let size = tree_block_size(binary_search_tree_index as int);
            let address = memory_address as int;
            let blocks = before.free_blocks(binary_search_tree_index as int);
            if pairs_with_one_neighbour(blocks, size, address) {
                assert(holds_block(grown, address - size) == holds_block(blocks, address - size));
                assert(holds_block(grown, address + size) == holds_block(blocks, address + size));
                assert(holds_block(grown, address - 2 * size) == holds_block(blocks, address - 2 * size));
                assert(holds_block(grown, address + 2 * size) == holds_block(blocks, address + 2 * size));
                assert(pairs_with_one_neighbour(grown, size, address));
                assert(pair_start(grown, size, address) == pair_start(blocks, size, address));
                assert(blocks.len() > 0);
                if binary_search_tree_index < NUMBER_OF_BINARY_SEARCH_TREES - 1 {
                    assert(after_insert.free_blocks(binary_search_tree_index + 1) == before.free_blocks(binary_search_tree_index + 1));
                }
            }
        }
        if has_blocks && binary_search_tree_index < NUMBER_OF_BINARY_SEARCH_TREES - 1 {
            self.coalesce(inserted_node_pointer, block_size, binary_search_tree_index);
        }
        proof {
            if !touches_free_block(before, binary_search_tree_index as int, memory_address) {
                let at = choose|at: int| 0 <= at < grown.len() && grown[at] == memory_address;
                assert(!touches_neighbour(grown, at, tree_block_size(binary_search_tree_index as int)));
                assert(self.free_blocks(binary_search_tree_index as int) == grown);
            }
        }
        proof {
            assert(freed_into(
                before.free_blocks(binary_search_tree_index as int),
                grown,
                self.free_blocks(binary_search_tree_index as int),
                binary_search_tree_index as int,
                tree_block_size(binary_search_tree_index as int),
                memory_address,
            ));
        }
    }

    /// Merges the run of contiguous free blocks around `inserted_node_pointer` in set
    /// `binary_search_tree_index` into larger free blocks.
    ///
    /// An even number of blocks is merged: all of the run when it holds an even number, else
    /// all but the block at one end. The merged bytes are freed again, as the largest power-of-
    /// two blocks that their remaining length allows, each of which merges in turn.
    #[verifier::rlimit(60)]
    fn coalesce(&mut self, inserted_node_pointer: NodePointer, block_size: usize, binary_search_tree_index: usize)
        requires
            old(self).wf(),
            binary_search_tree_index < NUMBER_OF_BINARY_SEARCH_TREES - 1,
            block_size == tree_block_size(binary_search_tree_index as int),
            old(self).free_blocks(binary_search_tree_index as int).contains(
                inserted_node_pointer.address_of(),
            ),
        ensures
            final(self).wf(),
            final(self).start() == old(self).start(),
            final(self).size() == old(self).size(),
            final(self).memory_source() == old(self).memory_source(),
            final(self).free_bytes() == old(self).free_bytes(),
            forall|j: int| 0 <= j < binary_search_tree_index ==> #[trigger] final(self).free_blocks(j) == old(self).free_blocks(j),
            forall|at: int|
                0 <= at < old(self).free_blocks(binary_search_tree_index as int).len()
                    && #[trigger] old(self).free_blocks(binary_search_tree_index as int)[at] == inserted_node_pointer.address_of()
                ==> {
                    let blocks = old(self).free_blocks(binary_search_tree_index as int);
                    &&& !touches_neighbour(blocks, at, block_size as int) ==> *final(self) == *old(self)
                    &&& touches_neighbour(blocks, at, block_size as int) ==> exists|first_at: int, last_at: int|
                        0 <= first_at < last_at < blocks.len() && (last_at - first_at) % 2 == 1
                            && contiguous_run(blocks, first_at, last_at, block_size as int)
                            && whole_run_but_at_most_one_end(blocks, at, first_at, last_at, block_size as int)
                            && final(self).free_blocks(binary_search_tree_index as int)
                                == blocks.subrange(0, first_at) + blocks.subrange(last_at + 1, blocks.len() as int)
                },
            pairs_with_one_neighbour(
                old(self).free_blocks(binary_search_tree_index as int),
                block_size as int,
                inserted_node_pointer.address_of() as int,
            ) ==> exists|grown: Seq<usize>| #[trigger] freed_into(
                old(self).free_blocks(binary_search_tree_index + 1),
                grown,
                final(self).free_blocks(binary_search_tree_index + 1),
                binary_search_tree_index + 1,
                2 * block_size,
                pair_start(old(self).free_blocks(binary_search_tree_index as int), block_size as int, inserted_node_pointer.address_of() as int) as usize,
            ),
            pairs_with_one_neighbour(
                old(self).free_blocks(binary_search_tree_index as int),
                block_size as int,
                inserted_node_pointer.address_of() as int,
            ) && !touches_free_block(
                *old(self),
                binary_search_tree_index + 1,
                pair_start(old(self).free_blocks(binary_search_tree_index as int), block_size as int, inserted_node_pointer.address_of() as int) as usize,
            ) ==> forall|j: int| binary_search_tree_index + 1 < j < NUMBER_OF_BINARY_SEARCH_TREES
                ==> #[trigger] final(self).free_blocks(j) == old(self).free_blocks(j),
        decreases NUMBER_OF_BINARY_SEARCH_TREES - binary_search_tree_index, 0int,
    {
        proof {
            lemma_tree_block_sizes();
            self.lemma_wf_facts(binary_search_tree_index as int);
        }
        let ghost tree_view = self.inner.tree(binary_search_tree_index as int);
        let tree = self.inner.binary_search_tree_for(binary_search_tree_index).tree();
        let furthest_back_contiguous_with_inserted_node_pointer_memory_address = tree.furthest_back_contiguous_with(
            inserted_node_pointer,
            block_size,
        );
        let furthest_forward_contiguous_with_inserted_node_pointer_memory_address = tree.furthest_forward_contiguous_with(
            inserted_node_pointer,
            block_size,
        );
        let back = furthest_back_contiguous_with_inserted_node_pointer_memory_address;
        let forward = furthest_forward_contiguous_with_inserted_node_pointer_memory_address;
        let ghost (back_at, at) = choose|back_at: int, at: int|
            0 <= back_at <= at < tree_view.len() && tree_view[at] == inserted_node_pointer.address_of()
                && tree_view[back_at] == back && contiguous_run(
                tree_view,
                back_at,
                at,
                block_size as int,
            ) && (back_at == 0 || tree_view[back_at - 1] + block_size != tree_view[back_at]);
        let ghost (at2, forward_at) = choose|at2: int, forward_at: int|
            0 <= at2 <= forward_at < tree_view.len() && tree_view[at2]
                == inserted_node_pointer.address_of() && tree_view[forward_at] == forward
                && contiguous_run(tree_view, at2, forward_at, block_size as int)
                && (forward_at == tree_view.len() - 1 || tree_view[forward_at] + block_size != tree_view[forward_at + 1]);
        proof {
            assert(at == at2) by {
                if at < at2 {
                    assert(tree_view[at] < tree_view[at2]);
                }
                if at2 < at {
                    assert(tree_view[at2] < tree_view[at]);
                }
            }
            if back_at < at {
                assert(tree_view[back_at] < tree_view[at]);
            }
            if at < forward_at {
                assert(tree_view[at] < tree_view[forward_at]);
            }
            assert forall|j: int| back_at <= j < forward_at implies #[trigger] followed_by_contiguous(
                tree_view,
                j,
                block_size as int,
            ) by {
                if j < at {
                    assert(contiguous_run(tree_view, back_at, at, block_size as int));
                } else {
                    assert(contiguous_run(tree_view, at, forward_at, block_size as int));
                }
            }
        }
        let difference = forward - back;
        proof {
            assert forall|other: int| 0 <= other < tree_view.len() && tree_view[other] == inserted_node_pointer.address_of()
                implies other == at by {
                if other < at {
                    assert(tree_view[other] < tree_view[at]);
                }
                if other > at {
                    assert(tree_view[at] < tree_view[other]);
                }
            }
            if back_at < at {
                assert(followed_by_contiguous(tree_view, at - 1, block_size as int));
            }
            if at < forward_at {
                assert(followed_by_contiguous(tree_view, at, block_size as int));
            }
            assert(touches_neighbour(tree_view, at, block_size as int) <==> back_at < forward_at);
        }
        let ghost pair = pairs_with_one_neighbour(tree_view, block_size as int, inserted_node_pointer.address_of() as int);
        proof {
            if pair {
                let size = block_size as int;
                assert forall|k: int| 0 <= k < tree_view.len() && k != at implies
                    tree_view[k] + size <= tree_view[at] || tree_view[at] + size <= tree_view[k] by {
                    assert(self.is_free_block(binary_search_tree_index as int, tree_view[k]));
                    assert(self.is_free_block(binary_search_tree_index as int, tree_view[at]));
                }
                lemma_pair_run(tree_view, size, at, back_at, forward_at);
                assert(followed_by_contiguous(tree_view, back_at, size));
            }
        }
        if difference == 0 {
            return;
        }
        proof {
            if back_at == forward_at {
                assert(back == forward);
            }
            assert(contiguous_run(tree_view, back_at, forward_at, block_size as int));
            assert(back_at <= at <= forward_at && tree_view[at] == inserted_node_pointer.address_of());
            assert(tree_view == self.inner.tree(binary_search_tree_index as int));
        }
        let ghost before_search = *self;
        let (first_block_memory_address, last_block_memory_address) = self.inner.blocks_to_coalesce(
            binary_search_tree_index,
            inserted_node_pointer,
            difference,
            block_size,
            back,
            forward,
        );
        let ghost (first_at, last_at) = choose|first_at: int, last_at: int|
            0 <= first_at < last_at < tree_view.len() && tree_view[first_at]
                == first_block_memory_address && tree_view[last_at] == last_block_memory_address
                && contiguous_run(tree_view, first_at, last_at, block_size as int) && (last_at
                - first_at) % 2 == 1;
        proof {
            assert forall|j: int, x: usize| #[trigger] self.is_free_block(j, x) == before_search.is_free_block(j, x) by {
                if 0 <= j < NUMBER_OF_BINARY_SEARCH_TREES {
                    assert(self.inner.tree(j) == before_search.inner.tree(j));
                }
            }
            Self::lemma_same_blocks_same_bytes(*self, before_search);
            assert(self.free_blocks(binary_search_tree_index as int) == tree_view);
            assert(contiguous_run(tree_view, first_at, last_at, block_size as int));
            assert(back_at < forward_at) by {
                if back_at == forward_at {
                    assert(back == forward);
                }
            }
            if first_block_memory_address == back {
                assert(first_at == back_at) by {
                    if first_at < back_at {
                        assert(tree_view[first_at] < tree_view[back_at]);
                    }
                    if first_at > back_at {
                        assert(tree_view[back_at] < tree_view[first_at]);
                    }
                }
            } else {
                assert(followed_by_contiguous(tree_view, back_at, block_size as int));
                assert(first_at == back_at + 1) by {
                    if first_at < back_at + 1 {
                        assert(tree_view[first_at] < tree_view[back_at + 1]);
                    }
                    if first_at > back_at + 1 {
                        assert(tree_view[back_at + 1] < tree_view[first_at]);
                    }
                }
            }
            if last_block_memory_address == forward {
                assert(last_at == forward_at) by {
                    if last_at < forward_at {
                        assert(tree_view[last_at] < tree_view[forward_at]);
                    }
                    if last_at > forward_at {
                        assert(tree_view[forward_at] < tree_view[last_at]);
                    }
                }
            } else {
                assert(followed_by_contiguous(tree_view, forward_at - 1, block_size as int));
                assert(last_at == forward_at - 1) by {
                    if last_at < forward_at - 1 {
                        assert(tree_view[last_at] < tree_view[forward_at - 1]);
                    }
                    if last_at > forward_at - 1 {
                        assert(tree_view[forward_at - 1] < tree_view[last_at]);
                    }
                }
            }
            assert(whole_run_but_at_most_one_end(tree_view, at, first_at, last_at, block_size as int));
        }
        let ghost before_removal = *self;
        self.remove_contiguous_free_blocks(
            binary_search_tree_index,
            first_block_memory_address,
            last_block_memory_address,
            block_size,
        );
        let ghost after_removal = *self;
        proof {
            let (f2, l2) = choose|f2: int, l2: int|
                0 <= f2 <= l2 < tree_view.len() && tree_view[f2] == first_block_memory_address
                    && tree_view[l2] == last_block_memory_address
                    && after_removal.free_blocks(binary_search_tree_index as int) == tree_view.subrange(0, f2)
                        + tree_view.subrange(l2 + 1, tree_view.len() as int);
            assert(f2 == first_at) by {
                if f2 < first_at {
                    assert(tree_view[f2] < tree_view[first_at]);
                }
                if f2 > first_at {
                    assert(tree_view[first_at] < tree_view[f2]);
                }
            }
            assert(l2 == last_at) by {
                if l2 < last_at {
                    assert(tree_view[l2] < tree_view[last_at]);
                }
                if l2 > last_at {
                    assert(tree_view[last_at] < tree_view[l2]);
                }
            }
            assert forall|j: int| 0 <= j < binary_search_tree_index implies #[trigger] after_removal.free_blocks(j) == old(self).free_blocks(j) by {
                assert(before_removal.free_blocks(j) == before_search.free_blocks(j));
            }
        }
        let end = last_block_memory_address + block_size;
        let mut from = first_block_memory_address;
        let mut remaining = end - from;
        let ghost merged = span(first_block_memory_address as int, end - first_block_memory_address);
        let ghost double: int = 2 * block_size;
        proof {
            lemma_run_offset(tree_view, first_at, last_at, block_size as int);
            let pairs = (last_at - first_at + 1) / 2;
            assert(last_at - first_at + 1 == 2 * pairs);
            assert(remaining == (last_at - first_at + 1) * block_size) by (nonlinear_arith)
                requires
                    last_block_memory_address == first_block_memory_address + (last_at - first_at)
                        * block_size,
                    remaining == last_block_memory_address + block_size - first_block_memory_address,
            ;
            assert(remaining == pairs * double) by (nonlinear_arith)
                requires
                    remaining == (last_at - first_at + 1) * block_size,
                    last_at - first_at + 1 == 2 * pairs,
                    double == 2 * block_size,
            ;
            vstd::arithmetic::div_mod::lemma_mod_multiples_basic(pairs, double);
            assert(double == tree_block_size(binary_search_tree_index + 1));
            assert(self.free_bytes() =~= before_removal.free_bytes().difference(merged).union(
                span(first_block_memory_address as int, 0),
            ));
        }
        while remaining != 0
            invariant
                self.wf(),
                self.start() == before_removal.start(),
                self.memory_source() == before_removal.memory_source(),
                self.size() == before_removal.size(),
                binary_search_tree_index < NUMBER_OF_BINARY_SEARCH_TREES - 1,
                block_size == tree_block_size(binary_search_tree_index as int),
                double == 2 * block_size,
                double == tree_block_size(binary_search_tree_index + 1),
                first_block_memory_address <= from,
                from + remaining == end,
                (remaining as int) % double == 0,
                merged == span(first_block_memory_address as int, end - first_block_memory_address),
                merged.subset_of(before_removal.free_bytes()),
                before_removal.within(first_block_memory_address as int, end - first_block_memory_address),
                self.free_bytes() == before_removal.free_bytes().difference(merged).union(
                    span(first_block_memory_address as int, from - first_block_memory_address),
                ),
                forall|j: int| 0 <= j <= binary_search_tree_index ==> #[trigger] self.free_blocks(j) == after_removal.free_blocks(j),
                pair ==> first_block_memory_address == back && end == back + double,
                pair && remaining == double ==> forall|j: int| 0 <= j < NUMBER_OF_BINARY_SEARCH_TREES
                    ==> #[trigger] self.free_blocks(j) == after_removal.free_blocks(j),
                pair && remaining == 0 && !touches_free_block(after_removal, binary_search_tree_index + 1, back)
                    ==> forall|j: int| binary_search_tree_index + 1 < j < NUMBER_OF_BINARY_SEARCH_TREES
                        ==> #[trigger] self.free_blocks(j) == after_removal.free_blocks(j),
                pair ==> remaining == double || (remaining == 0 && exists|grown: Seq<usize>| #[trigger] freed_into(
                    after_removal.free_blocks(binary_search_tree_index + 1),
                    grown,
                    self.free_blocks(binary_search_tree_index + 1),
                    binary_search_tree_index + 1,
                    double,
                    back,
                )),
            decreases remaining,
        {
            proof {
                lemma_tree_block_sizes();
                assert(remaining >= double) by (nonlinear_arith)
                    requires
                        (remaining as int) % double == 0,
                        remaining != 0,
                        double > 0,
                ;
            }
            let smallest_power_of_two_difference = BinarySearchTreesWithCachedKnowledgeOfFirstChild::smallest_power_of_two_difference(
                remaining,
            );
            let chunk = if smallest_power_of_two_difference > MAXIMUM_ALLOCATION_SIZE {
                MAXIMUM_ALLOCATION_SIZE
            } else {
                smallest_power_of_two_difference
            };
            proof {
                assert(is_power_of_two(double as int)) by {
                    assert(power_of_two((5 + binary_search_tree_index + 1) as nat) == double);
                }
                lemma_largest_power_of_two_divisor(
                    remaining as int,
                    smallest_power_of_two_difference as int,
                    double as int,
                );
                lemma_power_of_two_values();
                assert(is_power_of_two(MAXIMUM_ALLOCATION_SIZE as int)) by {
                    assert(power_of_two(20) == MAXIMUM_ALLOCATION_SIZE);
                }
                assert((MAXIMUM_ALLOCATION_SIZE as int) % double == 0);
                assert((chunk as int) % double == 0);
                assert(chunk >= double);
                lemma_difference_of_multiples(remaining as int, chunk as int, double as int);
            }
            let chunk_index = BinarySearchTreesWithCachedKnowledgeOfFirstChild::binary_search_tree_index(
                chunk,
            );
            proof {
                if chunk_index <= binary_search_tree_index {
                    if chunk_index < binary_search_tree_index {
                        lemma_tree_block_size_increases(chunk_index as int, binary_search_tree_index as int);
                    }
                }
                let current = self.free_bytes();
                assert forall|byte: int| from <= byte < from + chunk implies !#[trigger] current.contains(byte) by {
                    assert(merged.contains(byte));
                }
            }
            proof {
                if pair {
                    assert(chunk == double);
                    if chunk_index != binary_search_tree_index + 1 {
                        if chunk_index < binary_search_tree_index + 1 {
                            lemma_tree_block_size_increases(chunk_index as int, binary_search_tree_index + 1);
                        } else {
                            lemma_tree_block_size_increases(binary_search_tree_index + 1, chunk_index as int);
                        }
                    }
                }
            }
            self.deallocate_block(chunk_index, from);
            proof {
                assert(self.free_bytes() =~= before_removal.free_bytes().difference(merged).union(
                    span(first_block_memory_address as int, from + chunk - first_block_memory_address),
                ));
            }
            from = from + chunk;
            remaining = remaining - chunk;
        }
        proof {
            assert(self.free_bytes() =~= before_removal.free_bytes().union(merged).difference(merged).union(merged));
            assert(before_removal.free_bytes().difference(merged).union(merged) =~= before_removal.free_bytes());
            if pair {
                assert(after_removal.free_blocks(binary_search_tree_index + 1) == before_removal.free_blocks(binary_search_tree_index + 1));
                assert(before_search.free_blocks(binary_search_tree_index + 1) == old(self).free_blocks(binary_search_tree_index + 1));
                assert(before_removal.free_blocks(binary_search_tree_index + 1) == before_search.free_blocks(binary_search_tree_index + 1));
                let grown = choose|grown: Seq<usize>| #[trigger] freed_into(
                    after_removal.free_blocks(binary_search_tree_index + 1),
                    grown,
                    self.free_blocks(binary_search_tree_index + 1),
                    binary_search_tree_index + 1,
                    double,
                    back,
                );
                assert(tree_view == old(self).free_blocks(binary_search_tree_index as int));
                assert(pair_start(tree_view, block_size as int, inserted_node_pointer.address_of() as int) == back);
                assert(freed_into(
                    old(self).free_blocks(binary_search_tree_index + 1),
                    grown,
                    self.free_blocks(binary_search_tree_index + 1),
                    binary_search_tree_index + 1,
                    2 * block_size,
                    pair_start(old(self).free_blocks(binary_search_tree_index as int), block_size as int, inserted_node_pointer.address_of() as int) as usize,
                ));
                assert forall|j: int| binary_search_tree_index + 1 <= j < NUMBER_OF_BINARY_SEARCH_TREES
                    implies #[trigger] after_removal.free_blocks(j) == old(self).free_blocks(j) by {
                    assert(after_removal.free_blocks(j) == before_removal.free_blocks(j));
                    assert(before_removal.free_blocks(j) == before_search.free_blocks(j));
                }
            }
        }
    }

    /// The set of free blocks at `binary_search_tree_index`.
    pub fn binary_search_tree_for(&self, binary_search_tree_index: usize) -> (tree: &BinarySearchTreeWithCachedKnowledgeOfFirstChild)
        requires
            self.wf(),
            binary_search_tree_index < NUMBER_OF_BINARY_SEARCH_TREES,
        ensures
            tree.wf(),
            tree@ == self.free_blocks(binary_search_tree_index as int),
    {
        self.inner.binary_search_tree_for(binary_search_tree_index)
    }

    /// The set of free blocks of `block_size` bytes.
    pub fn binary_search_tree_for_block_size(&self, block_size: usize) -> (tree: &BinarySearchTreeWithCachedKnowledgeOfFirstChild)
        requires
            self.wf(),
            is_power_of_two(block_size as int),
            MINIMUM_ALLOCATION_SIZE <= block_size <= MAXIMUM_ALLOCATION_SIZE,
        ensures
            tree.wf(),
            exists|index: int|
                0 <= index < NUMBER_OF_BINARY_SEARCH_TREES && tree_block_size(index) == block_size
                    && tree@ == self.free_blocks(index),
    {
        let index = BinarySearchTreesWithCachedKnowledgeOfFirstChild::binary_search_tree_index(block_size);
        self.binary_search_tree_for(index)
    }

    /// Frees the bytes from `from` up to `to` as the largest power-of-two blocks that their
    /// remaining length allows, from the lowest address up.
    fn split_up_block(&mut self, from: usize, to: usize, Ghost(pieces): Ghost<(int, int)>)
        requires
            old(self).wf(),
            from <= to,
            to - from <= MAXIMUM_ALLOCATION_SIZE,
            (to - from) % (MINIMUM_ALLOCATION_SIZE as int) == 0,
            old(self).within(from as int, to - from),
            disjoint_from(from as int, to - from, old(self).free_bytes()),
        ensures
            final(self).wf(),
            final(self).start() == old(self).start(),
            final(self).size() == old(self).size(),
            final(self).memory_source() == old(self).memory_source(),
            final(self).free_bytes() == old(self).free_bytes().union(span(from as int, to - from)),
            from == to ==> *final(self) == *old(self),
            splits_into_doubling_blocks(from as int, to as int, pieces.0, pieces.1) && (forall|j: int|
                pieces.0 <= j < pieces.1 ==> !#[trigger] touches_free_block(
                    *old(self), j, (from - tree_block_size(pieces.0) + tree_block_size(j)) as usize))
                ==> forall|j: int, x: usize| 0 <= j < NUMBER_OF_BINARY_SEARCH_TREES ==> (#[trigger] final(self).free_blocks(j).contains(x)
                    <==> old(self).free_blocks(j).contains(x)
                        || (pieces.0 <= j < pieces.1 && x == from - tree_block_size(pieces.0) + tree_block_size(j))),
    {
        let ghost initial = *self;
        let ghost shaped = splits_into_doubling_blocks(from as int, to as int, pieces.0, pieces.1) && (forall|j: int|
            pieces.0 <= j < pieces.1 ==> !#[trigger] touches_free_block(
                initial, j, (from - tree_block_size(pieces.0) + tree_block_size(j)) as usize));
        let ghost base = from - tree_block_size(pieces.0);
        let ghost mut k = pieces.0;
        let mut from = from;
        let mut difference = to - from;
        let ghost first = from;
        proof {
            assert(self.free_bytes() =~= initial.free_bytes().union(span(first as int, 0)));
        }
        while difference != 0
            invariant
                self.wf(),
                self.start() == initial.start(),
                self.memory_source() == initial.memory_source(),
                self.size() == initial.size(),
                first <= from,
                from + difference == to,
                difference <= MAXIMUM_ALLOCATION_SIZE,
                difference % MINIMUM_ALLOCATION_SIZE == 0,
                initial.within(first as int, to - first),
                disjoint_from(first as int, to - first, initial.free_bytes()),
                self.free_bytes() == initial.free_bytes().union(span(first as int, from - first)),
                first == to ==> *self == initial,
                shaped ==> pieces.0 <= k <= pieces.1 && from == base + tree_block_size(k)
                    && difference == tree_block_size(pieces.1) - tree_block_size(k),
                shaped ==> 0 <= pieces.0 < pieces.1 < NUMBER_OF_BINARY_SEARCH_TREES,
                shaped ==> forall|j: int| pieces.0 <= j < pieces.1 ==> !#[trigger] touches_free_block(
                    initial, j, (base + tree_block_size(j)) as usize),
                shaped ==> forall|j: int, x: usize| 0 <= j < NUMBER_OF_BINARY_SEARCH_TREES ==> (#[trigger] self.free_blocks(j).contains(x)
                    <==> initial.free_blocks(j).contains(x) || (pieces.0 <= j < k && x == base + tree_block_size(j))),
            decreases difference,
        {
            let smallest_power_of_two_difference = BinarySearchTreesWithCachedKnowledgeOfFirstChild::smallest_power_of_two_difference(
                difference,
            );
            let ghost before_piece = *self;
            proof {
                if shaped {
                    lemma_tree_block_sizes();
                    if k == pieces.1 {
                        assert(difference == 0);
                    }
                    lemma_doubling_remainder(k, pieces.1);
                    lemma_power_of_two_values();
                    assert(is_power_of_two(tree_block_size(k))) by {
                        assert(power_of_two((5 + k) as nat) == tree_block_size(k));
                    }
                    lemma_largest_power_of_two_divisor(
                        difference as int,
                        smallest_power_of_two_difference as int,
                        tree_block_size(k),
                    );
                    lemma_largest_power_of_two_divisor(
                        difference as int,
                        tree_block_size(k),
                        smallest_power_of_two_difference as int,
                    );
                    assert(smallest_power_of_two_difference == tree_block_size(k));
                    let size = tree_block_size(k);
                    lemma_allocation_block_size_of_power_of_two(size);
                    lemma_allocation_block_size(size);
                    let chosen = allocation_tree_index(size);
                    if chosen < k {
                        lemma_tree_block_size_increases(chosen, k);
                    } else if chosen > k {
                        lemma_tree_block_size_increases(k, chosen);
                    }
                    assert(chosen == k);
                    assert(touches_free_block(before_piece, k, from) == touches_free_block(initial, k, (base + tree_block_size(k)) as usize));
                }
            }
            proof {
                lemma_power_of_two_values();
                assert(is_power_of_two(MINIMUM_ALLOCATION_SIZE as int)) by {
                    assert(power_of_two(5) == MINIMUM_ALLOCATION_SIZE);
                }
                lemma_largest_power_of_two_divisor(
                    difference as int,
                    smallest_power_of_two_difference as int,
                    MINIMUM_ALLOCATION_SIZE as int,
                );
                lemma_allocation_block_size_of_power_of_two(smallest_power_of_two_difference as int);
                lemma_difference_of_multiples(
                    difference as int,
                    smallest_power_of_two_difference as int,
                    MINIMUM_ALLOCATION_SIZE as int,
                );
                let current = self.free_bytes();
                assert forall|byte: int| from <= byte < from + smallest_power_of_two_difference implies !#[trigger] current.contains(byte) by {
                    assert(!initial.free_bytes().contains(byte));
                }
            }
            self.deallocate(smallest_power_of_two_difference, smallest_power_of_two_difference, from);
            proof {
                assert(self.free_bytes() =~= initial.free_bytes().union(span(first as int, from + smallest_power_of_two_difference - first)));
                if shaped {
                    assert forall|j: int, x: usize| 0 <= j < NUMBER_OF_BINARY_SEARCH_TREES implies (#[trigger] self.free_blocks(j).contains(x)
                        <==> initial.free_blocks(j).contains(x) || (pieces.0 <= j < k + 1 && x == base + tree_block_size(j))) by {
                        if j != k {
                            assert(self.free_blocks(j) == before_piece.free_blocks(j));
                            assert(before_piece.free_blocks(j).contains(x) <==> initial.free_blocks(j).contains(x) || (pieces.0 <= j < k && x == base + tree_block_size(j)));
                        } else {
                            assert(self.free_blocks(j).contains(x) <==> before_piece.free_blocks(j).contains(x) || x == from);
                            assert(before_piece.free_blocks(j).contains(x) <==> initial.free_blocks(j).contains(x));
                        }
                    }
                    k = k + 1;
                }
            }
            from = from + smallest_power_of_two_difference;
            difference = difference - smallest_power_of_two_difference;
        }
        proof {
            if shaped {
                lemma_tree_block_sizes();
                if k < pieces.1 {
                    lemma_tree_block_size_increases(k, pieces.1);
                }
                assert(k == pieces.1);
            }
        }
    }

    /// Frees the block of `non_zero_size` bytes (rounded up to its block size) at
    /// `current_memory`.
    ///
    /// The freed block is merged with the free blocks of its size that it touches; when it
    /// touches just one, which touches no other, the pair is freed as one block of twice the
    /// size, which merges in turn.
    pub fn deallocate(&mut self, non_zero_size: usize, _non_zero_power_of_two_alignment: usize, current_memory: usize)
        requires
            old(self).wf(),
            0 < non_zero_size <= MAXIMUM_ALLOCATION_SIZE,
            old(self).within(current_memory as int, allocation_block_size(non_zero_size as int)),
            disjoint_from(
                current_memory as int,
                allocation_block_size(non_zero_size as int),
                old(self).free_bytes(),
            ),
        ensures
            final(self).wf(),
            final(self).start() == old(self).start(),
            final(self).size() == old(self).size(),
            final(self).memory_source() == old(self).memory_source(),
            final(self).free_bytes() == old(self).free_bytes().union(
                span(current_memory as int, allocation_block_size(non_zero_size as int)),
            ),
            exists|grown: Seq<usize>| #[trigger] freed_into(
                old(self).free_blocks(allocation_tree_index(non_zero_size as int)),
                grown,
                final(self).free_blocks(allocation_tree_index(non_zero_size as int)),
                allocation_tree_index(non_zero_size as int),
                allocation_block_size(non_zero_size as int),
                current_memory,
            ),
            forall|j: int| 0 <= j < allocation_tree_index(non_zero_size as int) ==> #[trigger] final(self).free_blocks(j) == old(self).free_blocks(j),
            !touches_free_block(*old(self), allocation_tree_index(non_zero_size as int), current_memory)
                || allocation_tree_index(non_zero_size as int) == NUMBER_OF_BINARY_SEARCH_TREES - 1
                ==> forall|j: int| 0 <= j < NUMBER_OF_BINARY_SEARCH_TREES && j != allocation_tree_index(non_zero_size as int) ==> #[trigger] final(self).free_blocks(j) == old(self).free_blocks(j),
            !touches_free_block(*old(self), allocation_tree_index(non_zero_size as int), current_memory) ==> forall|x: usize|
                #[trigger] final(self).free_blocks(allocation_tree_index(non_zero_size as int)).contains(x)
                    <==> old(self).free_blocks(allocation_tree_index(non_zero_size as int)).contains(x) || x == current_memory,
            allocation_tree_index(non_zero_size as int) < NUMBER_OF_BINARY_SEARCH_TREES - 1 && pairs_with_one_neighbour(
                old(self).free_blocks(allocation_tree_index(non_zero_size as int)),
                allocation_block_size(non_zero_size as int),
                current_memory as int,
            ) ==> exists|grown: Seq<usize>| #[trigger] freed_into(
                old(self).free_blocks(allocation_tree_index(non_zero_size as int) + 1),
                grown,
                final(self).free_blocks(allocation_tree_index(non_zero_size as int) + 1),
                allocation_tree_index(non_zero_size as int) + 1,
                2 * allocation_block_size(non_zero_size as int),
                pair_start(
                    old(self).free_blocks(allocation_tree_index(non_zero_size as int)),
                    allocation_block_size(non_zero_size as int),
                    current_memory as int,
                ) as usize,
            ),
            allocation_tree_index(non_zero_size as int) < NUMBER_OF_BINARY_SEARCH_TREES - 1 && pairs_with_one_neighbour(
                old(self).free_blocks(allocation_tree_index(non_zero_size as int)),
                allocation_block_size(non_zero_size as int),
                current_memory as int,
            ) && !touches_free_block(
                *old(self),
                allocation_tree_index(non_zero_size as int) + 1,
                pair_start(
                    old(self).free_blocks(allocation_tree_index(non_zero_size as int)),
                    allocation_block_size(non_zero_size as int),
                    current_memory as int,
                ) as usize,
            ) ==> forall|j: int| allocation_tree_index(non_zero_size as int) + 1 < j < NUMBER_OF_BINARY_SEARCH_TREES
                ==> #[trigger] final(self).free_blocks(j) == old(self).free_blocks(j),
    {
        let block_size = Self::block_size(non_zero_size);
        let binary_search_tree_index = BinarySearchTreesWithCachedKnowledgeOfFirstChild::binary_search_tree_index(
            block_size,
        );
        proof {
            lemma_tree_block_sizes();
            lemma_power_of_two_values();
            let chosen = allocation_tree_index(non_zero_size as int);
            if chosen != binary_search_tree_index {
                crate::memory_address::lemma_power_of_two_injective(
                    (5 + chosen) as nat,
                    (5 + binary_search_tree_index) as nat,
                );
            }
        }
        self.deallocate_block(binary_search_tree_index, current_memory);
    }

    /// The first block, in ascending order of address, of set `binary_search_tree_index` that is
    /// aligned to `alignment`, or null when there is none.
    fn try_to_satisfy_allocation(&self, binary_search_tree_index: usize, alignment: usize) -> (found: NodePointer)
        requires
            self.wf(),
            binary_search_tree_index < NUMBER_OF_BINARY_SEARCH_TREES,
            alignment > 0,
        ensures
            found.address_of() == 0 ==> none_aligned(
                self.free_blocks(binary_search_tree_index as int),
                alignment as int,
            ),
            found.address_of() != 0 ==> exists|at: int|
                first_aligned_at(
                    self.free_blocks(binary_search_tree_index as int),
                    alignment as int,
                    at,
                ) && self.free_blocks(binary_search_tree_index as int)[at] == found.address_of(),
    {
        let binary_search_tree = self.binary_search_tree_for(binary_search_tree_index);
        let ghost blocks = self.free_blocks(binary_search_tree_index as int);
        proof {
            binary_search_tree.lemma_wf();
        }
        let previous_first_child = binary_search_tree.cached_first_child();
        if previous_first_child.is_not_null() {
            let tree = binary_search_tree.tree();
            let mut node_pointer = previous_first_child;
            let ghost mut at: int = 0;
            while node_pointer.is_not_null()
                invariant
                    tree.wf(),
                    tree@ == blocks,
                    blocks == self.free_blocks(binary_search_tree_index as int),
                    strictly_ascending(blocks),
                    alignment > 0,
                    0 <= at <= blocks.len(),
                    at < blocks.len() ==> node_pointer.address_of() == blocks[at],
                    at == blocks.len() ==> node_pointer.address_of() == 0,
                    forall|j: int| 0 <= j < at ==> #[trigger] blocks[j] as int % alignment as int != 0,
                decreases blocks.len() - at,
            {
                proof {
                    if at == blocks.len() {
                        assert(node_pointer.address_of() == 0);
                    }
                }
                let memory_address = node_pointer.value();
                if memory_address % alignment == 0 {
                    proof {
                        assert(first_aligned_at(blocks, alignment as int, at));
                    }
                    return node_pointer;
                }
                proof {
                    assert(blocks[at] == node_pointer.address_of());
                }
                node_pointer = tree.next(node_pointer);
                proof {
                    at = at + 1;
                }
            }
            proof {
                if at < blocks.len() {
                    assert(blocks[at] != 0);
                }
            }
        }
        NodePointer::null()
    }

    /// Allocates a block for `non_zero_size` bytes aligned to `non_zero_power_of_two_alignment`.
    ///
    /// The block comes from the set of the allocation's block size when one of its blocks is
    /// suitably aligned, the first such in ascending order of address; otherwise the first block
    /// of the next larger set that is aligned to the alignment raised to the smallest block
    /// size is split, the allocation taking its start and the rest being freed as one block of
    /// each size from the allocation's up to the split block's, each lying its own size past
    /// the start (and merging with free blocks it touches).
    /// Returns the address and the allocation's block size, the bytes it now holds.
    pub fn allocate(&mut self, non_zero_size: usize, non_zero_power_of_two_alignment: usize) -> (result: Result<(usize, usize), AllocError>)
        requires
            old(self).wf(),
            non_zero_size > 0,
            is_power_of_two(non_zero_power_of_two_alignment as int),
        ensures
            final(self).wf(),
            final(self).start() == old(self).start(),
            final(self).size() == old(self).size(),
            final(self).memory_source() == old(self).memory_source(),
            result matches Ok((_memory_address, actual_size)) ==> actual_size >= non_zero_size,
            match result {
                Ok((memory_address, actual_size)) => {
                    let exact = allocation_block_size(non_zero_size as int);
                    let index = allocation_tree_index(non_zero_size as int);
                    &&& non_zero_size <= MAXIMUM_ALLOCATION_SIZE
                    &&& non_zero_power_of_two_alignment <= MAXIMUM_ALLOCATION_SIZE
                    &&& memory_address as int % non_zero_power_of_two_alignment as int == 0
                    &&& span(memory_address as int, exact).subset_of(old(self).free_bytes())
                    &&& final(self).free_bytes() == old(self).free_bytes().difference(
                        span(memory_address as int, exact),
                    )
                    &&& actual_size == exact
                    &&& if !none_aligned(old(self).free_blocks(index), non_zero_power_of_two_alignment as int) {
                        &&& forall|j: int| 0 <= j < NUMBER_OF_BINARY_SEARCH_TREES && j != index ==> #[trigger] final(self).free_blocks(j) == old(self).free_blocks(j)
                        &&& forall|x: usize| #[trigger] final(self).free_blocks(index).contains(x)
                            <==> old(self).free_blocks(index).contains(x) && x != memory_address
                        &&& exists|at: int|
                            first_aligned_at(
                                old(self).free_blocks(index),
                                non_zero_power_of_two_alignment as int,
                                at,
                            ) && old(self).free_blocks(index)[at] == memory_address
                    } else {
                        exists|larger: int| #![trigger old(self).free_blocks(larger)]
                            index < larger < NUMBER_OF_BINARY_SEARCH_TREES && (forall|between: int|
                                index < between < larger ==> #[trigger] none_aligned(
                                    old(self).free_blocks(between),
                                    floored_alignment(non_zero_power_of_two_alignment as int),
                                )) && (exists|at: int|
                                first_aligned_at(
                                    old(self).free_blocks(larger),
                                    floored_alignment(non_zero_power_of_two_alignment as int),
                                    at,
                                ) && old(self).free_blocks(larger)[at] == memory_address)
                                && ((forall|j: int| index <= j < larger ==> !#[trigger] touches_free_block(
                                    *old(self), j, (memory_address + tree_block_size(j)) as usize))
                                ==> forall|j: int, x: usize| 0 <= j < NUMBER_OF_BINARY_SEARCH_TREES
                                    ==> (#[trigger] final(self).free_blocks(j).contains(x)
                                        <==> (old(self).free_blocks(j).contains(x) && !(j == larger && x == memory_address))
                                            || (index <= j < larger && x == memory_address + tree_block_size(j))))
                    }
                },
                Err(_) => {
                    &&& *final(self) == *old(self)
                    &&& final(self).free_bytes() == old(self).free_bytes()
                    &&& (non_zero_size > MAXIMUM_ALLOCATION_SIZE
                        || non_zero_power_of_two_alignment > MAXIMUM_ALLOCATION_SIZE || (
                    none_aligned(
                        old(self).free_blocks(allocation_tree_index(non_zero_size as int)),
                        non_zero_power_of_two_alignment as int,
                    ) && forall|larger: int|
                        allocation_tree_index(non_zero_size as int) < larger
                            < NUMBER_OF_BINARY_SEARCH_TREES ==> #[trigger] none_aligned(
                            old(self).free_blocks(larger),
                            floored_alignment(non_zero_power_of_two_alignment as int),
                        )))
                },
            },
    {
        if BinarySearchTreesWithCachedKnowledgeOfFirstChild::size_exceeds_maximum_allocation_size(non_zero_size) {
            return Err(AllocError);
        }
        if BinarySearchTreesWithCachedKnowledgeOfFirstChild::alignment_exceeds_maximum_alignment(
            non_zero_power_of_two_alignment,
        ) {
            return Err(AllocError);
        }
        proof {
            lemma_tree_block_sizes();
            lemma_power_of_two_values();
            if non_zero_power_of_two_alignment == 0 {
                let e = choose|e: nat| power_of_two(e) == non_zero_power_of_two_alignment;
                crate::memory_address::lemma_power_of_two_positive(e);
            }
        }
        let exact_block_size = Self::block_size(non_zero_size);
        let binary_search_tree_index_for_blocks_of_exact_size = BinarySearchTreesWithCachedKnowledgeOfFirstChild::binary_search_tree_index(
            exact_block_size,
        );
        let ghost index = binary_search_tree_index_for_blocks_of_exact_size as int;
        proof {
            let chosen = allocation_tree_index(non_zero_size as int);
            assert(0 <= index < NUMBER_OF_BINARY_SEARCH_TREES && tree_block_size(index)
                == allocation_block_size(non_zero_size as int));
            if chosen != index {
                crate::memory_address::lemma_power_of_two_injective(
                    (5 + chosen) as nat,
                    (5 + index) as nat,
                );
            }
        }
        let ghost before = *self;
        // (1) A block of the same size.
        let exact_node = self.try_to_satisfy_allocation(
            binary_search_tree_index_for_blocks_of_exact_size,
            non_zero_power_of_two_alignment,
        );
        if exact_node.is_not_null() {
            let memory_address = exact_node.value();
            let first = self.binary_search_tree_for(binary_search_tree_index_for_blocks_of_exact_size).cached_first_child();
            let is_cached_first_child = exact_node.value_or_null() == first.value_or_null();
            proof {
                let at = choose|at: int|
                    first_aligned_at(before.free_blocks(index), non_zero_power_of_two_alignment as int, at)
                        && before.free_blocks(index)[at] == exact_node.address_of();
                assert(before.free_blocks(index).contains(memory_address));
            }
            self.remove_free_block(
                binary_search_tree_index_for_blocks_of_exact_size,
                exact_node,
                is_cached_first_child,
            );
            return Ok((memory_address, exact_block_size));
        }
        // (2) A block of a larger size, split.
        let floored_non_zero_power_of_two_alignment = BinarySearchTreesWithCachedKnowledgeOfFirstChild::floor_alignment_to_minimum(
            non_zero_power_of_two_alignment,
        );
        proof {
            assert(is_power_of_two(MINIMUM_ALLOCATION_SIZE as int)) by {
                assert(power_of_two(5) == MINIMUM_ALLOCATION_SIZE);
            }
            if non_zero_power_of_two_alignment < MINIMUM_ALLOCATION_SIZE {
                lemma_power_of_two_above(MINIMUM_ALLOCATION_SIZE as int, non_zero_power_of_two_alignment as int);
            } else {
                vstd::arithmetic::div_mod::lemma_mod_self_0(non_zero_power_of_two_alignment as int);
            }
            assert(floored_non_zero_power_of_two_alignment as int % non_zero_power_of_two_alignment as int == 0);
        }
        let mut binary_search_tree_index_of_larger_size_block = binary_search_tree_index_for_blocks_of_exact_size + 1;
        while binary_search_tree_index_of_larger_size_block < NUMBER_OF_BINARY_SEARCH_TREES
            invariant
                *self == before,
                before == *old(self),
                non_zero_size <= MAXIMUM_ALLOCATION_SIZE,
                non_zero_power_of_two_alignment <= MAXIMUM_ALLOCATION_SIZE,
                before.wf(),
                0 <= index < binary_search_tree_index_of_larger_size_block <= NUMBER_OF_BINARY_SEARCH_TREES,
                exact_block_size == tree_block_size(index),
                exact_block_size == allocation_block_size(non_zero_size as int),
                non_zero_size <= exact_block_size,
                index == allocation_tree_index(non_zero_size as int),
                is_power_of_two(non_zero_power_of_two_alignment as int),
                0 < non_zero_power_of_two_alignment <= floored_non_zero_power_of_two_alignment,
                floored_non_zero_power_of_two_alignment as int % non_zero_power_of_two_alignment as int == 0,
                none_aligned(before.free_blocks(index), non_zero_power_of_two_alignment as int),
                floored_non_zero_power_of_two_alignment == floored_alignment(non_zero_power_of_two_alignment as int),
                floored_non_zero_power_of_two_alignment >= MINIMUM_ALLOCATION_SIZE,
                forall|between: int|
                    index < between < binary_search_tree_index_of_larger_size_block ==> #[trigger] none_aligned(
                        before.free_blocks(between),
                        floored_alignment(non_zero_power_of_two_alignment as int),
                    ),
            decreases NUMBER_OF_BINARY_SEARCH_TREES - binary_search_tree_index_of_larger_size_block,
        {
            let larger = binary_search_tree_index_of_larger_size_block;
            let block_size = BinarySearchTreesWithCachedKnowledgeOfFirstChild::binary_search_tree_index_to_block_size(larger);
            let node_pointer = self.try_to_satisfy_allocation(larger, floored_non_zero_power_of_two_alignment);
            if node_pointer.is_not_null() {
                let start_memory_address = node_pointer.value();
                let first = self.binary_search_tree_for(larger).cached_first_child();
                let is_cached_first_child = node_pointer.value_or_null() == first.value_or_null();
                proof {
                    lemma_tree_block_sizes();
                    assert(before.free_blocks(larger as int).contains(start_memory_address));
                    assert(before.is_free_block(larger as int, start_memory_address));
                    lemma_tree_block_size_increases(index, larger as int);
                }
                self.remove_free_block(larger, node_pointer, is_cached_first_child);
                let end_memory_address = start_memory_address + block_size;
                let ghost after_removal = *self;
                self.split_up_block(start_memory_address, start_memory_address, Ghost((0, 0)));
                proof {
                    assert(span(start_memory_address as int, 0) =~= Set::<int>::empty());
                    let current = self.free_bytes();
                    assert forall|byte: int| start_memory_address + exact_block_size <= byte < end_memory_address implies !#[trigger] current.contains(byte) by {
                        assert(span(start_memory_address as int, block_size as int).contains(byte));
                    }
                    assert(block_size as int % 32 == 0);
                    assert(exact_block_size as int % 32 == 0);
                    lemma_difference_of_multiples(block_size as int, exact_block_size as int, 32);
                }
                self.split_up_block(start_memory_address + exact_block_size, end_memory_address, Ghost((index, larger as int)));
                proof {
                    assert(self.free_bytes() =~= before.free_bytes().difference(
                        span(start_memory_address as int, exact_block_size as int),
                    ));
                    assert(span(start_memory_address as int, exact_block_size as int).subset_of(before.free_bytes())) by {
                        assert(span(start_memory_address as int, block_size as int).subset_of(before.free_bytes()));
                    }
                    let at = choose|at: int|
                        first_aligned_at(before.free_blocks(larger as int), floored_non_zero_power_of_two_alignment as int, at)
                            && before.free_blocks(larger as int)[at] == node_pointer.address_of();
                    vstd::arithmetic::div_mod::lemma_mod_mod(start_memory_address as int, non_zero_power_of_two_alignment as int, 1);
                    let q = floored_non_zero_power_of_two_alignment as int / non_zero_power_of_two_alignment as int;
                    vstd::arithmetic::div_mod::lemma_fundamental_div_mod(floored_non_zero_power_of_two_alignment as int, non_zero_power_of_two_alignment as int);
                    let r = start_memory_address as int / floored_non_zero_power_of_two_alignment as int;
                    vstd::arithmetic::div_mod::lemma_fundamental_div_mod(start_memory_address as int, floored_non_zero_power_of_two_alignment as int);
                    assert(start_memory_address as int == (r * q) * non_zero_power_of_two_alignment) by (nonlinear_arith)
                        requires
                            start_memory_address as int == floored_non_zero_power_of_two_alignment * r + 0,
                            floored_non_zero_power_of_two_alignment as int == non_zero_power_of_two_alignment * q + 0,
                    ;
                    vstd::arithmetic::div_mod::lemma_mod_multiples_basic(r * q, non_zero_power_of_two_alignment as int);
                    assert(start_memory_address as int % non_zero_power_of_two_alignment as int == 0);
                    assert(first_aligned_at(before.free_blocks(larger as int), floored_alignment(non_zero_power_of_two_alignment as int), at));
                    assert(index < larger < NUMBER_OF_BINARY_SEARCH_TREES && block_size == tree_block_size(larger as int));
                    assert(none_aligned(old(self).free_blocks(index), non_zero_power_of_two_alignment as int));
                    let l = larger as int;
                    if forall|j: int| index <= j < l ==> !#[trigger] touches_free_block(
                        before, j, (start_memory_address + tree_block_size(j)) as usize) {
                        assert(splits_into_doubling_blocks((start_memory_address + exact_block_size) as int, end_memory_address as int, index, l));
                        assert forall|j: int| index <= j < l implies !#[trigger] touches_free_block(
                            after_removal, j, (start_memory_address + exact_block_size - tree_block_size(index) + tree_block_size(j)) as usize) by {
                            assert(after_removal.free_blocks(j) == before.free_blocks(j));
                            assert(!touches_free_block(before, j, (start_memory_address + tree_block_size(j)) as usize));
                        }
                        assert forall|j: int, x: usize| 0 <= j < NUMBER_OF_BINARY_SEARCH_TREES implies (#[trigger] self.free_blocks(j).contains(x)
                            <==> (before.free_blocks(j).contains(x) && !(j == l && x == start_memory_address))
                                || (index <= j < l && x == start_memory_address + tree_block_size(j))) by {
                            if j != l {
                                assert(after_removal.free_blocks(j) == before.free_blocks(j));
                            }
                        }
                    }
                    assert(exists|at: int|
                        first_aligned_at(
                            old(self).free_blocks(l),
                            floored_alignment(non_zero_power_of_two_alignment as int),
                            at,
                        ) && old(self).free_blocks(l)[at] == start_memory_address);
                    assert(forall|between: int|
                        index < between < l ==> #[trigger] none_aligned(
                            old(self).free_blocks(between),
                            floored_alignment(non_zero_power_of_two_alignment as int),
                        ));
                }
                return Ok((start_memory_address, exact_block_size));
            }
            binary_search_tree_index_of_larger_size_block = binary_search_tree_index_of_larger_size_block + 1;
        }
        Err(AllocError)
    }

    /// Shrinks the allocation at `current_memory` from `non_zero_current_size` bytes to
    /// `non_zero_new_size` bytes in place, freeing the end of its block that is no longer used.
    pub fn shrinking_reallocate(&mut self, non_zero_new_size: usize, _non_zero_power_of_two_alignment: usize, non_zero_current_size: usize, current_memory: usize) -> (result: Result<(usize, usize), AllocError>)
        requires
            old(self).wf(),
            0 < non_zero_new_size <= non_zero_current_size <= MAXIMUM_ALLOCATION_SIZE,
            old(self).within(current_memory as int, allocation_block_size(non_zero_current_size as int)),
            disjoint_from(
                current_memory as int,
                allocation_block_size(non_zero_current_size as int),
                old(self).free_bytes(),
            ),
        ensures
            final(self).wf(),
            final(self).start() == old(self).start(),
            final(self).size() == old(self).size(),
            final(self).memory_source() == old(self).memory_source(),
            result == Ok::<(usize, usize), AllocError>((current_memory, allocation_block_size(non_zero_new_size as int) as usize)),
            final(self).free_bytes() == old(self).free_bytes().union(
                span(
                    current_memory + allocation_block_size(non_zero_new_size as int),
                    allocation_block_size(non_zero_current_size as int) - allocation_block_size(non_zero_new_size as int),
                ),
            ),
            allocation_tree_index(non_zero_new_size as int) == allocation_tree_index(non_zero_current_size as int)
                ==> *final(self) == *old(self),
            allocation_tree_index(non_zero_new_size as int) < allocation_tree_index(non_zero_current_size as int)
                && (forall|j: int| allocation_tree_index(non_zero_new_size as int) <= j < allocation_tree_index(non_zero_current_size as int)
                    ==> !#[trigger] touches_free_block(*old(self), j, (current_memory + tree_block_size(j)) as usize))
                ==> forall|j: int, x: usize| 0 <= j < NUMBER_OF_BINARY_SEARCH_TREES ==> (#[trigger] final(self).free_blocks(j).contains(x)
                    <==> old(self).free_blocks(j).contains(x) || (allocation_tree_index(non_zero_new_size as int) <= j
                        < allocation_tree_index(non_zero_current_size as int) && x == current_memory + tree_block_size(j))),
    {
        let old_block_size = Self::block_size(non_zero_current_size);
        let new_block_size = Self::block_size(non_zero_new_size);
        proof {
            self.lemma_bounds();
            if new_block_size > old_block_size {
                lemma_power_of_two_above(new_block_size as int, old_block_size as int);
            }
            assert(old_block_size as int % 32 == 0 && new_block_size as int % 32 == 0) by {
                lemma_power_of_two_values();
                assert(is_power_of_two(MINIMUM_ALLOCATION_SIZE as int)) by {
                    assert(power_of_two(5) == MINIMUM_ALLOCATION_SIZE);
                }
                if old_block_size > MINIMUM_ALLOCATION_SIZE {
                    lemma_power_of_two_above(old_block_size as int, MINIMUM_ALLOCATION_SIZE as int);
                }
                if new_block_size > MINIMUM_ALLOCATION_SIZE {
                    lemma_power_of_two_above(new_block_size as int, MINIMUM_ALLOCATION_SIZE as int);
                }
            }
            lemma_difference_of_multiples(old_block_size as int, new_block_size as int, 32);
        }
        proof {
            lemma_allocation_block_size(non_zero_new_size as int);
            lemma_allocation_block_size(non_zero_current_size as int);
            lemma_tree_block_sizes();
            let new_index = allocation_tree_index(non_zero_new_size as int);
            let current_index = allocation_tree_index(non_zero_current_size as int);
            if new_index == current_index {
                assert(new_block_size == old_block_size);
            }
            if current_index < new_index {
                lemma_tree_block_size_increases(current_index, new_index);
            }
        }
        self.split_up_block(
            current_memory + new_block_size,
            current_memory + old_block_size,
            Ghost((allocation_tree_index(non_zero_new_size as int), allocation_tree_index(non_zero_current_size as int))),
        );
        Ok((current_memory, new_block_size))
    }

    /// Grows the allocation at `current_memory` from `non_zero_current_size` bytes to
    /// `non_zero_new_size` bytes.
    ///
    /// It stays in place when its block is already large enough, or when the block size
    /// doubles and the free block of the old size that follows it can be taken; otherwise a new
    /// block is allocated and the old one freed (moving the contents is left to the caller,
    /// which owns the memory).
    pub fn growing_reallocate(&mut self, non_zero_new_size: usize, non_zero_power_of_two_alignment: usize, non_zero_current_size: usize, current_memory: usize) -> (result: Result<(usize, usize), AllocError>)
        requires
            old(self).wf(),
            0 < non_zero_current_size <= non_zero_new_size,
            non_zero_current_size <= MAXIMUM_ALLOCATION_SIZE,
            is_power_of_two(non_zero_power_of_two_alignment as int),
            old(self).within(current_memory as int, allocation_block_size(non_zero_current_size as int)),
            disjoint_from(
                current_memory as int,
                allocation_block_size(non_zero_current_size as int),
                old(self).free_bytes(),
            ),
        ensures
            final(self).wf(),
            final(self).start() == old(self).start(),
            final(self).size() == old(self).size(),
            final(self).memory_source() == old(self).memory_source(),
            ({
                let old_block_size = allocation_block_size(non_zero_current_size as int);
                let new_block_size = allocation_block_size(non_zero_new_size as int);
                let following = span(current_memory + old_block_size, old_block_size);
                let index = allocation_tree_index(non_zero_current_size as int);
                if non_zero_new_size <= 2 * MAXIMUM_ALLOCATION_SIZE && new_block_size == old_block_size {
                    &&& result == Ok::<(usize, usize), AllocError>((current_memory, old_block_size as usize))
                    &&& *final(self) == *old(self)
                    &&& final(self).free_bytes() == old(self).free_bytes()
                } else if non_zero_new_size <= 2 * MAXIMUM_ALLOCATION_SIZE && new_block_size == 2 * old_block_size
                    && old(self).free_blocks(index).contains((current_memory + old_block_size) as usize) {
                    &&& result == Ok::<(usize, usize), AllocError>((current_memory, new_block_size as usize))
                    &&& following.subset_of(old(self).free_bytes())
                    &&& final(self).free_bytes() == old(self).free_bytes().difference(following)
                    &&& forall|j: int| 0 <= j < NUMBER_OF_BINARY_SEARCH_TREES && j != index
                        ==> #[trigger] final(self).free_blocks(j) == old(self).free_blocks(j)
                    &&& forall|x: usize| #[trigger] final(self).free_blocks(index).contains(x)
                        <==> old(self).free_blocks(index).contains(x) && x != current_memory + old_block_size
                } else {
                    &&& match result {
                        Ok((memory_address, actual_size)) => {
                            &&& actual_size >= non_zero_new_size
                            &&& actual_size == new_block_size
                            &&& non_zero_new_size <= MAXIMUM_ALLOCATION_SIZE
                            &&& memory_address as int % non_zero_power_of_two_alignment as int == 0
                            &&& span(memory_address as int, new_block_size).subset_of(old(self).free_bytes())
                            &&& final(self).free_bytes() == old(self).free_bytes().difference(
                                span(memory_address as int, new_block_size),
                            ).union(span(current_memory as int, old_block_size))
                        },
                        Err(_) => final(self).free_bytes() == old(self).free_bytes(),
                    }
                    &&& exists|middle: Self| #[trigger] old(self).allocate_outcome(
                        &middle, non_zero_new_size, non_zero_power_of_two_alignment, result)
                        && (result is Ok ==> middle.deallocate_outcome(
                            final(self), non_zero_current_size, non_zero_power_of_two_alignment, current_memory))
                        && (result is Err ==> *final(self) == middle)
                }
            }),
    {
        let old_block_size = Self::block_size(non_zero_current_size);
        proof {
            lemma_tree_block_sizes();
            lemma_power_of_two_values();
        }
        if non_zero_new_size <= 2 * MAXIMUM_ALLOCATION_SIZE {
            let floored = BinarySearchTreesWithCachedKnowledgeOfFirstChild::floor_size_to_minimum(non_zero_new_size);
            let new_block_size = next_power_of_two(floored);
            proof {
                let chosen = allocation_block_size(non_zero_new_size as int);
                assert(is_power_of_two(new_block_size as int) && floored <= new_block_size < 2 * floored);
                assert(is_power_of_two(chosen) && floored <= chosen < 2 * floored);
                if chosen < new_block_size {
                    lemma_power_of_two_between(chosen, new_block_size as int);
                } else {
                    lemma_power_of_two_between(new_block_size as int, chosen);
                }
            }
            // (1) Within the existing block.
            if new_block_size == old_block_size {
                return Ok((current_memory, new_block_size));
            }
            // (2) Take the contiguous free block that follows, doubling the block.
            if new_block_size == 2 * old_block_size {
                let binary_search_tree_index = BinarySearchTreesWithCachedKnowledgeOfFirstChild::binary_search_tree_index(old_block_size);
                proof {
                    let chosen = allocation_tree_index(non_zero_current_size as int);
                    if chosen != binary_search_tree_index {
                        crate::memory_address::lemma_power_of_two_injective(
                            (5 + chosen) as nat,
                            (5 + binary_search_tree_index) as nat,
                        );
                    }
                }
                let binary_search_tree = self.binary_search_tree_for(binary_search_tree_index);
                let contiguous_block_node_pointer = binary_search_tree.find(current_memory + old_block_size);
                if contiguous_block_node_pointer.is_not_null() {
                    let is_first_child = contiguous_block_node_pointer.value_or_null() == binary_search_tree.cached_first_child().value_or_null();
                    self.remove_free_block(binary_search_tree_index, contiguous_block_node_pointer, is_first_child);
                    return Ok((current_memory, new_block_size));
                }
            }
        }
        // (3) A new block; the old one is freed.
        let ghost before = *self;
        let allocated = self.allocate(non_zero_new_size, non_zero_power_of_two_alignment);
        let ghost middle = *self;
        proof {
            assert(before.allocate_outcome(&middle, non_zero_new_size, non_zero_power_of_two_alignment, allocated));
        }
        let (block_to_copy_into, new_block_size) = match allocated {
            Ok(allocation) => allocation,
            Err(error) => return Err(error),
        };
        proof {
            let current = self.free_bytes();
            assert forall|byte: int| current_memory <= byte < current_memory + old_block_size implies !#[trigger] current.contains(byte) by {
                assert(!before.free_bytes().contains(byte));
            }
        }
        self.deallocate(non_zero_current_size, non_zero_power_of_two_alignment, current_memory);
        proof {
            assert(middle.deallocate_outcome(self, non_zero_current_size, non_zero_power_of_two_alignment, current_memory));
        }
        Ok((block_to_copy_into, new_block_size))
    }

    /// An allocator over the `memory_source_size` bytes at `allocations_start_from`, which
    /// `memory_source` handed out.
    ///
    /// The memory is cut, from its start, into the largest blocks that fit; a remainder smaller
    /// than the smallest block is not used.
    pub fn new_with_memory(memory_source: MS, allocations_start_from: usize, memory_source_size: usize) -> (allocator: Self)
        requires
            allocations_start_from > 0,
            allocations_start_from + memory_source_size <= usize::MAX,
        ensures
            allocator.wf(),
            allocator.start() == allocations_start_from,
            allocator.size() == memory_source_size,
            allocator.free_bytes() == span(
                allocations_start_from as int,
                memory_source_size - memory_source_size % MINIMUM_ALLOCATION_SIZE,
            ),
            forall|index: int, address: usize| 0 <= index < NUMBER_OF_BINARY_SEARCH_TREES ==>
                (#[trigger] allocator.free_blocks(index).contains(address)
                    <==> initially_free(allocations_start_from as int, memory_source_size as int, index, address as int)),
            allocator.memory_source() == memory_source,
    {
        let ghost given = memory_source;
        let mut this = MultipleBinarySearchTreeAllocator {
            inner: BinarySearchTreesWithCachedKnowledgeOfFirstChild::new(),
            memory_source,
            allocations_start_from,
            memory_source_size,
        };
        proof {
            lemma_tree_block_sizes();
            assert forall|j: int, x: usize| !#[trigger] this.is_free_block(j, x) by {
                if 0 <= j < NUMBER_OF_BINARY_SEARCH_TREES {
                    assert(this.inner.tree(j).len() == 0);
                }
            }
            assert(this.free_bytes() =~= span(allocations_start_from as int, 0));
        }
        let mut memory_address = allocations_start_from;
        let mut size = memory_source_size;
        let mut last_binary_search_tree_index = NUMBER_OF_BINARY_SEARCH_TREES;
        while last_binary_search_tree_index > 0
            invariant
                this.wf(),
                this.start() == allocations_start_from,
                this.memory_source() == given,
                this.size() == memory_source_size,
                allocations_start_from <= memory_address,
                memory_address - allocations_start_from + size == memory_source_size,
                (memory_address - allocations_start_from) % (MINIMUM_ALLOCATION_SIZE as int) == 0,
                last_binary_search_tree_index <= NUMBER_OF_BINARY_SEARCH_TREES,
                last_binary_search_tree_index < NUMBER_OF_BINARY_SEARCH_TREES ==> size < tree_block_size(last_binary_search_tree_index as int),
                this.free_bytes() == span(allocations_start_from as int, memory_address - allocations_start_from),
                tree_block_size(0) == MINIMUM_ALLOCATION_SIZE,
                forall|j: int, x: usize| last_binary_search_tree_index <= j < NUMBER_OF_BINARY_SEARCH_TREES ==>
                    (#[trigger] this.free_blocks(j).contains(x)
                        <==> initially_free(allocations_start_from as int, memory_source_size as int, j, x as int)),
                forall|j: int, x: usize| 0 <= j < last_binary_search_tree_index ==> !#[trigger] this.free_blocks(j).contains(x),
                last_binary_search_tree_index == NUMBER_OF_BINARY_SEARCH_TREES ==> size == memory_source_size,
                last_binary_search_tree_index < NUMBER_OF_BINARY_SEARCH_TREES
                    ==> size == memory_source_size as int % tree_block_size(last_binary_search_tree_index as int),
            ensures
                this.wf(),
                this.start() == allocations_start_from,
                this.memory_source() == given,
                this.size() == memory_source_size,
                allocations_start_from <= memory_address,
                memory_address - allocations_start_from + size == memory_source_size,
                (memory_address - allocations_start_from) % (MINIMUM_ALLOCATION_SIZE as int) == 0,
                this.free_bytes() == span(allocations_start_from as int, memory_address - allocations_start_from),
                size < MINIMUM_ALLOCATION_SIZE,
                forall|j: int, x: usize| 0 <= j < NUMBER_OF_BINARY_SEARCH_TREES ==>
                    (#[trigger] this.free_blocks(j).contains(x)
                        <==> initially_free(allocations_start_from as int, memory_source_size as int, j, x as int)),
            decreases last_binary_search_tree_index,
        {
            let binary_search_tree_index = last_binary_search_tree_index - 1;
            let block_size = BinarySearchTreesWithCachedKnowledgeOfFirstChild::binary_search_tree_index_to_block_size(
                binary_search_tree_index,
            );
            proof {
                lemma_tree_block_sizes();
            }
            if size < block_size {
                if BinarySearchTreesWithCachedKnowledgeOfFirstChild::size_is_less_than_minimum_allocation_size(size) {
                    proof {
                        assert forall|j: int, x: usize| 0 <= j < NUMBER_OF_BINARY_SEARCH_TREES implies
                            (#[trigger] this.free_blocks(j).contains(x)
                                <==> initially_free(allocations_start_from as int, memory_source_size as int, j, x as int)) by {
                            if j < last_binary_search_tree_index {
                                lemma_initial_no_block(allocations_start_from as int, memory_source_size as int,
                                    last_binary_search_tree_index as int, size as int, j, x as int);
                            }
                        }
                    }
                    break;
                }
                proof {
                    assert forall|x: usize| !initially_free(allocations_start_from as int, memory_source_size as int, binary_search_tree_index as int, x as int) by {
                        lemma_initial_no_block(allocations_start_from as int, memory_source_size as int,
                            last_binary_search_tree_index as int, size as int, binary_search_tree_index as int, x as int);
                    }
                    if last_binary_search_tree_index == NUMBER_OF_BINARY_SEARCH_TREES {
                        vstd::arithmetic::div_mod::lemma_small_mod(size as nat, block_size as nat);
                    } else {
                        vstd::arithmetic::div_mod::lemma_mod_mod(memory_source_size as int, block_size as int, 2);
                        vstd::arithmetic::div_mod::lemma_small_mod(size as nat, block_size as nat);
                    }
                }
                last_binary_search_tree_index = binary_search_tree_index;
                continue;
            }
            let ghost level_start = memory_address;
            let ghost size_at_level_start = size;
            let ghost before_level = this;
            proof {
                if last_binary_search_tree_index == NUMBER_OF_BINARY_SEARCH_TREES {
                    assert(memory_address == allocations_start_from);
                }
            }
            loop
                invariant_except_break
                    size >= block_size,
                invariant
                    this.wf(),
                    this.start() == allocations_start_from,
                    this.memory_source() == given,
                    this.size() == memory_source_size,
                    binary_search_tree_index < NUMBER_OF_BINARY_SEARCH_TREES,
                    block_size == tree_block_size(binary_search_tree_index as int),
                    block_size % MINIMUM_ALLOCATION_SIZE == 0,
                    block_size > 0,
                    allocations_start_from <= memory_address,
                    memory_address - allocations_start_from + size == memory_source_size,
                    (memory_address - allocations_start_from) % (MINIMUM_ALLOCATION_SIZE as int) == 0,
                    this.free_bytes() == span(allocations_start_from as int, memory_address - allocations_start_from),
                    level_start <= memory_address,
                    memory_address - level_start == size_at_level_start - size,
                    (memory_address - level_start) % (block_size as int) == 0,
                    binary_search_tree_index < NUMBER_OF_BINARY_SEARCH_TREES - 1 ==> memory_address <= level_start + block_size
                        && size_at_level_start < 2 * block_size,
                    forall|x: usize| #[trigger] this.free_blocks(binary_search_tree_index as int).contains(x)
                        <==> (level_start <= x < memory_address && (x - level_start) % (block_size as int) == 0),
                    forall|j: int| 0 <= j < NUMBER_OF_BINARY_SEARCH_TREES && j != binary_search_tree_index
                        ==> #[trigger] this.free_blocks(j) == before_level.free_blocks(j),
                ensures
                    size < block_size,
                decreases size,
            {
                proof {
                    let current = this.free_bytes();
                    assert forall|byte: int| memory_address <= byte < memory_address + block_size implies !#[trigger] current.contains(byte) by {}
                }
                proof {
                    if binary_search_tree_index < NUMBER_OF_BINARY_SEARCH_TREES - 1 && memory_address > level_start {
                        lemma_multiples_apart(0, memory_address - level_start, block_size as int);
                    }
                }
                this.insert_free_block(binary_search_tree_index, memory_address);
                proof {
                    assert(this.free_bytes() =~= span(allocations_start_from as int, memory_address + block_size - allocations_start_from));
                    lemma_difference_of_multiples((memory_address + block_size - allocations_start_from) as int, block_size as int, MINIMUM_ALLOCATION_SIZE as int);
                    lemma_next_multiple(memory_address - level_start, block_size as int);
                    assert forall|x: usize| #[trigger] this.free_blocks(binary_search_tree_index as int).contains(x)
                        <==> (level_start <= x < memory_address + block_size && (x - level_start) % (block_size as int) == 0) by {
                        if level_start <= x < memory_address + block_size && (x - level_start) % (block_size as int) == 0 && x > memory_address {
                            lemma_multiples_apart(memory_address - level_start, x - level_start, block_size as int);
                        }
                    }
                }
                memory_address = memory_address + block_size;
                size = size - block_size;
                if !(size >= block_size) {
                    break;
                }
            }
            proof {
                if binary_search_tree_index == NUMBER_OF_BINARY_SEARCH_TREES - 1 {
                    lemma_initial_largest_blocks(allocations_start_from as int, memory_source_size as int,
                        memory_address - allocations_start_from, size as int);
                } else {
                    lemma_initial_smaller_block(allocations_start_from as int, memory_source_size as int,
                        binary_search_tree_index as int, level_start as int, memory_address as int,
                        size_at_level_start as int, size as int);
                }
                assert forall|j: int, x: usize| binary_search_tree_index <= j < NUMBER_OF_BINARY_SEARCH_TREES implies
                    (#[trigger] this.free_blocks(j).contains(x)
                        <==> initially_free(allocations_start_from as int, memory_source_size as int, j, x as int)) by {
                    if j == binary_search_tree_index {
                        assert(this.free_blocks(j).contains(x) <==> (level_start <= x < memory_address && (x - level_start) % (block_size as int) == 0));
                    } else {
                        assert(this.free_blocks(j) == before_level.free_blocks(j));
                    }
                }
                assert forall|j: int, x: usize| 0 <= j < binary_search_tree_index implies !#[trigger] this.free_blocks(j).contains(x) by {
                    assert(this.free_blocks(j) == before_level.free_blocks(j));
                }
            }
            last_binary_search_tree_index = binary_search_tree_index;
        }
        proof {
            let filled = memory_address - allocations_start_from;
            assert(size < MINIMUM_ALLOCATION_SIZE);
            vstd::arithmetic::div_mod::lemma_fundamental_div_mod(filled as int, MINIMUM_ALLOCATION_SIZE as int);
            let quotient = filled as int / MINIMUM_ALLOCATION_SIZE as int;
            assert(memory_source_size as int == quotient * MINIMUM_ALLOCATION_SIZE + size);
            vstd::arithmetic::div_mod::lemma_fundamental_div_mod_converse(
                memory_source_size as int,
                MINIMUM_ALLOCATION_SIZE as int,
                quotient,
                size as int,
            );
        }
        this
    }

    /// An allocator over `memory_source_size` bytes obtained from `memory_source`.
    ///
    /// Fails when the memory source does.
    pub fn new(memory_source: MS, memory_source_size: usize) -> (result: Result<Self, AllocError>)
        requires
            memory_source_size > 0,
            memory_source.can_obtain(memory_source_size),
        ensures
            match result {
                Ok(allocator) => {
                    &&& allocator.wf()
                    &&& allocator.size() == memory_source_size
                    &&& allocator.free_bytes() == span(
                        allocator.start(),
                        memory_source_size - memory_source_size % MINIMUM_ALLOCATION_SIZE,
                    )
                    &&& forall|index: int, address: usize| 0 <= index < NUMBER_OF_BINARY_SEARCH_TREES ==>
                        (#[trigger] allocator.free_blocks(index).contains(address)
                            <==> initially_free(allocator.start(), memory_source_size as int, index, address as int))
                },
                Err(_) => true,
            },
            exists|after: MS, obtained: Result<usize, AllocError>|
                #[trigger] memory_source.obtain_outcome(&after, memory_source_size, obtained)
                    && (obtained is Err <==> result is Err)
                    && (obtained matches Ok(start) ==> result matches Ok(made) && made.start() == start
                        && made.memory_source() == after),
    {
        let ghost given = memory_source;
        let mut memory_source = memory_source;
        let obtained = memory_source.obtain(memory_source_size);
        proof {
            assert(given.obtain_outcome(&memory_source, memory_source_size, obtained));
        }
        let allocations_start_from = match obtained {
            Ok(address) => address,
            Err(error) => return Err(error),
        };
        Ok(Self::new_with_memory(memory_source, allocations_start_from, memory_source_size))
    }

    /// Gives the managed memory back to the source it came from, and hands back that source.
    pub fn release_memory(self) -> (memory_source: MS)
        requires
            self.wf(),
            self.size() > 0,
            self.memory_source().can_release(self.size() as usize, self.start() as usize),
        ensures
            self.memory_source().release_outcome(&memory_source, self.size() as usize, self.start() as usize),
    {
        let mut memory_source = self.memory_source;
        memory_source.release(self.memory_source_size, self.allocations_start_from);
        memory_source
    }

    /// Every free byte lies in the managed memory.
    pub proof fn lemma_free_bytes_in_memory(&self)
        requires
            self.wf(),
        ensures
            self.free_bytes().subset_of(span(self.start(), self.size())),
    {
        assert forall|byte: int| #[trigger] self.free_bytes().contains(byte) implies span(self.start(), self.size()).contains(byte) by {
            let (index, address) = choose|index: int, address: usize|
                #[trigger] self.is_free_block(index, address) && address <= byte < address + tree_block_size(index);
            assert(self.is_free_block(index, address));
        }
    }

    /// Freeing an allocation gives back the free bytes from before it was made.
    pub proof fn lemma_deallocate_undoes_allocate(before: Self, allocated: Self, freed: Self, address: int, size: int)
        requires
            span(address, allocation_block_size(size)).subset_of(before.free_bytes()),
            allocated.free_bytes() == before.free_bytes().difference(span(address, allocation_block_size(size))),
            freed.free_bytes() == allocated.free_bytes().union(span(address, allocation_block_size(size))),
        ensures
            freed.free_bytes() == before.free_bytes(),
    {
        assert(freed.free_bytes() =~= before.free_bytes());
    }

    /// Taking a block from the set of the allocation's own size and giving it back, when no
    /// free block of that size touches it, leaves the same free blocks of every size.
    pub proof fn lemma_deallocate_undoes_exact_allocate(
        before: Self,
        allocated: Self,
        freed: Self,
        non_zero_size: usize,
        non_zero_power_of_two_alignment: usize,
        address: usize,
    )
        requires
            non_zero_size > 0,
            before.allocate_outcome(
                &allocated,
                non_zero_size,
                non_zero_power_of_two_alignment,
                Ok((address, allocation_block_size(non_zero_size as int) as usize)),
            ),
            !none_aligned(before.free_blocks(allocation_tree_index(non_zero_size as int)), non_zero_power_of_two_alignment as int),
            allocated.deallocate_outcome(&freed, non_zero_size, non_zero_power_of_two_alignment, address),
            !touches_free_block(allocated, allocation_tree_index(non_zero_size as int), address),
        ensures
            forall|j: int, x: usize| 0 <= j < NUMBER_OF_BINARY_SEARCH_TREES
                ==> (#[trigger] freed.free_blocks(j).contains(x) <==> before.free_blocks(j).contains(x)),
    {
        let index = allocation_tree_index(non_zero_size as int);
        let exact = allocation_block_size(non_zero_size as int);
        lemma_allocation_block_size(non_zero_size as int);
        let at = choose|at: int|
            first_aligned_at(before.free_blocks(index), non_zero_power_of_two_alignment as int, at)
                && before.free_blocks(index)[at] == address;
        assert(before.free_blocks(index).contains(address));
        assert forall|j: int, x: usize| 0 <= j < NUMBER_OF_BINARY_SEARCH_TREES
            implies (#[trigger] freed.free_blocks(j).contains(x) <==> before.free_blocks(j).contains(x)) by {
            if j != index {
                assert(freed.free_blocks(j) == allocated.free_blocks(j));
                assert(allocated.free_blocks(j) == before.free_blocks(j));
            } else {
                assert(freed.free_blocks(j).contains(x) <==> allocated.free_blocks(j).contains(x) || x == address);
                assert(allocated.free_blocks(j).contains(x) <==> before.free_blocks(j).contains(x) && x != address);
            }
        }
    }

    /// Two allocations in a row never share a byte.
    pub proof fn lemma_allocations_are_disjoint(before: Self, first: Self, first_address: int, first_size: int, second_address: int, second_size: int)
        requires
            first.free_bytes() == before.free_bytes().difference(span(first_address, allocation_block_size(first_size))),
            span(second_address, allocation_block_size(second_size)).subset_of(first.free_bytes()),
        ensures
            span(first_address, allocation_block_size(first_size)).disjoint(
                span(second_address, allocation_block_size(second_size)),
            ),
    {
        let earlier = span(first_address, allocation_block_size(first_size));
        let later = span(second_address, allocation_block_size(second_size));
        assert forall|byte: int| earlier.contains(byte) implies !later.contains(byte) by {
            assert(!first.free_bytes().contains(byte));
        }
    }
}

impl<MS: MemorySource> Allocator for MultipleBinarySearchTreeAllocator<MS> {
    open spec fn valid(&self) -> bool {
        self.wf()
    }

    open spec fn accepts(&self, non_zero_size: usize, non_zero_power_of_two_alignment: usize) -> bool {
        true
    }

    open spec fn accepts_growth(&self, non_zero_new_size: usize, non_zero_power_of_two_alignment: usize, current_memory: usize) -> bool {
        true
    }

    open spec fn holds(&self, non_zero_size: usize, non_zero_power_of_two_alignment: usize, current_memory: usize) -> bool {
        &&& 0 < non_zero_size <= MAXIMUM_ALLOCATION_SIZE
        &&& self.within(current_memory as int, allocation_block_size(non_zero_size as int))
        &&& disjoint_from(current_memory as int, allocation_block_size(non_zero_size as int), self.free_bytes())
    }

    fn takes(&self, non_zero_size: usize, non_zero_power_of_two_alignment: usize) -> (taken: bool) {
        true
    }

    fn takes_growth(&self, non_zero_new_size: usize, non_zero_power_of_two_alignment: usize, current_memory: usize) -> (taken: bool) {
        true
    }

    /// What allocating gives.
    open spec fn allocate_outcome(&self, after: &Self, non_zero_size: usize, non_zero_power_of_two_alignment: usize, result: Result<(usize, usize), AllocError>) -> bool {
        &&& after.start() == self.start()
        &&& after.memory_source() == self.memory_source()
        &&& after.size() == self.size()
        &&& result matches Ok((_memory_address, actual_size)) ==> actual_size >= non_zero_size
        &&& match result {
            Ok((memory_address, actual_size)) => {
                let exact = allocation_block_size(non_zero_size as int);
                let index = allocation_tree_index(non_zero_size as int);
                &&& non_zero_size <= MAXIMUM_ALLOCATION_SIZE
                &&& non_zero_power_of_two_alignment <= MAXIMUM_ALLOCATION_SIZE
                &&& memory_address as int % non_zero_power_of_two_alignment as int == 0
                &&& span(memory_address as int, exact).subset_of(self.free_bytes())
                &&& after.free_bytes() == self.free_bytes().difference(
                    span(memory_address as int, exact),
                )
                &&& actual_size == exact
                &&& if !none_aligned(self.free_blocks(index), non_zero_power_of_two_alignment as int) {
                    &&& forall|j: int| 0 <= j < NUMBER_OF_BINARY_SEARCH_TREES && j != index ==> #[trigger] after.free_blocks(j) == self.free_blocks(j)
                    &&& forall|x: usize| #[trigger] after.free_blocks(index).contains(x)
                        <==> self.free_blocks(index).contains(x) && x != memory_address
                    &&& exists|at: int|
                        first_aligned_at(
                            self.free_blocks(index),
                            non_zero_power_of_two_alignment as int,
                            at,
                        ) && self.free_blocks(index)[at] == memory_address
                } else {
                    exists|larger: int| #![trigger self.free_blocks(larger)]
                        index < larger < NUMBER_OF_BINARY_SEARCH_TREES && (forall|between: int|
                            index < between < larger ==> #[trigger] none_aligned(
                                self.free_blocks(between),
                                floored_alignment(non_zero_power_of_two_alignment as int),
                            )) && (exists|at: int|
                            first_aligned_at(
                                self.free_blocks(larger),
                                floored_alignment(non_zero_power_of_two_alignment as int),
                                at,
                            ) && self.free_blocks(larger)[at] == memory_address)
                            && ((forall|j: int| index <= j < larger ==> !#[trigger] touches_free_block(
                                *self, j, (memory_address + tree_block_size(j)) as usize))
                            ==> forall|j: int, x: usize| 0 <= j < NUMBER_OF_BINARY_SEARCH_TREES
                                ==> (#[trigger] after.free_blocks(j).contains(x)
                                    <==> (self.free_blocks(j).contains(x) && !(j == larger && x == memory_address))
                                        || (index <= j < larger && x == memory_address + tree_block_size(j))))
                }
            },
            Err(_) => {
                &&& *after == *self
                &&& after.free_bytes() == self.free_bytes()
                &&& (non_zero_size > MAXIMUM_ALLOCATION_SIZE
                    || non_zero_power_of_two_alignment > MAXIMUM_ALLOCATION_SIZE || (
                none_aligned(
                    self.free_blocks(allocation_tree_index(non_zero_size as int)),
                    non_zero_power_of_two_alignment as int,
                ) && forall|larger: int|
                    allocation_tree_index(non_zero_size as int) < larger
                        < NUMBER_OF_BINARY_SEARCH_TREES ==> #[trigger] none_aligned(
                        self.free_blocks(larger),
                        floored_alignment(non_zero_power_of_two_alignment as int),
                    )))
            },
        }
    }

    /// What taking back an allocation gives.
    open spec fn deallocate_outcome(&self, after: &Self, non_zero_size: usize, non_zero_power_of_two_alignment: usize, current_memory: usize) -> bool {
        &&& after.start() == self.start()
        &&& after.memory_source() == self.memory_source()
        &&& after.size() == self.size()
        &&& after.free_bytes() == self.free_bytes().union(
            span(current_memory as int, allocation_block_size(non_zero_size as int)),
        )
        &&& exists|grown: Seq<usize>| #[trigger] freed_into(
            self.free_blocks(allocation_tree_index(non_zero_size as int)),
            grown,
            after.free_blocks(allocation_tree_index(non_zero_size as int)),
            allocation_tree_index(non_zero_size as int),
            allocation_block_size(non_zero_size as int),
            current_memory,
        )
        &&& forall|j: int| 0 <= j < allocation_tree_index(non_zero_size as int) ==> #[trigger] after.free_blocks(j) == self.free_blocks(j)
        &&& !touches_free_block(*self, allocation_tree_index(non_zero_size as int), current_memory) ==> forall|x: usize|
            #[trigger] after.free_blocks(allocation_tree_index(non_zero_size as int)).contains(x)
                <==> self.free_blocks(allocation_tree_index(non_zero_size as int)).contains(x) || x == current_memory
        &&& !touches_free_block(*self, allocation_tree_index(non_zero_size as int), current_memory)
            || allocation_tree_index(non_zero_size as int) == NUMBER_OF_BINARY_SEARCH_TREES - 1
            ==> forall|j: int| 0 <= j < NUMBER_OF_BINARY_SEARCH_TREES && j != allocation_tree_index(non_zero_size as int) ==> #[trigger] after.free_blocks(j) == self.free_blocks(j)
        &&& allocation_tree_index(non_zero_size as int) < NUMBER_OF_BINARY_SEARCH_TREES - 1 && pairs_with_one_neighbour(
            self.free_blocks(allocation_tree_index(non_zero_size as int)),
            allocation_block_size(non_zero_size as int),
            current_memory as int,
        ) ==> exists|grown: Seq<usize>| #[trigger] freed_into(
            self.free_blocks(allocation_tree_index(non_zero_size as int) + 1),
            grown,
            after.free_blocks(allocation_tree_index(non_zero_size as int) + 1),
            allocation_tree_index(non_zero_size as int) + 1,
            2 * allocation_block_size(non_zero_size as int),
            pair_start(
                self.free_blocks(allocation_tree_index(non_zero_size as int)),
                allocation_block_size(non_zero_size as int),
                current_memory as int,
            ) as usize,
        )
        &&& allocation_tree_index(non_zero_size as int) < NUMBER_OF_BINARY_SEARCH_TREES - 1 && pairs_with_one_neighbour(
            self.free_blocks(allocation_tree_index(non_zero_size as int)),
            allocation_block_size(non_zero_size as int),
            current_memory as int,
        ) && !touches_free_block(
            *self,
            allocation_tree_index(non_zero_size as int) + 1,
            pair_start(
                self.free_blocks(allocation_tree_index(non_zero_size as int)),
                allocation_block_size(non_zero_size as int),
                current_memory as int,
            ) as usize,
        ) ==> forall|j: int| allocation_tree_index(non_zero_size as int) + 1 < j < NUMBER_OF_BINARY_SEARCH_TREES
            ==> #[trigger] after.free_blocks(j) == self.free_blocks(j)
    }

    /// What growing an allocation gives.
    open spec fn grow_outcome(&self, after: &Self, non_zero_new_size: usize, non_zero_power_of_two_alignment: usize, non_zero_current_size: usize, current_memory: usize, result: Result<(usize, usize), AllocError>) -> bool {
        &&& after.start() == self.start()
        &&& after.memory_source() == self.memory_source()
        &&& after.size() == self.size()
        &&& ({
            let old_block_size = allocation_block_size(non_zero_current_size as int);
            let new_block_size = allocation_block_size(non_zero_new_size as int);
            let following = span(current_memory + old_block_size, old_block_size);
            let index = allocation_tree_index(non_zero_current_size as int);
            if non_zero_new_size <= 2 * MAXIMUM_ALLOCATION_SIZE && new_block_size == old_block_size {
                &&& result == Ok::<(usize, usize), AllocError>((current_memory, old_block_size as usize))
                &&& *after == *self
                &&& after.free_bytes() == self.free_bytes()
            } else if non_zero_new_size <= 2 * MAXIMUM_ALLOCATION_SIZE && new_block_size == 2 * old_block_size
                && self.free_blocks(index).contains((current_memory + old_block_size) as usize) {
                &&& result == Ok::<(usize, usize), AllocError>((current_memory, new_block_size as usize))
                &&& following.subset_of(self.free_bytes())
                &&& after.free_bytes() == self.free_bytes().difference(following)
                &&& forall|j: int| 0 <= j < NUMBER_OF_BINARY_SEARCH_TREES && j != index
                    ==> #[trigger] after.free_blocks(j) == self.free_blocks(j)
                &&& forall|x: usize| #[trigger] after.free_blocks(index).contains(x)
                    <==> self.free_blocks(index).contains(x) && x != current_memory + old_block_size
            } else {
                &&& match result {
                    Ok((memory_address, actual_size)) => {
                        &&& actual_size >= non_zero_new_size
                        &&& actual_size == new_block_size
                        &&& non_zero_new_size <= MAXIMUM_ALLOCATION_SIZE
                        &&& memory_address as int % non_zero_power_of_two_alignment as int == 0
                        &&& span(memory_address as int, new_block_size).subset_of(self.free_bytes())
                        &&& after.free_bytes() == self.free_bytes().difference(
                            span(memory_address as int, new_block_size),
                        ).union(span(current_memory as int, old_block_size))
                    },
                    Err(_) => after.free_bytes() == self.free_bytes(),
                }
                &&& exists|middle: Self| #[trigger] self.allocate_outcome(
                    &middle, non_zero_new_size, non_zero_power_of_two_alignment, result)
                    && (result is Ok ==> middle.deallocate_outcome(
                        after, non_zero_current_size, non_zero_power_of_two_alignment, current_memory))
                    && (result is Err ==> *after == middle)
            }
        })
    }

    /// What shrinking an allocation gives.
    open spec fn shrink_outcome(&self, after: &Self, non_zero_new_size: usize, non_zero_power_of_two_alignment: usize, non_zero_current_size: usize, current_memory: usize, result: Result<(usize, usize), AllocError>) -> bool {
        &&& after.start() == self.start()
        &&& after.memory_source() == self.memory_source()
        &&& after.size() == self.size()
        &&& result == Ok::<(usize, usize), AllocError>((current_memory, allocation_block_size(non_zero_new_size as int) as usize))
        &&& after.free_bytes() == self.free_bytes().union(
            span(
                current_memory + allocation_block_size(non_zero_new_size as int),
                allocation_block_size(non_zero_current_size as int) - allocation_block_size(non_zero_new_size as int),
            ),
        )
        &&& allocation_tree_index(non_zero_new_size as int) == allocation_tree_index(non_zero_current_size as int)
            ==> *after == *self
        &&& allocation_tree_index(non_zero_new_size as int) < allocation_tree_index(non_zero_current_size as int)
            && (forall|j: int| allocation_tree_index(non_zero_new_size as int) <= j < allocation_tree_index(non_zero_current_size as int)
                ==> !#[trigger] touches_free_block(*self, j, (current_memory + tree_block_size(j)) as usize))
            ==> forall|j: int, x: usize| 0 <= j < NUMBER_OF_BINARY_SEARCH_TREES ==> (#[trigger] after.free_blocks(j).contains(x)
                <==> self.free_blocks(j).contains(x) || (allocation_tree_index(non_zero_new_size as int) <= j
                    < allocation_tree_index(non_zero_current_size as int) && x == current_memory + tree_block_size(j)))
    }

    fn allocate(&mut self, non_zero_size: usize, non_zero_power_of_two_alignment: usize) -> (result: Result<(usize, usize), AllocError>) {
        let result = MultipleBinarySearchTreeAllocator::allocate(self, non_zero_size, non_zero_power_of_two_alignment);
        proof {
            assert(old(self).allocate_outcome(self, non_zero_size, non_zero_power_of_two_alignment, result));
        }
        result
    }

    fn deallocate(&mut self, non_zero_size: usize, non_zero_power_of_two_alignment: usize, current_memory: usize) {
        MultipleBinarySearchTreeAllocator::deallocate(self, non_zero_size, non_zero_power_of_two_alignment, current_memory);
        proof {
            assert(old(self).deallocate_outcome(self, non_zero_size, non_zero_power_of_two_alignment, current_memory));
        }
    }

    fn growing_reallocate(&mut self, non_zero_new_size: usize, non_zero_power_of_two_alignment: usize, non_zero_current_size: usize, current_memory: usize) -> (result: Result<(usize, usize), AllocError>) {
        let result = MultipleBinarySearchTreeAllocator::growing_reallocate(self, non_zero_new_size, non_zero_power_of_two_alignment, non_zero_current_size, current_memory);
        proof {
            lemma_allocation_block_size(non_zero_new_size as int);
            lemma_allocation_block_size(non_zero_current_size as int);
            assert(old(self).grow_outcome(self, non_zero_new_size, non_zero_power_of_two_alignment, non_zero_current_size, current_memory, result));
        }
        result
    }

    fn shrinking_reallocate(&mut self, non_zero_new_size: usize, non_zero_power_of_two_alignment: usize, non_zero_current_size: usize, current_memory: usize) -> (result: Result<(usize, usize), AllocError>) {
        proof {
            lemma_allocation_block_size(non_zero_new_size as int);
        }
        let result = MultipleBinarySearchTreeAllocator::shrinking_reallocate(self, non_zero_new_size, non_zero_power_of_two_alignment, non_zero_current_size, current_memory);
        proof {
            assert(old(self).shrink_outcome(self, non_zero_new_size, non_zero_power_of_two_alignment, non_zero_current_size, current_memory, result));
        }
        result
    }
}

impl<MS: MemorySource> LocalAllocator for MultipleBinarySearchTreeAllocator<MS> {
    open spec fn range(&self) -> MemoryRange {
        MemoryRange { from: self.start() as usize, to: (self.start() + self.size()) as usize }
    }

    fn memory_range(&self) -> (range: MemoryRange) {
        MemoryRange::new(self.allocations_start_from, self.allocations_start_from + self.memory_source_size)
    }
}

} // verus!
