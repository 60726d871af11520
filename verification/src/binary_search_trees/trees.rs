//! One set of free blocks for each power-of-two block size from 32 bytes up to 1 MiB.
use vstd::prelude::*;
use crate::binary_search_trees::cached_first_child::BinarySearchTreeWithCachedKnowledgeOfFirstChild;
use crate::binary_search_trees::red_black_tree::{NodePointer, strictly_ascending};
use crate::memory_address::{
    is_power_of_two,
    lemma_power_of_two_injective,
    lemma_power_of_two_monotonic,
    lemma_power_of_two_values,
    logarithm_base2,
    power_of_two,
    power_of_two_usize,
    smallest_power_of_two_difference,
};

verus! {

/// The base-2 logarithm of the smallest block size, which is the size of a tree node.
pub const SMALLEST_INCLUSIVE_POWER_OF_TWO_EXPONENT: usize = 5;

/// The number of block sizes, one set of free blocks each.
pub const NUMBER_OF_BINARY_SEARCH_TREES: usize = 16;

/// The smallest block size, in bytes.
pub const MINIMUM_ALLOCATION_SIZE: usize = 32;

/// The largest block size, in bytes.
pub const MAXIMUM_ALLOCATION_SIZE: usize = 0x10_0000;

/// The smallest alignment that blocks are searched with.
pub const MINIMUM_ALIGNMENT: usize = 32;

/// The largest alignment that can be asked for.
pub const MAXIMUM_ALIGNMENT: usize = 0x10_0000;

/// The block size, in bytes, of the set at `index`.
pub open spec fn tree_block_size(index: int) -> int {
    power_of_two((SMALLEST_INCLUSIVE_POWER_OF_TWO_EXPONENT + index) as nat) as int
}

/// Facts about the block sizes of the sets.
pub proof fn lemma_tree_block_sizes()
    ensures
        tree_block_size(0) == MINIMUM_ALLOCATION_SIZE,
        tree_block_size(15) == MAXIMUM_ALLOCATION_SIZE,
        forall|index: int| 0 <= index < 16 ==> #[trigger] tree_block_size(index) >= 32,
        forall|index: int| 0 <= index < 16 ==> #[trigger] tree_block_size(index) <= 0x10_0000,
        forall|index: int|
            0 <= index < 15 ==> #[trigger] tree_block_size(index + 1) == 2 * tree_block_size(
                index,
            ),
        forall|index: int| 0 <= index < 16 ==> #[trigger] tree_block_size(index) % 32 == 0,
        forall|index: int|
            0 <= index < 16 ==> 0x10_0000int % #[trigger] tree_block_size(index) == 0,
{
    lemma_power_of_two_values();
    assert forall|index: int| 0 <= index < 16 implies #[trigger] tree_block_size(index) >= 32
        && tree_block_size(index) <= 0x10_0000 by {
        lemma_power_of_two_monotonic(5, (5 + index) as nat);
        lemma_power_of_two_monotonic((5 + index) as nat, 20);
    }
    assert forall|index: int| 0 <= index < 16 implies #[trigger] tree_block_size(index) % 32
        == 0 && 0x10_0000int % tree_block_size(index) == 0 by {
        crate::memory_address::lemma_power_of_two_divides(5, (5 + index) as nat);
        crate::memory_address::lemma_power_of_two_divides((5 + index) as nat, 20);
    }
    assert forall|index: int| 0 <= index < 15 implies #[trigger] tree_block_size(index + 1) == 2
        * tree_block_size(index) by {
        assert(((5 + index + 1) as nat - 1) as nat == (5 + index) as nat);
    }
}

/// A set's block size is larger than those of the sets before it.
pub proof fn lemma_tree_block_size_increases(smaller: int, larger: int)
    requires
        0 <= smaller < larger,
    ensures
        2 * tree_block_size(smaller) <= tree_block_size(larger),
        tree_block_size(larger) % (2 * tree_block_size(smaller)) == 0,
{
    lemma_power_of_two_monotonic((5 + smaller + 1) as nat, (5 + larger) as nat);
    crate::memory_address::lemma_power_of_two_divides((5 + smaller + 1) as nat, (5 + larger) as nat);
    assert(power_of_two((5 + smaller + 1) as nat) == 2 * power_of_two((5 + smaller) as nat));
}

/// The sets of free blocks, indexed by the base-2 logarithm of their block size less that of
/// the smallest block size.
#[derive(Debug)]
pub struct BinarySearchTreesWithCachedKnowledgeOfFirstChild {
    binary_search_trees: Vec<BinarySearchTreeWithCachedKnowledgeOfFirstChild>,
}

impl BinarySearchTreesWithCachedKnowledgeOfFirstChild {
    /// The addresses of the free blocks in the set at `index`, in ascending order.
    pub closed spec fn tree(&self, index: int) -> Seq<usize> {
        self.binary_search_trees@[index]@
    }

    /// There are sixteen sets and each is well formed.
    pub closed spec fn wf(&self) -> bool {
        &&& self.binary_search_trees@.len() == NUMBER_OF_BINARY_SEARCH_TREES
        &&& forall|index: int|
            0 <= index < NUMBER_OF_BINARY_SEARCH_TREES ==> #[trigger] self.binary_search_trees@[index].wf()
    }

    /// In a well formed collection each set is strictly ascending and holds no `0`.
    pub proof fn lemma_wf(&self, index: int)
        requires
            self.wf(),
            0 <= index < NUMBER_OF_BINARY_SEARCH_TREES,
        ensures
            strictly_ascending(self.tree(index)),
            forall|i: int| 0 <= i < self.tree(index).len() ==> self.tree(index)[i] != 0,
    {
        self.binary_search_trees@[index].lemma_wf();
    }

    /// Sixteen empty sets.
    pub fn new() -> (trees: Self)
        ensures
            trees.wf(),
            forall|index: int| 0 <= index < NUMBER_OF_BINARY_SEARCH_TREES ==> #[trigger] trees.tree(index).len() == 0,
    {
        let mut binary_search_trees: Vec<BinarySearchTreeWithCachedKnowledgeOfFirstChild> = Vec::new();
        let mut index: usize = 0;
        while index < NUMBER_OF_BINARY_SEARCH_TREES
            invariant
                index <= NUMBER_OF_BINARY_SEARCH_TREES,
                binary_search_trees@.len() == index,
                forall|i: int| 0 <= i < index ==> #[trigger] binary_search_trees@[i].wf() && binary_search_trees@[i]@.len() == 0,
            decreases NUMBER_OF_BINARY_SEARCH_TREES - index,
        {
            binary_search_trees.push(BinarySearchTreeWithCachedKnowledgeOfFirstChild::new());
            index = index + 1;
        }
        let trees = BinarySearchTreesWithCachedKnowledgeOfFirstChild { binary_search_trees };
        assert forall|index: int| 0 <= index < NUMBER_OF_BINARY_SEARCH_TREES implies #[trigger] trees.tree(index).len() == 0 by {
            assert(trees.binary_search_trees@[index].wf());
        }
        trees
    }

    /// The set of free blocks at `binary_search_tree_index`.
    pub fn binary_search_tree_for(&self, binary_search_tree_index: usize) -> (tree: &BinarySearchTreeWithCachedKnowledgeOfFirstChild)
        requires
            self.wf(),
            binary_search_tree_index < NUMBER_OF_BINARY_SEARCH_TREES,
        ensures
            tree.wf(),
            tree@ == self.tree(binary_search_tree_index as int),
    {
        &self.binary_search_trees[binary_search_tree_index]
    }

    /// Inserts the block at `memory_address` into the set at `binary_search_tree_index`.
    pub fn insert_memory_address(&mut self, binary_search_tree_index: usize, memory_address: usize) -> (inserted: NodePointer)
        requires
            old(self).wf(),
            binary_search_tree_index < NUMBER_OF_BINARY_SEARCH_TREES,
            memory_address != 0,
        ensures
            final(self).wf(),
            inserted.address_of() == memory_address,
            forall|index: int| 0 <= index < NUMBER_OF_BINARY_SEARCH_TREES && index != binary_search_tree_index ==> #[trigger] final(self).tree(index) == old(self).tree(index),
            forall|x: usize| #[trigger] final(self).tree(binary_search_tree_index as int).contains(x) <==> old(self).tree(binary_search_tree_index as int).contains(x) || x == memory_address,
            old(self).tree(binary_search_tree_index as int).contains(memory_address) ==> final(self).tree(binary_search_tree_index as int) == old(self).tree(binary_search_tree_index as int),
    {
        let mut tree = self.binary_search_trees.remove(binary_search_tree_index);
        let ghost before = tree@;
        let inserted = tree.insert_memory_address(memory_address);
        proof {
            assert forall|x: usize| #[trigger] tree@.contains(x) <==> before.contains(x) || x == memory_address by {
                assert(tree@.to_set().contains(x) == before.to_set().insert(memory_address).contains(x));
            }
        }
        self.binary_search_trees.insert(binary_search_tree_index, tree);
        inserted
    }

    /// Removes the node `node_pointer` from the set at `binary_search_tree_index`.
    pub fn remove(&mut self, binary_search_tree_index: usize, node_pointer: NodePointer, is_cached_first_child: bool)
        requires
            old(self).wf(),
            binary_search_tree_index < NUMBER_OF_BINARY_SEARCH_TREES,
            old(self).tree(binary_search_tree_index as int).contains(node_pointer.address_of()),
            is_cached_first_child == (node_pointer.address_of() == old(self).tree(binary_search_tree_index as int)[0]),
        ensures
            final(self).wf(),
            forall|index: int| 0 <= index < NUMBER_OF_BINARY_SEARCH_TREES && index != binary_search_tree_index ==> #[trigger] final(self).tree(index) == old(self).tree(index),
            forall|x: usize| #[trigger] final(self).tree(binary_search_tree_index as int).contains(x) <==> old(self).tree(binary_search_tree_index as int).contains(x) && x != node_pointer.address_of(),
    {
        let mut tree = self.binary_search_trees.remove(binary_search_tree_index);
        let ghost before = tree@;
        tree.remove(node_pointer, is_cached_first_child);
        proof {
            assert forall|x: usize| #[trigger] tree@.contains(x) <==> before.contains(x) && x != node_pointer.address_of() by {
                assert(tree@.to_set().contains(x) == before.to_set().remove(node_pointer.address_of()).contains(x));
            }
        }
        self.binary_search_trees.insert(binary_search_tree_index, tree);
    }

    /// Finds the blocks of the contiguous run from `back` to `forward` in the set at
    /// `binary_search_tree_index` that are to be merged.
    pub fn blocks_to_coalesce(&mut self, binary_search_tree_index: usize, inserted: NodePointer, difference: usize, block_size: usize, back: usize, forward: usize) -> (blocks: (usize, usize))
        requires
            old(self).wf(),
            binary_search_tree_index < NUMBER_OF_BINARY_SEARCH_TREES,
            block_size > 0,
            difference == forward - back,
            difference > 0,
            exists|back_at: int, forward_at: int|
                0 <= back_at < forward_at < old(self).tree(binary_search_tree_index as int).len() && old(self).tree(binary_search_tree_index as int)[back_at] == back && old(self).tree(binary_search_tree_index as int)[forward_at] == forward && crate::binary_search_trees::red_black_tree::contiguous_run(old(self).tree(binary_search_tree_index as int), back_at, forward_at, block_size as int) && exists|inserted_at: int|
                    back_at <= inserted_at <= forward_at && old(self).tree(binary_search_tree_index as int)[inserted_at] == inserted.address_of(),
        ensures
            final(self).wf(),
            forall|index: int| 0 <= index < NUMBER_OF_BINARY_SEARCH_TREES ==> #[trigger] final(self).tree(index) == old(self).tree(index),
            exists|first_at: int, last_at: int|
                0 <= first_at < last_at < old(self).tree(binary_search_tree_index as int).len() && old(self).tree(binary_search_tree_index as int)[first_at] == blocks.0 && old(self).tree(binary_search_tree_index as int)[last_at] == blocks.1 && crate::binary_search_trees::red_black_tree::contiguous_run(old(self).tree(binary_search_tree_index as int), first_at, last_at, block_size as int) && (last_at - first_at) % 2 == 1,
            (difference / block_size) % 2 == 1 ==> blocks == (back, forward),
            (difference / block_size) % 2 == 0 && inserted.address_of() == forward ==> blocks == (back, (forward - block_size) as usize),
            (difference / block_size) % 2 == 0 && inserted.address_of() != forward ==> blocks == ((back + block_size) as usize, forward),
    {
        let mut tree = self.binary_search_trees.remove(binary_search_tree_index);
        let blocks = tree.blocks_to_coalesce(inserted, difference, block_size, back, forward);
        self.binary_search_trees.insert(binary_search_tree_index, tree);
        proof {
            assert(self.binary_search_trees@ =~= old(self).binary_search_trees@.update(binary_search_tree_index as int, tree));
        }
        blocks
    }

    /// Removes the blocks of the contiguous run from `first` to `last` in the set at
    /// `binary_search_tree_index`.
    pub fn remove_contiguous_blocks(&mut self, binary_search_tree_index: usize, first: usize, last: usize, block_size: usize)
        requires
            old(self).wf(),
            binary_search_tree_index < NUMBER_OF_BINARY_SEARCH_TREES,
            block_size > 0,
            last + block_size <= usize::MAX,
            exists|first_at: int, last_at: int|
                0 <= first_at <= last_at < old(self).tree(binary_search_tree_index as int).len() && old(self).tree(binary_search_tree_index as int)[first_at] == first && old(self).tree(binary_search_tree_index as int)[last_at] == last && crate::binary_search_trees::red_black_tree::contiguous_run(old(self).tree(binary_search_tree_index as int), first_at, last_at, block_size as int),
        ensures
            final(self).wf(),
            forall|index: int| 0 <= index < NUMBER_OF_BINARY_SEARCH_TREES && index != binary_search_tree_index ==> #[trigger] final(self).tree(index) == old(self).tree(index),
            exists|first_at: int, last_at: int|
                0 <= first_at <= last_at < old(self).tree(binary_search_tree_index as int).len() && old(self).tree(binary_search_tree_index as int)[first_at] == first && old(self).tree(binary_search_tree_index as int)[last_at] == last && final(self).tree(binary_search_tree_index as int) == old(self).tree(binary_search_tree_index as int).subrange(0, first_at) + old(self).tree(binary_search_tree_index as int).subrange(last_at + 1, old(self).tree(binary_search_tree_index as int).len() as int),
    {
        let mut tree = self.binary_search_trees.remove(binary_search_tree_index);
        tree.remove_contiguous_blocks(first, last, block_size);
        self.binary_search_trees.insert(binary_search_tree_index, tree);
    }

    /// The base-2 logarithm of a power of two that is at least two.
    pub fn logarithm_base2(value: usize) -> (exponent: usize)
        requires
            is_power_of_two(value as int),
            value >= 2,
        ensures
            power_of_two(exponent as nat) == value,
            1 <= exponent < 64,
    {
        let exponent = logarithm_base2(value);
        proof {
            if exponent == 0 {
                lemma_power_of_two_values();
            }
        }
        exponent
    }

    /// The index of the set whose blocks are `block_size` bytes.
    pub fn binary_search_tree_index(block_size: usize) -> (index: usize)
        requires
            is_power_of_two(block_size as int),
            MINIMUM_ALLOCATION_SIZE <= block_size <= MAXIMUM_ALLOCATION_SIZE,
        ensures
            index < NUMBER_OF_BINARY_SEARCH_TREES,
            tree_block_size(index as int) == block_size,
    {
        let power_of_two_exponent = Self::logarithm_base2(block_size);
        proof {
            lemma_power_of_two_values();
            if power_of_two_exponent < 5 {
                lemma_power_of_two_monotonic(power_of_two_exponent as nat, 4);
                assert(power_of_two(4) == 16) by {
                    reveal_with_fuel(power_of_two, 5);
                }
            }
            if power_of_two_exponent > 20 {
                lemma_power_of_two_monotonic(21, power_of_two_exponent as nat);
            }
        }
        power_of_two_exponent - SMALLEST_INCLUSIVE_POWER_OF_TWO_EXPONENT
    }

    /// The base-2 logarithm of the block size of the set at `binary_search_tree_index`.
    pub fn binary_search_tree_index_to_power_of_two_exponent(binary_search_tree_index: usize) -> (exponent: usize)
        requires
            binary_search_tree_index < NUMBER_OF_BINARY_SEARCH_TREES,
        ensures
            exponent == SMALLEST_INCLUSIVE_POWER_OF_TWO_EXPONENT + binary_search_tree_index,
    {
        SMALLEST_INCLUSIVE_POWER_OF_TWO_EXPONENT + binary_search_tree_index
    }

    /// The block size of the set at `binary_search_tree_index`.
    pub fn binary_search_tree_index_to_block_size(binary_search_tree_index: usize) -> (block_size: usize)
        requires
            binary_search_tree_index < NUMBER_OF_BINARY_SEARCH_TREES,
        ensures
            block_size == tree_block_size(binary_search_tree_index as int),
    {
        power_of_two_usize(Self::binary_search_tree_index_to_power_of_two_exponent(binary_search_tree_index))
    }

    /// Is `size` smaller than the smallest block?
    pub fn size_is_less_than_minimum_allocation_size(size: usize) -> (less: bool)
        ensures
            less == (size < MINIMUM_ALLOCATION_SIZE),
    {
        size < MINIMUM_ALLOCATION_SIZE
    }

    /// Is `size` at least the smallest block?
    pub fn size_is_greater_than_minimum_allocation_size(size: usize) -> (greater: bool)
        ensures
            greater == (size >= MINIMUM_ALLOCATION_SIZE),
    {
        size >= MINIMUM_ALLOCATION_SIZE
    }

    /// Is `non_zero_size` larger than the largest block?
    pub fn size_exceeds_maximum_allocation_size(non_zero_size: usize) -> (exceeds: bool)
        ensures
            exceeds == (non_zero_size > MAXIMUM_ALLOCATION_SIZE),
    {
        non_zero_size > MAXIMUM_ALLOCATION_SIZE
    }

    /// Is `non_zero_power_of_two_alignment` larger than the largest alignment?
    pub fn alignment_exceeds_maximum_alignment(non_zero_power_of_two_alignment: usize) -> (exceeds: bool)
        ensures
            exceeds == (non_zero_power_of_two_alignment > MAXIMUM_ALIGNMENT),
    {
        non_zero_power_of_two_alignment > MAXIMUM_ALIGNMENT
    }

    /// Raises `unfloored_non_zero_size` to the smallest block size.
    pub fn floor_size_to_minimum(unfloored_non_zero_size: usize) -> (floored: usize)
        ensures
            floored == (if unfloored_non_zero_size < MINIMUM_ALLOCATION_SIZE { MINIMUM_ALLOCATION_SIZE } else { unfloored_non_zero_size }),
    {
        if unfloored_non_zero_size < MINIMUM_ALLOCATION_SIZE {
            MINIMUM_ALLOCATION_SIZE
        } else {
            unfloored_non_zero_size
        }
    }

    /// Raises `unfloored_non_zero_power_of_two_alignment` to the smallest alignment.
    pub fn floor_alignment_to_minimum(unfloored_non_zero_power_of_two_alignment: usize) -> (floored: usize)
        ensures
            floored == (if unfloored_non_zero_power_of_two_alignment < MINIMUM_ALIGNMENT { MINIMUM_ALIGNMENT } else { unfloored_non_zero_power_of_two_alignment }),
    {
        if unfloored_non_zero_power_of_two_alignment < MINIMUM_ALIGNMENT {
            MINIMUM_ALIGNMENT
        } else {
            unfloored_non_zero_power_of_two_alignment
        }
    }

    /// The largest power of two that divides `difference`, which is at least a block.
    pub fn smallest_power_of_two_difference(difference: usize) -> (power: usize)
        requires
            difference >= MINIMUM_ALLOCATION_SIZE,
        ensures
            is_power_of_two(power as int),
            difference % power == 0,
            (difference / power) % 2 == 1,
            power <= difference,
    {
        smallest_power_of_two_difference(difference)
    }

    /// The largest power of two that is at most `difference`, which is at least a block.
    pub fn largest_power_of_two_difference(difference: usize) -> (power: usize)
        requires
            difference >= MINIMUM_ALLOCATION_SIZE,
        ensures
            is_power_of_two(power as int),
            power <= difference,
            difference < 2 * power,
    {
        let mut power: usize = 1;
        let ghost mut exponent: nat = 0;
        proof {
            lemma_power_of_two_values();
        }
        while power <= difference / 2
            invariant
                power == power_of_two(exponent),
                1 <= power <= difference,
            decreases difference - power,
        {
            power = power * 2;
            proof {
                exponent = exponent + 1;
            }
        }
        power
    }
}

} // verus!
