//! A set of free blocks that also remembers its first (lowest addressed) node.
use vstd::prelude::*;
use crate::binary_search_trees::red_black_tree::{
    contiguous_run,
    followed_by_contiguous,
    strictly_ascending,
    NodePointer,
    RedBlackTree,
};

verus! {

/// In a run of nodes in which each block of `block_size` bytes ends where the next begins,
/// the node `count` places on starts `count * block_size` bytes later.
pub proof fn lemma_run_offset(addresses: Seq<usize>, from: int, to: int, block_size: int)
    requires
        0 <= from <= to < addresses.len(),
        contiguous_run(addresses, from, to, block_size),
    ensures
        addresses[to] == addresses[from] + (to - from) * block_size,
    decreases to - from,
{
    if from == to {
        assert((to - from) * block_size == 0) by (nonlinear_arith)
            requires
                from == to,
        ;
    } else {
        lemma_run_offset(addresses, from, to - 1, block_size);
        assert(followed_by_contiguous(addresses, to - 1, block_size));
        assert((to - from) * block_size == (to - 1 - from) * block_size + block_size) by (
        nonlinear_arith);
    }
}

/// A set of free blocks of one size, with its first node cached.
#[derive(Debug)]
pub struct BinarySearchTreeWithCachedKnowledgeOfFirstChild {
    tree: RedBlackTree,
    cached_first_child: NodePointer,
}

impl View for BinarySearchTreeWithCachedKnowledgeOfFirstChild {
    type V = Seq<usize>;

    /// The addresses of the free blocks, in ascending order.
    closed spec fn view(&self) -> Seq<usize> {
        self.tree@
    }
}

impl BinarySearchTreeWithCachedKnowledgeOfFirstChild {
    /// The set is well formed and the cached node is its first node.
    pub closed spec fn wf(&self) -> bool {
        &&& self.tree.wf()
        &&& if self.tree@.len() == 0 {
            self.cached_first_child.address_of() == 0
        } else {
            self.cached_first_child.address_of() == self.tree@[0]
        }
    }

    /// The underlying ordered set is well formed, whatever the cached node.
    pub closed spec fn tree_wf(&self) -> bool {
        self.tree.wf()
    }

    /// The addresses are strictly ascending and none is `0`.
    pub proof fn lemma_wf(&self)
        requires
            self.wf(),
        ensures
            self.tree_wf(),
            strictly_ascending(self@),
            forall|i: int| 0 <= i < self@.len() ==> self@[i] != 0,
    {
    }

    /// An empty set.
    pub fn new() -> (tree: Self)
        ensures
            tree.wf(),
            tree@ == Seq::<usize>::empty(),
    {
        let tree = RedBlackTree::new();
        let cached_first_child = tree.first_child();
        BinarySearchTreeWithCachedKnowledgeOfFirstChild { tree, cached_first_child }
    }

    /// The underlying ordered set.
    pub fn tree(&self) -> (tree: &RedBlackTree)
        requires
            self.wf(),
        ensures
            tree.wf(),
            tree@ == self@,
    {
        &self.tree
    }

    /// Returns `true` if the set holds at least one block.
    pub fn has_blocks(&self) -> (has: bool)
        ensures
            has == (self@.len() > 0),
    {
        self.tree.has_blocks()
    }

    /// The node whose address is `key`, or null when there is none.
    pub fn find(&self, key: usize) -> (found: NodePointer)
        requires
            self.wf(),
        ensures
            self@.contains(key) ==> found.address_of() == key,
            !self@.contains(key) ==> found.address_of() == 0,
    {
        self.tree.find(key)
    }

    /// The cached first node: null when the set is empty.
    pub fn cached_first_child(&self) -> (first: NodePointer)
        requires
            self.wf(),
        ensures
            self@.len() == 0 ==> first.address_of() == 0,
            self@.len() > 0 ==> first.address_of() == self@[0],
    {
        self.cached_first_child
    }

    /// Replaces the cached first node.
    fn update_cached_first_child(&mut self, new_first_child_to_cache: NodePointer)
        ensures
            final(self).tree == old(self).tree,
            final(self).cached_first_child == new_first_child_to_cache,
    {
        self.cached_first_child = new_first_child_to_cache;
    }

    /// Returns `true` if the cached node is the first node of the set.
    pub fn cached_first_child_is_valid(&self) -> (valid: bool)
        requires
            self.tree_wf(),
        ensures
            valid == self.wf(),
    {
        let first = self.tree.first_child();
        first.value_or_null() == self.cached_first_child.value_or_null()
    }

    /// Inserts the block at `memory_address`; a block already in the set is left as it is.
    pub fn insert_memory_address(&mut self, memory_address: usize) -> (inserted: NodePointer)
        requires
            old(self).wf(),
            memory_address != 0,
        ensures
            final(self).wf(),
            inserted.address_of() == memory_address,
            final(self)@.to_set() == old(self)@.to_set().insert(memory_address),
            old(self)@.contains(memory_address) ==> final(self)@ == old(self)@,
    {
        let cached_first_child = self.cached_first_child;
        if cached_first_child.is_null() || memory_address < cached_first_child.value() {
            self.update_cached_first_child(NodePointer::from_memory_address(memory_address));
        }
        let ghost before = self.tree@;
        let inserted = self.tree.insert_memory_address(memory_address);
        proof {
            if before.len() > 0 {
                assert(before.contains(before[0]));
                assert forall|j: int| 0 <= j < self.tree@.len() implies self.tree@[j]
                    >= self.cached_first_child.address_of() by {
                    assert(self.tree@.contains(self.tree@[j]));
                    if self.tree@[j] != memory_address {
                        let k = choose|k: int| 0 <= k < before.len() && before[k] == self.tree@[j];
                        assert(before[0] <= before[k]);
                    }
                }
                assert(self.tree@.contains(self.cached_first_child.address_of()));
                let k = choose|k: int|
                    0 <= k < self.tree@.len() && self.tree@[k]
                        == self.cached_first_child.address_of();
                if k > 0 {
                    assert(self.tree@[0] < self.tree@[k]);
                    assert(self.tree@[0] >= self.cached_first_child.address_of());
                }
            } else {
                assert(self.tree@.contains(memory_address));
                let k = choose|k: int| 0 <= k < self.tree@.len() && self.tree@[k] == memory_address;
                if self.tree@.len() > 1 {
                    let other = if k == 0 { 1int } else { 0int };
                    assert(self.tree@.contains(self.tree@[other]));
                    assert(self.tree@[other] == memory_address);
                }
            }
        }
        inserted
    }

    /// Removes the node `node_pointer`; `is_cached_first_child` says whether it is the cached
    /// first node.
    pub fn remove(&mut self, node_pointer: NodePointer, is_cached_first_child: bool)
        requires
            old(self).wf(),
            old(self)@.contains(node_pointer.address_of()),
            is_cached_first_child == (node_pointer.address_of() == old(self)@[0]),
        ensures
            final(self).wf(),
            exists|i: int|
                0 <= i < old(self)@.len() && #[trigger] old(self)@[i] == node_pointer.address_of()
                    && final(self)@ == old(self)@.remove(i),
            final(self)@.to_set() == old(self)@.to_set().remove(node_pointer.address_of()),
    {
        if is_cached_first_child {
            let next = self.tree.next(node_pointer);
            self.update_cached_first_child(next);
        }
        let ghost before = self.tree@;
        self.tree.remove_node_pointer(node_pointer);
        proof {
            let i = choose|i: int|
                0 <= i < before.len() && #[trigger] before[i] == node_pointer.address_of()
                    && self.tree@ == before.remove(i);
            if is_cached_first_child {
                assert(before[0] == node_pointer.address_of());
                if i > 0 {
                    assert(before[0] < before[i]);
                }
            } else {
                if i == 0 {
                    assert(before[0] == node_pointer.address_of());
                }
            }
        }
    }

    /// The first and last blocks of the run of contiguous blocks from `back` to `forward`
    /// that are to be merged, after `inserted` was inserted into that run.
    ///
    /// When the run holds an even number of blocks all of them are merged; otherwise one block
    /// at an end is left out: the last block when it is `inserted`, else the first.
    pub fn blocks_to_coalesce(
        &mut self,
        inserted: NodePointer,
        difference: usize,
        block_size: usize,
        back: usize,
        forward: usize,
    ) -> (blocks: (usize, usize))
        requires
            old(self).wf(),
            block_size > 0,
            difference == forward - back,
            difference > 0,
            exists|back_at: int, forward_at: int|
                0 <= back_at < forward_at < old(self)@.len() && old(self)@[back_at] == back && old(
                    self,
                )@[forward_at] == forward && contiguous_run(
                    old(self)@,
                    back_at,
                    forward_at,
                    block_size as int,
                ) && exists|inserted_at: int|
                    back_at <= inserted_at <= forward_at && old(self)@[inserted_at]
                        == inserted.address_of(),
        ensures
            final(self).wf(),
            final(self)@ == old(self)@,
            exists|first_at: int, last_at: int|
                0 <= first_at < last_at < old(self)@.len() && old(self)@[first_at] == blocks.0
                    && old(self)@[last_at] == blocks.1 && contiguous_run(
                    old(self)@,
                    first_at,
                    last_at,
                    block_size as int,
                ) && (last_at - first_at) % 2 == 1,
            (difference / block_size) % 2 == 1 ==> blocks == (back, forward),
            (difference / block_size) % 2 == 0 && inserted.address_of() == forward ==> blocks == (back, (forward - block_size) as usize),
            (difference / block_size) % 2 == 0 && inserted.address_of() != forward ==> blocks == ((back + block_size) as usize, forward),
    {
        let ghost (back_at, forward_at) = choose|back_at: int, forward_at: int|
            0 <= back_at < forward_at < self@.len() && self@[back_at] == back && self@[forward_at]
                == forward && contiguous_run(self@, back_at, forward_at, block_size as int)
                && exists|inserted_at: int|
                back_at <= inserted_at <= forward_at && self@[inserted_at] == inserted.address_of();
        let ghost inserted_at = choose|inserted_at: int|
            back_at <= inserted_at <= forward_at && self@[inserted_at] == inserted.address_of();
        proof {
            lemma_run_offset(self@, back_at, forward_at, block_size as int);
            let count = forward_at - back_at;
            assert(difference as int == count * block_size);
            assert((count * block_size) / (block_size as int) == count) by (nonlinear_arith)
                requires
                    block_size > 0,
            ;
        }
        let number_of_contiguous_blocks_excluding_inserted_node = difference / block_size;
        let even_total_number_of_contiguous_blocks_to_coalesce =
            number_of_contiguous_blocks_excluding_inserted_node % 2 == 1;
        if even_total_number_of_contiguous_blocks_to_coalesce {
            proof {
                assert(self@[back_at] == back && self@[forward_at] == forward);
            }
            (back, forward)
        } else {
            let inserted_memory_address = inserted.value();
            if forward == inserted_memory_address {
                let previous = self.tree.previous(NodePointer::from_memory_address(forward));
                proof {
                    assert(self@[forward_at] == forward);
                    assert(inserted_at == forward_at) by {
                        if inserted_at < forward_at {
                            assert(self@[inserted_at] < self@[forward_at]);
                        }
                    }
                    assert(previous.address_of() == self@[forward_at - 1]);
                    assert(followed_by_contiguous(self@, forward_at - 1, block_size as int));
                    assert(contiguous_run(self@, back_at, forward_at - 1, block_size as int));
                    assert((forward_at - 1 - back_at) % 2 == 1);
                }
                (back, previous.value())
            } else if back == inserted_memory_address {
                let next = self.tree.next(NodePointer::from_memory_address(back));
                proof {
                    assert(self@[back_at] == back);
                    assert(next.address_of() == self@[back_at + 1]);
                    assert(followed_by_contiguous(self@, back_at, block_size as int));
                    assert(contiguous_run(self@, back_at + 1, forward_at, block_size as int));
                }
                (next.value(), forward)
            } else {
                proof {
                    assert(self@[back_at] == back);
                }
                self.insert_memory_address(back);
                let next = self.tree.next(NodePointer::from_memory_address(back));
                proof {
                    assert(self@[back_at] == back);
                    assert(next.address_of() == self@[back_at + 1]);
                    assert(followed_by_contiguous(self@, back_at, block_size as int));
                    assert(contiguous_run(self@, back_at + 1, forward_at, block_size as int));
                }
                (next.value(), forward)
            }
        }
    }

    /// Removes the blocks of the contiguous run from `first_block_memory_address` to
    /// `last_block_memory_address`.
    pub fn remove_contiguous_blocks(
        &mut self,
        first_block_memory_address: usize,
        last_block_memory_address: usize,
        block_size: usize,
    )
        requires
            old(self).wf(),
            block_size > 0,
            last_block_memory_address + block_size <= usize::MAX,
            exists|first_at: int, last_at: int|
                0 <= first_at <= last_at < old(self)@.len() && old(self)@[first_at]
                    == first_block_memory_address && old(self)@[last_at]
                    == last_block_memory_address && contiguous_run(
                    old(self)@,
                    first_at,
                    last_at,
                    block_size as int,
                ),
        ensures
            final(self).wf(),
            exists|first_at: int, last_at: int|
                0 <= first_at <= last_at < old(self)@.len() && old(self)@[first_at]
                    == first_block_memory_address && old(self)@[last_at]
                    == last_block_memory_address && final(self)@ == old(self)@.subrange(
                    0,
                    first_at,
                ) + old(self)@.subrange(last_at + 1, old(self)@.len() as int),
    {
        let ghost initial = self@;
        let ghost (first_at, last_at) = choose|first_at: int, last_at: int|
            0 <= first_at <= last_at < self@.len() && self@[first_at] == first_block_memory_address
                && self@[last_at] == last_block_memory_address && contiguous_run(
                self@,
                first_at,
                last_at,
                block_size as int,
            );
        let mut to_remove_memory_address = first_block_memory_address;
        let ghost mut removed: int = 0;
        loop
            invariant_except_break
                self@ == initial.subrange(0, first_at) + initial.subrange(
                    first_at + removed,
                    initial.len() as int,
                ),
            invariant
                self.wf(),
                0 <= removed <= last_at - first_at,
                0 <= first_at <= last_at < initial.len(),
                strictly_ascending(initial),
                initial[last_at] == last_block_memory_address,
                last_block_memory_address + block_size <= usize::MAX,
                contiguous_run(initial, first_at, last_at, block_size as int),
                to_remove_memory_address == initial[first_at + removed],
            ensures
                self@ == initial.subrange(0, first_at) + initial.subrange(
                    last_at + 1,
                    initial.len() as int,
                ),
            decreases last_at - first_at - removed,
        {
            proof {
                assert(self@[first_at] == initial[first_at + removed]);
            }
            let to_remove_node_pointer = NodePointer::from_memory_address(to_remove_memory_address);
            let is_cached_first_child = to_remove_node_pointer.value_or_null()
                == self.cached_first_child.value_or_null();
            let ghost before = self@;
            self.remove(to_remove_node_pointer, is_cached_first_child);
            proof {
                let i = choose|i: int|
                    0 <= i < before.len() && #[trigger] before[i]
                        == to_remove_node_pointer.address_of() && self@ == before.remove(i);
                if i != first_at {
                    assert(before[i] != before[first_at]) by {
                        if i < first_at {
                            assert(initial[i] < initial[first_at + removed]);
                        } else {
                            assert(before[i] == initial[i + removed]);
                            assert(initial[first_at + removed] < initial[i + removed]);
                        }
                    }
                }
                assert(self@ =~= initial.subrange(0, first_at) + initial.subrange(
                    first_at + removed + 1,
                    initial.len() as int,
                ));
            }
            if to_remove_memory_address == last_block_memory_address {
                proof {
                    if removed < last_at - first_at {
                        assert(initial[first_at + removed] < initial[last_at]);
                    }
                    assert(first_at + removed == last_at);
                }
                break;
            }
            proof {
                if removed == last_at - first_at {
                    assert(initial[first_at + removed] == initial[last_at]);
                }
                assert(followed_by_contiguous(initial, first_at + removed, block_size as int));
                removed = removed + 1;
            }
            to_remove_memory_address = to_remove_memory_address + block_size;
        }
    }
}

} // verus!
