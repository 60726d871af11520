//! Walking a `RedBlackTree` in order from both ends, and editing it at a cursor.
use vstd::prelude::*;
use crate::binary_search_trees::red_black_tree::{above_lower_bound, below_upper_bound, Bound, NodePointer, RedBlackTree};

verus! {

/// Is `address` within `minimum` from below and within `maximum` from above?
pub open spec fn within_bounds(minimum: Bound, maximum: Bound, address: usize) -> bool {
    above_lower_bound(minimum, address) && below_upper_bound(maximum, address)
}

/// An iterator over the addresses of a `RedBlackTree`, from the front and from the back.
///
/// It yields the nodes from `head` to `tail`, both included; both are null when it is done.
#[derive(Clone, Copy, Debug)]
pub struct RedBlackTreeDoubleEndedIterator<'a> {
    head: NodePointer,
    tail: NodePointer,
    tree: &'a RedBlackTree,
}

impl<'a> RedBlackTreeDoubleEndedIterator<'a> {
    /// The tree walked over.
    pub closed spec fn walked(&self) -> Seq<usize> {
        self.tree@
    }

    /// The position of the head in the tree; meaningless when the iterator is done.
    pub closed spec fn head_position(&self) -> int {
        choose|i: int| 0 <= i < self.tree@.len() && self.tree@[i] == self.head.address_of()
    }

    /// The position of the tail in the tree; meaningless when the iterator is done.
    pub closed spec fn tail_position(&self) -> int {
        choose|i: int| 0 <= i < self.tree@.len() && self.tree@[i] == self.tail.address_of()
    }

    /// Is the iterator done?
    pub closed spec fn is_done(&self) -> bool {
        self.head.address_of() == 0
    }

    /// The iterator's invariant: done with both ends null, or both ends nodes of the tree with
    /// the head at or before the tail.
    pub closed spec fn wf(&self) -> bool {
        &&& self.tree.wf()
        &&& (self.head.address_of() == 0) == (self.tail.address_of() == 0)
        &&& self.head.address_of() != 0 ==> {
            &&& self.tree@.contains(self.head.address_of())
            &&& self.tree@.contains(self.tail.address_of())
            &&& self.head_position() <= self.tail_position()
        }
    }

    /// The addresses still to be yielded, in ascending order.
    pub open spec fn remaining(&self) -> Seq<usize> {
        if self.is_done() {
            Seq::empty()
        } else {
            self.walked().subrange(self.head_position(), self.tail_position() + 1)
        }
    }

    /// Yields the lowest address not yet yielded.
    pub fn next(&mut self) -> (item: Option<usize>)
        requires
            old(self).wf(),
        ensures
            final(self).wf(),
            final(self).walked() == old(self).walked(),
            old(self).remaining().len() == 0 ==> item is None && final(self).remaining() == old(self).remaining(),
            old(self).remaining().len() > 0 ==> item == Some(old(self).remaining()[0])
                && final(self).remaining() == old(self).remaining().drop_first(),
    {
        let head = self.head;
        if head.is_null() {
            return None;
        }
        let ghost first = self.head_position();
        let ghost last = self.tail_position();
        if head == self.tail {
            self.tail = NodePointer::null();
            self.head = NodePointer::null();
        } else {
            self.head = self.tree.next(head);
            proof {
                assert(self.tree@[first] == head.address_of());
                assert(self.tree@[last] == old(self).tail.address_of());
                NodePointer::lemma_equal_pointers(head, old(self).tail);
                assert(first < last);
                assert(self.tree@.contains(self.head.address_of()));
                assert(self.head_position() == first + 1);
            }
        }
        proof {
            assert(old(self).remaining().drop_first() =~= self.remaining());
        }
        Some(head.value())
    }

    /// Yields the highest address not yet yielded.
    pub fn next_back(&mut self) -> (item: Option<usize>)
        requires
            old(self).wf(),
        ensures
            final(self).wf(),
            final(self).walked() == old(self).walked(),
            old(self).remaining().len() == 0 ==> item is None && final(self).remaining() == old(self).remaining(),
            old(self).remaining().len() > 0 ==> item == Some(old(self).remaining().last())
                && final(self).remaining() == old(self).remaining().drop_last(),
    {
        let tail = self.tail;
        if tail.is_null() {
            return None;
        }
        let ghost first = self.head_position();
        let ghost last = self.tail_position();
        if tail == self.head {
            self.head = NodePointer::null();
            self.tail = NodePointer::null();
        } else {
            self.tail = self.tree.previous(tail);
            proof {
                assert(self.tree@[last] == tail.address_of());
                assert(self.tree@[first] == old(self).head.address_of());
                NodePointer::lemma_equal_pointers(tail, old(self).head);
                assert(first < last);
                assert(self.tree@.contains(self.tail.address_of()));
                assert(self.tail_position() == last - 1);
            }
        }
        proof {
            assert(old(self).remaining().drop_last() =~= self.remaining());
        }
        Some(tail.value())
    }
}

impl RedBlackTree {
    /// An iterator over every address of the set, in ascending order.
    pub fn double_ended_iterate<'a>(&'a self) -> (iterator: RedBlackTreeDoubleEndedIterator<'a>)
        requires
            self.wf(),
        ensures
            iterator.wf(),
            iterator.walked() == self@,
            iterator.remaining() == self@,
    {
        if self.is_empty() {
            let iterator = self.empty_iterator();
            proof {
                assert(iterator.remaining() =~= self@);
            }
            iterator
        } else {
            let iterator = RedBlackTreeDoubleEndedIterator {
                head: self.first_child(),
                tail: self.last_child(),
                tree: self,
            };
            proof {
                assert(self@[0] == iterator.head.address_of());
                assert(self@[self@.len() - 1] == iterator.tail.address_of());
                assert(iterator.head_position() == 0);
                assert(iterator.tail_position() == self@.len() - 1);
                assert(iterator.remaining() =~= self@);
            }
            iterator
        }
    }

    /// An iterator over the addresses from the first within `minimum` to the last within
    /// `maximum`; empty when there is no such address or the last comes before the first.
    pub fn double_ended_range_iterate<'a>(&'a self, minimum: Bound, maximum: Bound) -> (iterator: RedBlackTreeDoubleEndedIterator<'a>)
        requires
            self.wf(),
        ensures
            iterator.wf(),
            iterator.walked() == self@,
            exists|from: int, to: int| 0 <= from <= to <= self@.len() && iterator.remaining() == #[trigger] self@.subrange(from, to),
            forall|k: int| 0 <= k < iterator.remaining().len() ==> within_bounds(minimum, maximum, #[trigger] iterator.remaining()[k]),
            forall|address: usize| self@.contains(address) && within_bounds(minimum, maximum, address)
                ==> #[trigger] iterator.remaining().contains(address),
    {
        let lower = self.lower_bound(minimum);
        let upper = self.upper_bound(maximum);
        if lower.is_not_null() && upper.is_not_null() {
            let lower_key = lower.key();
            let upper_key = upper.key();
            let ghost i = choose|i: int| 0 <= i < self@.len() && #[trigger] self@[i] == lower.address_of() && above_lower_bound(minimum, self@[i])
                && forall|k: int| 0 <= k < i ==> !above_lower_bound(minimum, self@[k]);
            let ghost j = choose|j: int| 0 <= j < self@.len() && #[trigger] self@[j] == upper.address_of() && below_upper_bound(maximum, self@[j])
                && forall|k: int| j < k < self@.len() ==> !below_upper_bound(maximum, self@[k]);
            if upper_key >= lower_key {
                let iterator = RedBlackTreeDoubleEndedIterator { head: lower, tail: upper, tree: self };
                proof {
                    assert(self@.contains(lower.address_of()));
                    assert(self@.contains(upper.address_of()));
                    assert(iterator.head_position() == i);
                    assert(iterator.tail_position() == j);
                    assert(iterator.remaining() == self@.subrange(i, j + 1));
                    assert forall|k: int| 0 <= k < iterator.remaining().len() implies within_bounds(minimum, maximum, #[trigger] iterator.remaining()[k]) by {
                        assert(iterator.remaining()[k] == self@[i + k]);
                        assert(self@[i] <= self@[i + k] <= self@[j]);
                    }
                    assert forall|address: usize| self@.contains(address) && within_bounds(minimum, maximum, address)
                        implies #[trigger] iterator.remaining().contains(address) by {
                        let p = choose|p: int| 0 <= p < self@.len() && self@[p] == address;
                        assert(iterator.remaining()[p - i] == address);
                    }
                }
                iterator
            } else {
                let iterator = self.empty_iterator();
                proof {
                    assert(iterator.remaining() == self@.subrange(0, 0));
                    assert forall|address: usize| self@.contains(address) && within_bounds(minimum, maximum, address)
                        implies #[trigger] iterator.remaining().contains(address) by {
                        let p = choose|p: int| 0 <= p < self@.len() && self@[p] == address;
                        assert(self@[i] <= self@[p] <= self@[j]);
                    }
                }
                iterator
            }
        } else {
            let iterator = self.empty_iterator();
            proof {
                assert(iterator.remaining() == self@.subrange(0, 0));
                assert forall|address: usize| self@.contains(address) && within_bounds(minimum, maximum, address)
                    implies #[trigger] iterator.remaining().contains(address) by {
                    let p = choose|p: int| 0 <= p < self@.len() && self@[p] == address;
                    assert(within_bounds(minimum, maximum, self@[p]));
                }
            }
            iterator
        }
    }

    /// An iterator that yields nothing.
    fn empty_iterator<'a>(&'a self) -> (iterator: RedBlackTreeDoubleEndedIterator<'a>)
        requires
            self.wf(),
        ensures
            iterator.wf(),
            iterator.walked() == self@,
            iterator.remaining() == Seq::<usize>::empty(),
    {
        RedBlackTreeDoubleEndedIterator { head: NodePointer::null(), tail: NodePointer::null(), tree: self }
    }
}

/// A cursor which provides mutable access to a `RedBlackTree`: it points at a node, or at the
/// null object that sits past both ends. Its operations ask for `wf`, which `new` gives.
pub struct Cursor<'a> {
    /// The node the cursor points at, or null.
    pub current: NodePointer,
    /// The tree the cursor walks and changes.
    pub tree: &'a mut RedBlackTree,
}

impl<'a> Cursor<'a> {
    /// The tree's addresses, in ascending order.
    pub closed spec fn addresses(&self) -> Seq<usize> {
        self.tree@
    }

    /// The address the cursor points at; `0` for the null object.
    pub closed spec fn at(&self) -> usize {
        self.current.address_of()
    }

    /// The cursor's invariant: the tree is well formed and the cursor points at one of its
    /// nodes or at the null object.
    pub closed spec fn wf(&self) -> bool {
        &&& self.tree.wf()
        &&& self.current.address_of() != 0 ==> self.tree@.contains(self.current.address_of())
    }

    /// A cursor on `tree` at `current`, a node of the tree or null.
    pub fn new(tree: &'a mut RedBlackTree, current: NodePointer) -> (cursor: Self)
        requires
            old(tree).wf(),
            current.address_of() != 0 ==> old(tree)@.contains(current.address_of()),
        ensures
            cursor.wf(),
            cursor.addresses() == old(tree)@,
            cursor.at() == current.address_of(),
            final(tree)@ == final(cursor.tree)@,
    {
        Cursor { current, tree }
    }

    /// Is the cursor pointing at the null object?
    pub fn is_null(&self) -> (null: bool)
        ensures
            null == (self.at() == 0),
    {
        self.current.is_null()
    }

    /// The address the cursor points at, or `None` at the null object.
    pub fn get(&self) -> (address: Option<usize>)
        ensures
            self.at() == 0 ==> address is None,
            self.at() != 0 ==> address == Some(self.at()),
    {
        if self.current.is_null() {
            None
        } else {
            Some(self.current.value())
        }
    }

    /// Removes the node the cursor points at and moves to the next one; returns the removed
    /// address, or `None` (removing nothing) at the null object.
    pub fn remove(&mut self) -> (removed: Option<usize>)
        requires
            old(self).wf(),
        ensures
            *final(final(self).tree) == *final(old(self).tree),
            final(self).wf(),
            old(self).at() == 0 ==> removed is None && final(self).addresses() == old(self).addresses()
                && final(self).at() == 0,
            forall|i: int| 0 <= i < old(self).addresses().len() && #[trigger] old(self).addresses()[i] == old(self).at() && old(self).at() != 0
                ==> removed == Some(old(self).at()) && final(self).addresses() == old(self).addresses().remove(i)
                    && final(self).at() == (if i + 1 < old(self).addresses().len() {
                    old(self).addresses()[i + 1]
                } else {
                    0
                }),
    {
        if self.is_null() {
            return None;
        }
        let next = self.tree.next(self.current);
        let result = self.current.value();
        let ghost before = self.tree@;
        self.tree.remove_node_pointer(self.current);
        proof {
            let i = choose|i: int| 0 <= i < before.len() && #[trigger] before[i] == result && self.tree@ == before.remove(i);
            assert forall|k: int| 0 <= k < before.len() && #[trigger] before[k] == result implies k == i by {
                if k < i {
                    assert(before[k] < before[i]);
                } else if k > i {
                    assert(before[i] < before[k]);
                }
            }
            if i + 1 < before.len() {
                assert(self.tree@[i] == before[i + 1]);
            }
        }
        self.current = next;
        Some(result)
    }

    /// Puts `value` in the place of the node the cursor points at and points at it; returns
    /// the replaced address, or gives `value` back at the null object.
    pub fn replace_with(&mut self, value: usize) -> (replaced: Result<usize, usize>)
        requires
            old(self).wf(),
            value != 0,
            old(self).at() != 0 ==> exists|i: int| 0 <= i < old(self).addresses().len()
                && #[trigger] old(self).addresses()[i] == old(self).at() && (i == 0
                || old(self).addresses()[i - 1] < value) && (i + 1 == old(self).addresses().len()
                || value < old(self).addresses()[i + 1]),
        ensures
            *final(final(self).tree) == *final(old(self).tree),
            final(self).wf(),
            old(self).at() == 0 ==> replaced == Err::<usize, usize>(value) && final(self).addresses()
                == old(self).addresses() && final(self).at() == 0,
            forall|i: int| 0 <= i < old(self).addresses().len() && #[trigger] old(self).addresses()[i] == old(self).at() && old(self).at() != 0
                ==> replaced == Ok::<usize, usize>(old(self).at()) && final(self).addresses() == old(self).addresses().update(i, value)
                    && final(self).at() == value,
    {
        if self.is_null() {
            return Err(value);
        }
        let result = self.current.value();
        let ghost before = self.tree@;
        self.tree.replace_with(self.current, value);
        self.current = NodePointer::from_memory_address(value);
        proof {
            let i = choose|i: int| 0 <= i < before.len() && #[trigger] before[i] == result;
            assert(self.tree@ == before.update(i, value));
            assert(self.tree@[i] == value);
        }
        Ok(result)
    }

    /// Inserts `value` just after the node the cursor points at, or at the start at the null
    /// object; `value` must keep the addresses in ascending order.
    pub fn insert_after(&mut self, value: usize)
        requires
            old(self).wf(),
            value != 0,
            old(self).at() == 0 ==> old(self).addresses().len() == 0 || value < old(self).addresses()[0],
            old(self).at() != 0 ==> exists|i: int| 0 <= i < old(self).addresses().len()
                && #[trigger] old(self).addresses()[i] == old(self).at() && old(self).addresses()[i] < value
                && (i + 1 == old(self).addresses().len() || value < old(self).addresses()[i + 1]),
        ensures
            final(self).wf(),
            final(self).at() == old(self).at(),
            old(self).at() == 0 ==> final(self).addresses() == old(self).addresses().insert(0, value),
            *final(final(self).tree) == *final(old(self).tree),
            forall|i: int| 0 <= i < old(self).addresses().len() && #[trigger] old(self).addresses()[i] == old(self).at() && old(self).at() != 0
                ==> final(self).addresses() == old(self).addresses().insert(i + 1, value),
    {
        let ghost before = self.tree@;
        if self.tree.is_empty() {
            self.tree.insert_root(value);
            proof {
                assert(self.tree@ =~= before.insert(0, value));
            }
        } else if self.is_null() {
            let first = self.tree.first_child();
            self.tree.insert_left(first, value);
            proof {
                assert(before[0] == first.address_of());
            }
        } else {
            self.tree.insert_right(self.current, value);
            proof {
                let i = choose|i: int| 0 <= i < before.len() && #[trigger] before[i] == self.current.address_of()
                    && before[i] < value && (i + 1 == before.len() || value < before[i + 1]);
                assert(self.tree@[i] == self.current.address_of());
            }
        }
    }

    /// Inserts `value` just before the node the cursor points at, or at the end at the null
    /// object; `value` must keep the addresses in ascending order.
    pub fn insert_before(&mut self, value: usize)
        requires
            old(self).wf(),
            value != 0,
            old(self).at() == 0 ==> old(self).addresses().len() == 0 || old(self).addresses().last() < value,
            old(self).at() != 0 ==> exists|i: int| 0 <= i < old(self).addresses().len()
                && #[trigger] old(self).addresses()[i] == old(self).at() && value < old(self).addresses()[i]
                && (i == 0 || old(self).addresses()[i - 1] < value),
        ensures
            *final(final(self).tree) == *final(old(self).tree),
            final(self).wf(),
            final(self).at() == old(self).at(),
            old(self).at() == 0 ==> final(self).addresses() == old(self).addresses().push(value),
            forall|i: int| 0 <= i < old(self).addresses().len() && #[trigger] old(self).addresses()[i] == old(self).at() && old(self).at() != 0
                ==> final(self).addresses() == old(self).addresses().insert(i, value),
    {
        let ghost before = self.tree@;
        if self.tree.is_empty() {
            self.tree.insert_root(value);
            proof {
                assert(self.tree@ =~= before.push(value));
            }
        } else if self.is_null() {
            let last = self.tree.last_child();
            self.tree.insert_right(last, value);
            proof {
                assert(before[before.len() - 1] == last.address_of());
                assert(before.insert(before.len() as int, value) =~= before.push(value));
            }
        } else {
            self.tree.insert_left(self.current, value);
            proof {
                let i = choose|i: int| 0 <= i < before.len() && #[trigger] before[i] == self.current.address_of()
                    && value < before[i] && (i == 0 || before[i - 1] < value);
                assert(self.tree@[i + 1] == self.current.address_of());
            }
        }
    }

    /// Moves to the next node; from the null object to the first node, and from the last node
    /// to the null object.
    pub fn move_next(&mut self)
        requires
            old(self).wf(),
        ensures
            *final(final(self).tree) == *final(old(self).tree),
            final(self).wf(),
            final(self).addresses() == old(self).addresses(),
            old(self).at() == 0 ==> final(self).at() == (if old(self).addresses().len() > 0 {
                old(self).addresses()[0]
            } else {
                0
            }),
            forall|i: int| 0 <= i < old(self).addresses().len() && #[trigger] old(self).addresses()[i] == old(self).at() && old(self).at() != 0
                ==> final(self).at() == (if i + 1 < old(self).addresses().len() {
                    old(self).addresses()[i + 1]
                } else {
                    0
                }),
    {
        if self.is_null() {
            self.current = self.tree.first_child();
        } else {
            self.current = self.tree.next(self.current);
        }
    }

    /// Moves to the previous node; from the null object to the last node, and from the first
    /// node to the null object.
    pub fn move_previous(&mut self)
        requires
            old(self).wf(),
        ensures
            *final(final(self).tree) == *final(old(self).tree),
            final(self).wf(),
            final(self).addresses() == old(self).addresses(),
            old(self).at() == 0 ==> final(self).at() == (if old(self).addresses().len() > 0 {
                old(self).addresses().last()
            } else {
                0
            }),
            forall|i: int| 0 <= i < old(self).addresses().len() && #[trigger] old(self).addresses()[i] == old(self).at() && old(self).at() != 0
                ==> final(self).at() == (if i > 0 {
                    old(self).addresses()[i - 1]
                } else {
                    0
                }),
    {
        if self.is_null() {
            self.current = self.tree.last_child();
        } else {
            self.current = self.tree.previous(self.current);
        }
    }
}

} // verus!
