//! An ordered set of the addresses of free blocks of one size.
//!
//! Each free block is a node of the set; a node is known by the address of its block, so a
//! `NodePointer` is that address and the null pointer is the address `0`, which no block has.
//! The nodes are held in a red-black tree of boxed nodes (see `node` and `balancing`); its
//! in-order walk, the ascending sequence of addresses, is the view that every contract speaks
//! of, and `first_child`, `next`, `previous` and `last_child` follow it.
use vstd::prelude::*;
use crate::binary_search_trees::balancing::{
    black_balanced,
    color_of,
    delete_key,
    insert_key,
    lemma_empty,
    lemma_unfold,
    no_red_red,
    no_red_red_below,
};
use crate::binary_search_trees::node::{
    contains_key,
    first_key,
    in_order,
    last_key,
    lower_bound_key,
    node_in_order,
    replace_key,
    upper_bound_key,
    Color,
    Node,
};

verus! {

/// Are the addresses in `addresses` strictly ascending?
pub open spec fn strictly_ascending(addresses: Seq<usize>) -> bool {
    forall|i: int, j: int| 0 <= i < j < addresses.len() ==> addresses[i] < addresses[j]
}

/// A bound on a search by key.
#[derive(Clone, Copy, Debug)]
pub enum Bound {
    /// Keys equal to the bound are within it.
    Included(usize),
    /// Keys equal to the bound are outside it.
    Excluded(usize),
    /// Every key is within it.
    Unbounded,
}

/// A pointer to a node of a `RedBlackTree`: the address of the free block that is the node.
#[derive(Clone, Copy, Debug, PartialEq, Eq, Structural)]
pub struct NodePointer {
    address: usize,
}

impl NodePointer {
    /// The address that this pointer points at; `0` for the null pointer.
    pub closed spec fn address_of(self) -> usize {
        self.address
    }

    /// Pointers are equal exactly when they point at the same address.
    pub proof fn lemma_equal_pointers(first: NodePointer, second: NodePointer)
        ensures
            (first == second) == (first.address_of() == second.address_of()),
    {
    }

    /// The null pointer.
    pub fn null() -> (pointer: NodePointer)
        ensures
            pointer.address_of() == 0,
    {
        NodePointer { address: 0 }
    }

    /// The node whose free block starts at `memory_address`.
    pub fn from_memory_address(memory_address: usize) -> (pointer: NodePointer)
        ensures
            pointer.address_of() == memory_address,
    {
        NodePointer { address: memory_address }
    }

    /// Is this the null pointer?
    pub fn is_null(self) -> (null: bool)
        ensures
            null == (self.address_of() == 0),
    {
        self.address == 0
    }

    /// Is this not the null pointer?
    pub fn is_not_null(self) -> (not_null: bool)
        ensures
            not_null == (self.address_of() != 0),
    {
        self.address != 0
    }

    /// The address of the free block that this node is.
    pub fn value(self) -> (memory_address: usize)
        requires
            self.address_of() != 0,
        ensures
            memory_address == self.address_of(),
    {
        self.address
    }

    /// The key by which the node is ordered, which is its value.
    pub fn key(self) -> (key: usize)
        requires
            self.address_of() != 0,
        ensures
            key == self.address_of(),
    {
        self.value()
    }

    /// The address this pointer points at, `0` when it is null.
    pub fn value_or_null(self) -> (address: usize)
        ensures
            address == self.address_of(),
    {
        if self.is_null() {
            0
        } else {
            self.value()
        }
    }

    /// The address just past the end of this node's free block of `size` bytes.
    pub fn end_memory_address(self, size: usize) -> (end: usize)
        requires
            self.address_of() != 0,
            self.address_of() + size <= usize::MAX,
        ensures
            end == self.address_of() + size,
    {
        self.value() + size
    }
}

/// Inserting into a strictly ascending sequence at a position between two neighbours that
/// `value` lies between is the only place that keeps it strictly ascending.
proof fn lemma_insertion_position(before: Seq<usize>, value: usize, position: int, place: int)
    requires
        strictly_ascending(before),
        0 <= position <= before.len(),
        strictly_ascending(before.insert(position, value)),
        0 <= place <= before.len(),
        place == 0 || before[place - 1] < value,
        place == before.len() || value < before[place],
    ensures
        position == place,
{
    let after = before.insert(position, value);
    if position < place {
        assert(after[position] == value);
        assert(after[place] == before[place - 1]);
        assert(after[position] < after[place]);
    } else if position > place {
        assert(after[position] == value);
        assert(after[place] == before[place]);
        assert(after[place] < after[position]);
    }
}

/// An ordered set of the addresses of free blocks, none of which is `0`, held in a
/// red-black tree.
#[derive(Debug)]
pub struct RedBlackTree {
    root: Option<Box<Node>>,
}

impl View for RedBlackTree {
    type V = Seq<usize>;

    /// The addresses in the set, in ascending order.
    closed spec fn view(&self) -> Seq<usize> {
        in_order(self.root)
    }
}

impl RedBlackTree {
    /// The tree is a red-black tree: its root is black, no red node has a red child, and every
    /// path from a node down to a leaf passes the same number of black nodes.
    pub closed spec fn red_black(&self) -> bool {
        &&& color_of(self.root) == Color::Black
        &&& no_red_red(self.root)
        &&& black_balanced(self.root)
    }

    /// The addresses are strictly ascending, none is `0`, and the tree is a red-black tree.
    pub open spec fn wf(&self) -> bool {
        &&& strictly_ascending(self@)
        &&& forall|i: int| 0 <= i < self@.len() ==> self@[i] != 0
        &&& self.red_black()
    }

    /// Creates an empty set.
    pub fn new() -> (tree: RedBlackTree)
        ensures
            tree.wf(),
            tree@ == Seq::<usize>::empty(),
    {
        RedBlackTree { root: None }
    }

    /// Returns `true` if the set is empty.
    pub fn is_empty(&self) -> (empty: bool)
        ensures
            empty == (self@.len() == 0),
    {
        proof {
            if self.root is Some {
                let node = self.root->0;
                assert(self@ == in_order(node.left) + seq![node.key] + in_order(node.right));
            }
        }
        self.root.is_none()
    }

    /// Returns `true` if the set holds at least one block.
    pub fn has_blocks(&self) -> (has: bool)
        ensures
            has == (self@.len() > 0),
    {
        !self.is_empty()
    }

    /// The node with the lowest address, or null when the set is empty.
    pub fn first_child(&self) -> (first: NodePointer)
        requires
            self.wf(),
        ensures
            self@.len() == 0 ==> first.address_of() == 0,
            self@.len() > 0 ==> first.address_of() == self@[0],
    {
        match first_key(&self.root) {
            Some(key) => NodePointer::from_memory_address(key),
            None => NodePointer::null(),
        }
    }

    /// The node with the highest address, or null when the set is empty.
    pub fn last_child(&self) -> (last: NodePointer)
        requires
            self.wf(),
        ensures
            self@.len() == 0 ==> last.address_of() == 0,
            self@.len() > 0 ==> last.address_of() == self@.last(),
    {
        match last_key(&self.root) {
            Some(key) => NodePointer::from_memory_address(key),
            None => NodePointer::null(),
        }
    }

    /// The node that follows `node` in ascending order, or null when `node` is the last.
    pub fn next(&self, node: NodePointer) -> (next: NodePointer)
        requires
            self.wf(),
            self@.contains(node.address_of()),
        ensures
            forall|i: int|
                0 <= i < self@.len() && #[trigger] self@[i] == node.address_of() ==> (if i + 1
                    < self@.len() {
                    next.address_of() == self@[i + 1]
                } else {
                    next.address_of() == 0
                }),
    {
        let bound = Bound::Excluded(node.value_or_null());
        let found = lower_bound_key(&self.root, bound);
        proof {
            assert forall|i: int| 0 <= i < self@.len() && #[trigger] self@[i] == node.address_of() implies (if i + 1 < self@.len() {
                found == Some(self@[i + 1])
            } else {
                found is None
            }) by {
                assert forall|j: int| 0 <= j <= i implies !above_lower_bound(bound, #[trigger] self@[j]) by {
                    if j < i {
                        assert(self@[j] < self@[i]);
                    }
                }
                if i + 1 < self@.len() {
                    assert(above_lower_bound(bound, self@[i + 1]));
                    match found {
                        Some(key) => {
                            let k = choose|k: int| 0 <= k < self@.len() && #[trigger] self@[k] == key && above_lower_bound(bound, key)
                                && forall|j: int| 0 <= j < k ==> !above_lower_bound(bound, #[trigger] self@[j]);
                            if k > i + 1 {
                                assert(!above_lower_bound(bound, self@[i + 1]));
                            }
                        },
                        None => {},
                    }
                } else {
                    assert forall|j: int| 0 <= j < self@.len() implies !above_lower_bound(bound, #[trigger] self@[j]) by {}
                }
            }
        }
        match found {
            Some(key) => NodePointer::from_memory_address(key),
            None => NodePointer::null(),
        }
    }

    /// The node that precedes `node` in ascending order, or null when `node` is the first.
    pub fn previous(&self, node: NodePointer) -> (previous: NodePointer)
        requires
            self.wf(),
            self@.contains(node.address_of()),
        ensures
            forall|i: int|
                0 <= i < self@.len() && #[trigger] self@[i] == node.address_of() ==> (if i > 0 {
                    previous.address_of() == self@[i - 1]
                } else {
                    previous.address_of() == 0
                }),
    {
        let bound = Bound::Excluded(node.value_or_null());
        let found = upper_bound_key(&self.root, bound);
        proof {
            assert forall|i: int| 0 <= i < self@.len() && #[trigger] self@[i] == node.address_of() implies (if i > 0 {
                found == Some(self@[i - 1])
            } else {
                found is None
            }) by {
                assert forall|j: int| i <= j < self@.len() implies !below_upper_bound(bound, #[trigger] self@[j]) by {
                    if j > i {
                        assert(self@[i] < self@[j]);
                    }
                }
                if i > 0 {
                    assert(below_upper_bound(bound, self@[i - 1]));
                    match found {
                        Some(key) => {
                            let k = choose|k: int| 0 <= k < self@.len() && #[trigger] self@[k] == key && below_upper_bound(bound, key)
                                && forall|j: int| k < j < self@.len() ==> !below_upper_bound(bound, #[trigger] self@[j]);
                            if k < i - 1 {
                                assert(!below_upper_bound(bound, self@[i - 1]));
                            }
                        },
                        None => {},
                    }
                } else {
                    assert forall|j: int| 0 <= j < self@.len() implies !below_upper_bound(bound, #[trigger] self@[j]) by {}
                }
            }
        }
        match found {
            Some(key) => NodePointer::from_memory_address(key),
            None => NodePointer::null(),
        }
    }

    /// The node whose address is `key`, or null when there is none.
    pub fn find(&self, key: usize) -> (found: NodePointer)
        requires
            self.wf(),
        ensures
            self@.contains(key) ==> found.address_of() == key,
            !self@.contains(key) ==> found.address_of() == 0,
    {
        if contains_key(&self.root, key) {
            NodePointer::from_memory_address(key)
        } else {
            NodePointer::null()
        }
    }

    /// The first node whose key is within `bound` from below, or null when there is none.
    pub fn lower_bound(&self, bound: Bound) -> (lower: NodePointer)
        requires
            self.wf(),
        ensures
            lower.address_of() == 0 <==> (forall|j: int|
                0 <= j < self@.len() ==> !above_lower_bound(bound, self@[j])),
            lower.address_of() != 0 ==> exists|i: int|
                0 <= i < self@.len() && #[trigger] self@[i] == lower.address_of() && above_lower_bound(
                    bound,
                    self@[i],
                ) && forall|j: int| 0 <= j < i ==> !above_lower_bound(bound, self@[j]),
    {
        let found = lower_bound_key(&self.root, bound);
        match found {
            Some(key) => {
                proof {
                    let i = choose|i: int| 0 <= i < self@.len() && #[trigger] self@[i] == key && above_lower_bound(bound, key)
                        && forall|j: int| 0 <= j < i ==> !above_lower_bound(bound, #[trigger] self@[j]);
                    assert(key != 0);
                    assert(!(forall|j: int| 0 <= j < self@.len() ==> !above_lower_bound(bound, self@[j])));
                }
                NodePointer::from_memory_address(key)
            },
            None => NodePointer::null(),
        }
    }

    /// The last node whose key is within `bound` from above, or null when there is none.
    pub fn upper_bound(&self, bound: Bound) -> (upper: NodePointer)
        requires
            self.wf(),
        ensures
            upper.address_of() == 0 <==> (forall|j: int|
                0 <= j < self@.len() ==> !below_upper_bound(bound, self@[j])),
            upper.address_of() != 0 ==> exists|i: int|
                0 <= i < self@.len() && #[trigger] self@[i] == upper.address_of() && below_upper_bound(
                    bound,
                    self@[i],
                ) && forall|j: int| i < j < self@.len() ==> !below_upper_bound(bound, self@[j]),
    {
        let found = upper_bound_key(&self.root, bound);
        match found {
            Some(key) => {
                proof {
                    let i = choose|i: int| 0 <= i < self@.len() && #[trigger] self@[i] == key && below_upper_bound(bound, key)
                        && forall|j: int| i < j < self@.len() ==> !below_upper_bound(bound, #[trigger] self@[j]);
                    assert(key != 0);
                    assert(!(forall|j: int| 0 <= j < self@.len() ==> !below_upper_bound(bound, self@[j])));
                }
                NodePointer::from_memory_address(key)
            },
            None => NodePointer::null(),
        }
    }

    /// Blackens the root, as the root of a red-black tree always is.
    fn blacken_root(&mut self)
        ensures
            final(self)@ == old(self)@,
            color_of(final(self).root) == Color::Black,
            black_balanced(old(self).root) ==> black_balanced(final(self).root),
            no_red_red_below(old(self).root) ==> no_red_red(final(self).root),
    {
        if let Some(mut root) = self.root.take() {
            root.color = Color::Black;
            self.root = Some(root);
        }
    }

    /// Inserts `value`, rebalancing the tree; a value already in the set is left as it is.
    /// Returns the node for `value`.
    pub fn insert_memory_address(&mut self, value: usize) -> (inserted: NodePointer)
        requires
            old(self).wf(),
            value != 0,
        ensures
            final(self).wf(),
            inserted.address_of() == value,
            final(self)@.to_set() == old(self)@.to_set().insert(value),
            forall|x: usize| #[trigger]
                final(self)@.contains(x) <==> old(self)@.contains(x) || x == value,
            old(self)@.contains(value) ==> final(self)@ == old(self)@,
            !old(self)@.contains(value) ==> final(self)@.len() == old(self)@.len() + 1,
            !old(self)@.contains(value) ==> exists|position: int|
                0 <= position <= old(self)@.len() && final(self)@ == #[trigger] old(self)@.insert(position, value),
    {
        let ghost before = self@;
        let root = self.root.take();
        let inserted = insert_key(root, value);
        proof {
            assert(in_order(Some(inserted)) == node_in_order(*inserted));
        }
        self.root = Some(inserted);
        self.blacken_root();
        proof {
            assert forall|x: usize| self@.contains(x) <==> before.contains(x) || x == value by {
                if !before.contains(value) {
                    let position = choose|position: int| 0 <= position <= before.len() && self@ == #[trigger] before.insert(position, value);
                    if self@.contains(x) {
                        let k = choose|k: int| 0 <= k < self@.len() && self@[k] == x;
                        if k < position {
                            assert(before[k] == x);
                        } else if k > position {
                            assert(before[k - 1] == x);
                        }
                    }
                    if before.contains(x) {
                        let k = choose|k: int| 0 <= k < before.len() && before[k] == x;
                        if k < position {
                            assert(self@[k] == x);
                        } else {
                            assert(self@[k + 1] == x);
                        }
                    }
                    if x == value {
                        assert(self@[position] == x);
                    }
                }
            }
            assert forall|i: int| 0 <= i < self@.len() implies self@[i] != 0 by {
                assert(self@.contains(self@[i]));
                if self@[i] != value {
                    let k = choose|k: int| 0 <= k < before.len() && before[k] == self@[i];
                }
            }
            assert forall|x: usize| #[trigger] self@.to_set().contains(x) == before.to_set().insert(value).contains(x) by {
                assert(self@.contains(x) <==> before.contains(x) || x == value);
            }
            assert(self@.to_set() =~= before.to_set().insert(value));
        }
        NodePointer::from_memory_address(value)
    }

    /// Removes the node `node_pointer`, rebalancing the tree.
    pub fn remove_node_pointer(&mut self, node_pointer: NodePointer)
        requires
            old(self).wf(),
            old(self)@.contains(node_pointer.address_of()),
        ensures
            final(self).wf(),
            exists|i: int|
                0 <= i < old(self)@.len() && #[trigger] old(self)@[i] == node_pointer.address_of()
                    && final(self)@ == old(self)@.remove(i),
            final(self)@.to_set() == old(self)@.to_set().remove(node_pointer.address_of()),
            final(self)@.len() == old(self)@.len() - 1,
    {
        let ghost before = self@;
        let key = node_pointer.value_or_null();
        let root = self.root.take();
        self.root = delete_key(root, key);
        self.blacken_root();
        proof {
            let i = choose|i: int| 0 <= i < before.len() && #[trigger] before[i] == key && self@ == before.remove(i);
            assert forall|x: usize| self@.contains(x) <==> before.contains(x) && x != key by {
                if self@.contains(x) {
                    let k = choose|k: int| 0 <= k < self@.len() && self@[k] == x;
                    if k < i {
                        assert(before[k] == x);
                        assert(before[k] < before[i]);
                    } else {
                        assert(before[k + 1] == x);
                        assert(before[i] < before[k + 1]);
                    }
                }
                if before.contains(x) && x != key {
                    let k = choose|k: int| 0 <= k < before.len() && before[k] == x;
                    if k < i {
                        assert(self@[k] == x);
                    } else {
                        assert(self@[k - 1] == x);
                    }
                }
            }
            assert forall|j: int| 0 <= j < self@.len() implies self@[j] != 0 by {
                if j < i {
                    assert(self@[j] == before[j]);
                } else {
                    assert(self@[j] == before[j + 1]);
                }
            }
            assert(self@.to_set() =~= before.to_set().remove(key));
        }
    }

    /// Makes `value` the only node of the empty set.
    pub fn insert_root(&mut self, value: usize)
        requires
            old(self)@.len() == 0,
            value != 0,
        ensures
            final(self).wf(),
            final(self)@ == seq![value],
    {
        self.root = Some(Box::new(Node { key: value, color: Color::Black, left: None, right: None }));
        proof {
            assert(self@ =~= seq![value]);
            lemma_empty();
            lemma_unfold(self.root);
        }
    }

    /// Inserts `value` as the node just before `node`; `value` lies between `node` and the
    /// node before it.
    pub fn insert_left(&mut self, node: NodePointer, value: usize)
        requires
            old(self).wf(),
            value != 0,
            exists|i: int| 0 <= i < old(self)@.len() && #[trigger] old(self)@[i] == node.address_of()
                && (i == 0 || old(self)@[i - 1] < value) && value < old(self)@[i],
        ensures
            final(self).wf(),
            forall|i: int| 0 <= i < old(self)@.len() && #[trigger] old(self)@[i] == node.address_of()
                ==> final(self)@ == old(self)@.insert(i, value),
    {
        let ghost before = self@;
        let ghost place = choose|i: int| 0 <= i < before.len() && #[trigger] before[i] == node.address_of()
            && (i == 0 || before[i - 1] < value) && value < before[i];
        proof {
            if before.contains(value) {
                let k = choose|k: int| 0 <= k < before.len() && before[k] == value;
                if k < place {
                    if k < place - 1 {
                        assert(before[k] < before[place - 1]);
                    }
                } else if k > place {
                    assert(before[place] < before[k]);
                }
            }
        }
        self.insert_memory_address(value);
        proof {
            let position = choose|position: int| 0 <= position <= before.len() && self@ == #[trigger] before.insert(position, value);
            lemma_insertion_position(before, value, position, place);
            assert forall|i: int| 0 <= i < before.len() && #[trigger] before[i] == node.address_of() implies i == place by {
                if i < place {
                    assert(before[i] < before[place]);
                } else if i > place {
                    assert(before[place] < before[i]);
                }
            }
        }
    }

    /// Inserts `value` as the node just after `node`; `value` lies between `node` and the node
    /// after it.
    pub fn insert_right(&mut self, node: NodePointer, value: usize)
        requires
            old(self).wf(),
            exists|i: int| 0 <= i < old(self)@.len() && #[trigger] old(self)@[i] == node.address_of()
                && old(self)@[i] < value && (i + 1 == old(self)@.len() || value < old(self)@[i + 1]),
        ensures
            final(self).wf(),
            forall|i: int| 0 <= i < old(self)@.len() && #[trigger] old(self)@[i] == node.address_of()
                ==> final(self)@ == old(self)@.insert(i + 1, value),
    {
        let ghost before = self@;
        let ghost place = choose|i: int| 0 <= i < before.len() && #[trigger] before[i] == node.address_of()
            && before[i] < value && (i + 1 == before.len() || value < before[i + 1]);
        proof {
            assert(before[place] != 0);
            if before.contains(value) {
                let k = choose|k: int| 0 <= k < before.len() && before[k] == value;
                if k < place {
                    assert(before[k] < before[place]);
                } else if k > place + 1 {
                    assert(before[place + 1] < before[k]);
                }
            }
        }
        self.insert_memory_address(value);
        proof {
            let position = choose|position: int| 0 <= position <= before.len() && self@ == #[trigger] before.insert(position, value);
            lemma_insertion_position(before, value, position, place + 1);
            assert forall|i: int| 0 <= i < before.len() && #[trigger] before[i] == node.address_of() implies i == place by {
                if i < place {
                    assert(before[i] < before[place]);
                } else if i > place {
                    assert(before[place] < before[i]);
                }
            }
        }
    }

    /// Puts `value` in the place of the node `node`; `value` lies between the nodes around it.
    pub fn replace_with(&mut self, node: NodePointer, value: usize)
        requires
            old(self).wf(),
            value != 0,
            exists|i: int| 0 <= i < old(self)@.len() && #[trigger] old(self)@[i] == node.address_of()
                && (i == 0 || old(self)@[i - 1] < value) && (i + 1 == old(self)@.len() || value
                < old(self)@[i + 1]),
        ensures
            final(self).wf(),
            forall|i: int| 0 <= i < old(self)@.len() && #[trigger] old(self)@[i] == node.address_of()
                ==> final(self)@ == old(self)@.update(i, value),
    {
        let ghost before = self@;
        let ghost place = choose|i: int| 0 <= i < before.len() && #[trigger] before[i] == node.address_of()
            && (i == 0 || before[i - 1] < value) && (i + 1 == before.len() || value < before[i + 1]);
        let root = self.root.take().unwrap();
        proof {
            assert(node_in_order(*root) == before);
            assert(before.contains(node.address_of()));
        }
        self.root = Some(replace_key(root, node.value_or_null(), value));
        proof {
            assert(self@ == before.update(place, value));
            assert forall|i: int, j: int| 0 <= i < j < self@.len() implies self@[i] < self@[j] by {
                if i != place && j != place {
                    assert(before[i] < before[j]);
                } else if i == place {
                    if j > place + 1 {
                        assert(before[place + 1] < before[j]);
                    }
                } else {
                    if i < place - 1 {
                        assert(before[i] < before[place - 1]);
                    }
                }
            }
        }
    }

    /// The address of the first node of the longest run of nodes that ends at `node` and in
    /// which each block of `block_size` bytes ends where the next begins.
    pub fn furthest_back_contiguous_with(&self, node: NodePointer, block_size: usize) -> (
        furthest: usize)
        requires
            self.wf(),
            self@.contains(node.address_of()),
            forall|j: int| 0 <= j < self@.len() ==> #[trigger] self@[j] + block_size <= usize::MAX,
        ensures
            exists|back: int, at: int|
                0 <= back <= at < self@.len() && self@[at] == node.address_of() && self@[back]
                    == furthest && contiguous_run(self@, back, at, block_size as int) && (back
                    == 0 || self@[back - 1] + block_size != self@[back]),
    {
        let ghost at = choose|at: int| 0 <= at < self@.len() && self@[at] == node.address_of();
        let mut after = node;
        let mut before = self.previous(node);
        let ghost mut back: int = at;
        loop
            invariant
                self.wf(),
                0 <= back <= at < self@.len(),
                self@[at] == node.address_of(),
                self@[back] == after.address_of(),
                after.address_of() != 0,
                back > 0 ==> before.address_of() == self@[back - 1],
                back == 0 ==> before.address_of() == 0,
                forall|j: int| 0 <= j < self@.len() ==> #[trigger] self@[j] + block_size <= usize::MAX,
                contiguous_run(self@, back, at, block_size as int),
            decreases back,
        {
            if RedBlackTree::is_contiguous_before(before, after, block_size) {
                proof {
                    assert(followed_by_contiguous(self@, back - 1, block_size as int));
                    assert(self@.contains(before.address_of()));
                    back = back - 1;
                }
                after = before;
                before = self.previous(before);
            } else {
                return after.value();
            }
        }
    }

    /// The address of the last node of the longest run of nodes that starts at `node` and in
    /// which each block of `block_size` bytes ends where the next begins.
    pub fn furthest_forward_contiguous_with(&self, node: NodePointer, block_size: usize) -> (
        furthest: usize)
        requires
            self.wf(),
            self@.contains(node.address_of()),
            forall|j: int| 0 <= j < self@.len() ==> #[trigger] self@[j] + block_size <= usize::MAX,
        ensures
            exists|at: int, forward: int|
                0 <= at <= forward < self@.len() && self@[at] == node.address_of()
                    && self@[forward] == furthest && contiguous_run(
                    self@,
                    at,
                    forward,
                    block_size as int,
                ) && (forward == self@.len() - 1 || self@[forward] + block_size != self@[forward
                    + 1]),
    {
        let ghost at = choose|at: int| 0 <= at < self@.len() && self@[at] == node.address_of();
        let mut before = node;
        let mut after = self.next(node);
        let ghost mut forward: int = at;
        loop
            invariant
                self.wf(),
                0 <= at <= forward < self@.len(),
                self@[at] == node.address_of(),
                self@[forward] == before.address_of(),
                before.address_of() != 0,
                forward + 1 < self@.len() ==> after.address_of() == self@[forward + 1],
                forward + 1 == self@.len() ==> after.address_of() == 0,
                forall|j: int| 0 <= j < self@.len() ==> #[trigger] self@[j] + block_size <= usize::MAX,
                contiguous_run(self@, at, forward, block_size as int),
            decreases self@.len() - forward,
        {
            if after.is_not_null() && RedBlackTree::is_contiguous_before(before, after, block_size) {
                proof {
                    assert(followed_by_contiguous(self@, forward, block_size as int));
                    assert(self@.contains(after.address_of()));
                    forward = forward + 1;
                }
                before = after;
                after = self.next(after);
            } else {
                return before.value();
            }
        }
    }

    /// Removing an address that was just inserted into a set that lacked it gives back the set
    /// as it was.
    pub proof fn lemma_remove_undoes_insert(before: RedBlackTree, inserted: RedBlackTree, removed: RedBlackTree, value: usize)
        requires
            before.wf(),
            inserted.wf(),
            !before@.contains(value),
            exists|position: int|
                0 <= position <= before@.len() && inserted@ == #[trigger] before@.insert(position, value),
            exists|i: int|
                0 <= i < inserted@.len() && #[trigger] inserted@[i] == value && removed@ == inserted@.remove(i),
        ensures
            removed@ == before@,
    {
        let position = choose|position: int|
            0 <= position <= before@.len() && inserted@ == #[trigger] before@.insert(position, value);
        let i = choose|i: int|
            0 <= i < inserted@.len() && #[trigger] inserted@[i] == value && removed@ == inserted@.remove(i);
        assert(inserted@[position] == value);
        if i < position {
            assert(inserted@[i] < inserted@[position]);
        } else if i > position {
            assert(inserted@[position] < inserted@[i]);
        }
        assert(removed@ =~= before@);
    }

    /// Returns `true` if `before` is a node whose block of `block_size` bytes ends where the
    /// block of `after` starts.
    pub fn is_contiguous_before(before: NodePointer, after: NodePointer, block_size: usize) -> (
        contiguous: bool)
        requires
            after.address_of() != 0,
            before.address_of() + block_size <= usize::MAX,
        ensures
            contiguous == (before.address_of() != 0 && before.address_of() + block_size
                == after.address_of()),
    {
        before.is_not_null() && before.end_memory_address(block_size) == after.value()
    }
}

/// Does each block of `block_size` bytes from index `from` up to index `to` of `addresses` end
/// where the next one begins?
pub open spec fn contiguous_run(addresses: Seq<usize>, from: int, to: int, block_size: int) -> bool {
    forall|j: int| from <= j < to ==> #[trigger] followed_by_contiguous(addresses, j, block_size)
}

/// Does the block of `block_size` bytes at index `index` of `addresses` end where the next
/// one begins?
pub open spec fn followed_by_contiguous(addresses: Seq<usize>, index: int, block_size: int) -> bool {
    addresses[index] + block_size == addresses[index + 1]
}

/// Is `key` within `bound` from below?
pub open spec fn above_lower_bound(bound: Bound, key: usize) -> bool {
    match bound {
        Bound::Unbounded => true,
        Bound::Included(limit) => limit <= key,
        Bound::Excluded(limit) => limit < key,
    }
}

/// Is `key` within `bound` from above?
pub open spec fn below_upper_bound(bound: Bound, key: usize) -> bool {
    match bound {
        Bound::Unbounded => true,
        Bound::Included(limit) => key <= limit,
        Bound::Excluded(limit) => key < limit,
    }
}

} // verus!
