//! The nodes of a red-black tree of addresses, their in-order sequence, and the searches that
//! follow it. Insertion and deletion, which rebalance the tree, are in `balancing`.
use vstd::prelude::*;
use crate::binary_search_trees::balancing::{
    black_balanced,
    black_height,
    no_red_red,
};
use crate::binary_search_trees::red_black_tree::{
    above_lower_bound,
    below_upper_bound,
    strictly_ascending,
    Bound,
};

verus! {

/// The colour of a node of a red-black tree.
#[derive(Clone, Copy, Debug, PartialEq, Eq, Structural)]
pub enum Color {
    Red,
    Black,
}

impl Color {
    /// Is this colour red?
    pub fn is_red(self) -> (red: bool)
        ensures
            red == (self == Color::Red),
    {
        match self {
            Color::Red => true,
            Color::Black => false,
        }
    }

    /// Is this colour black?
    pub fn is_black(self) -> (black: bool)
        ensures
            black == (self == Color::Black),
    {
        match self {
            Color::Red => false,
            Color::Black => true,
        }
    }
}

/// A node of the tree: an address, its colour, and its subtrees.
#[derive(Debug)]
pub struct Node {
    pub key: usize,
    pub color: Color,
    pub left: Option<Box<Node>>,
    pub right: Option<Box<Node>>,
}

/// The addresses of the subtree `link`, in order.
pub open spec fn in_order(link: Option<Box<Node>>) -> Seq<usize>
    decreases link,
{
    match link {
        None => Seq::empty(),
        Some(node) => in_order(node.left) + seq![node.key] + in_order(node.right),
    }
}

/// The addresses of the subtree rooted at `node`, in order.
pub open spec fn node_in_order(node: Node) -> Seq<usize> {
    in_order(node.left) + seq![node.key] + in_order(node.right)
}

/// The in-order sequence of a node is that of its left subtree, its key, and that of its
/// right subtree; it is ascending exactly when both parts are, and lie on either side of the
/// key.
pub proof fn lemma_ascending_around(left: Seq<usize>, key: usize, right: Seq<usize>)
    ensures
        strictly_ascending(left + seq![key] + right) <==> (strictly_ascending(left)
            && strictly_ascending(right) && (forall|i: int| 0 <= i < left.len() ==> #[trigger] left[i] < key)
            && (forall|i: int| 0 <= i < right.len() ==> key < #[trigger] right[i])),
{
    let whole = left + seq![key] + right;
    if strictly_ascending(whole) {
        assert forall|i: int, j: int| 0 <= i < j < left.len() implies left[i] < left[j] by {
            assert(whole[i] == left[i] && whole[j] == left[j]);
        }
        assert forall|i: int, j: int| 0 <= i < j < right.len() implies right[i] < right[j] by {
            assert(whole[left.len() + 1 + i] == right[i] && whole[left.len() + 1 + j] == right[j]);
        }
        assert forall|i: int| 0 <= i < left.len() implies #[trigger] left[i] < key by {
            assert(whole[i] == left[i] && whole[left.len() as int] == key);
        }
        assert forall|i: int| 0 <= i < right.len() implies key < #[trigger] right[i] by {
            assert(whole[left.len() + 1 + i] == right[i] && whole[left.len() as int] == key);
        }
    }
    if strictly_ascending(left) && strictly_ascending(right) && (forall|i: int| 0 <= i < left.len() ==> #[trigger] left[i] < key)
        && (forall|i: int| 0 <= i < right.len() ==> key < #[trigger] right[i]) {
        assert forall|i: int, j: int| 0 <= i < j < whole.len() implies whole[i] < whole[j] by {
            if j < left.len() {
            } else if j == left.len() {
                assert(whole[i] == left[i]);
            } else if i < left.len() {
                assert(whole[i] == left[i] && whole[j] == right[j - left.len() - 1]);
                assert(left[i] < key);
            } else if i == left.len() {
                assert(whole[j] == right[j - left.len() - 1]);
            } else {
                assert(whole[i] == right[i - left.len() - 1] && whole[j] == right[j - left.len() - 1]);
            }
        }
    }
}

/// Inserting `key`, less than `node_key`, into the left subtree inserts it into the whole
/// in-order sequence.
pub proof fn lemma_inserted_on_the_left(left: Seq<usize>, node_key: usize, right: Seq<usize>, grown: Seq<usize>, key: usize)
    requires
        strictly_ascending(left + seq![node_key] + right),
        key < node_key,
        strictly_ascending(grown),
        left.contains(key) ==> grown == left,
        !left.contains(key) ==> exists|position: int| 0 <= position <= left.len() && grown == #[trigger] left.insert(position, key),
    ensures
        strictly_ascending(grown + seq![node_key] + right),
        (left + seq![node_key] + right).contains(key) ==> grown + seq![node_key] + right == left + seq![node_key] + right,
        !(left + seq![node_key] + right).contains(key) ==> exists|position: int|
            0 <= position <= (left + seq![node_key] + right).len() && grown + seq![node_key] + right == #[trigger] (left + seq![node_key] + right).insert(position, key),
{
    let whole = left + seq![node_key] + right;
    lemma_ascending_around(left, node_key, right);
    if left.contains(key) {
        let k = choose|k: int| 0 <= k < left.len() && left[k] == key;
        assert(whole[k] == key);
    } else {
        let position = choose|position: int| 0 <= position <= left.len() && grown == #[trigger] left.insert(position, key);
        assert forall|i: int| 0 <= i < grown.len() implies #[trigger] grown[i] < node_key by {
            if i > position {
                assert(grown[i] == left[i - 1]);
            } else if i < position {
                assert(grown[i] == left[i]);
            }
        }
        lemma_ascending_around(grown, node_key, right);
        assert(grown + seq![node_key] + right =~= whole.insert(position, key));
        if whole.contains(key) {
            let k = choose|k: int| 0 <= k < whole.len() && whole[k] == key;
            if k < left.len() {
                assert(left[k] == key);
            } else if k > left.len() {
                assert(right[k - left.len() - 1] == key);
            }
        }
    }
}

/// Inserting `key`, greater than `node_key`, into the right subtree inserts it into the whole
/// in-order sequence.
pub proof fn lemma_inserted_on_the_right(left: Seq<usize>, node_key: usize, right: Seq<usize>, grown: Seq<usize>, key: usize)
    requires
        strictly_ascending(left + seq![node_key] + right),
        node_key < key,
        strictly_ascending(grown),
        right.contains(key) ==> grown == right,
        !right.contains(key) ==> exists|position: int| 0 <= position <= right.len() && grown == #[trigger] right.insert(position, key),
    ensures
        strictly_ascending(left + seq![node_key] + grown),
        (left + seq![node_key] + right).contains(key) ==> left + seq![node_key] + grown == left + seq![node_key] + right,
        !(left + seq![node_key] + right).contains(key) ==> exists|position: int|
            0 <= position <= (left + seq![node_key] + right).len() && left + seq![node_key] + grown == #[trigger] (left + seq![node_key] + right).insert(position, key),
{
    let whole = left + seq![node_key] + right;
    lemma_ascending_around(left, node_key, right);
    if right.contains(key) {
        let k = choose|k: int| 0 <= k < right.len() && right[k] == key;
        assert(whole[left.len() + 1 + k] == key);
    } else {
        let position = choose|position: int| 0 <= position <= right.len() && grown == #[trigger] right.insert(position, key);
        assert forall|i: int| 0 <= i < grown.len() implies node_key < #[trigger] grown[i] by {
            if i > position {
                assert(grown[i] == right[i - 1]);
            } else if i < position {
                assert(grown[i] == right[i]);
            }
        }
        lemma_ascending_around(left, node_key, grown);
        assert(left + seq![node_key] + grown =~= whole.insert(left.len() + 1 + position, key));
        if whole.contains(key) {
            let k = choose|k: int| 0 <= k < whole.len() && whole[k] == key;
            if k < left.len() {
                assert(left[k] == key);
            } else if k > left.len() {
                assert(right[k - left.len() - 1] == key);
            }
        }
    }
}

/// The sequence `whole` with `key` removed, when it holds `key`; otherwise `whole` itself.
pub open spec fn without(whole: Seq<usize>, key: usize, shrunk: Seq<usize>) -> bool {
    &&& whole.contains(key) ==> exists|position: int|
        0 <= position < whole.len() && #[trigger] whole[position] == key && shrunk == whole.remove(position)
    &&& !whole.contains(key) ==> shrunk == whole
}

/// Removing `key`, less than `node_key`, from the left subtree removes it from the whole
/// in-order sequence.
pub proof fn lemma_removed_on_the_left(left: Seq<usize>, node_key: usize, right: Seq<usize>, shrunk: Seq<usize>, key: usize)
    requires
        strictly_ascending(left + seq![node_key] + right),
        key < node_key,
        strictly_ascending(shrunk),
        without(left, key, shrunk),
    ensures
        strictly_ascending(shrunk + seq![node_key] + right),
        without(left + seq![node_key] + right, key, shrunk + seq![node_key] + right),
{
    let whole = left + seq![node_key] + right;
    lemma_ascending_around(left, node_key, right);
    if left.contains(key) {
        let position = choose|position: int| 0 <= position < left.len() && #[trigger] left[position] == key && shrunk == left.remove(position);
        assert forall|i: int| 0 <= i < shrunk.len() implies #[trigger] shrunk[i] < node_key by {
            if i >= position {
                assert(shrunk[i] == left[i + 1]);
            } else {
                assert(shrunk[i] == left[i]);
            }
        }
        assert(whole[position] == key);
        assert(shrunk + seq![node_key] + right =~= whole.remove(position));
    } else {
        if whole.contains(key) {
            let k = choose|k: int| 0 <= k < whole.len() && whole[k] == key;
            if k < left.len() {
                assert(left[k] == key);
            } else if k > left.len() {
                assert(right[k - left.len() - 1] == key);
            }
        }
    }
    lemma_ascending_around(shrunk, node_key, right);
}

/// Removing `key`, greater than `node_key`, from the right subtree removes it from the whole
/// in-order sequence.
pub proof fn lemma_removed_on_the_right(left: Seq<usize>, node_key: usize, right: Seq<usize>, shrunk: Seq<usize>, key: usize)
    requires
        strictly_ascending(left + seq![node_key] + right),
        node_key < key,
        strictly_ascending(shrunk),
        without(right, key, shrunk),
    ensures
        strictly_ascending(left + seq![node_key] + shrunk),
        without(left + seq![node_key] + right, key, left + seq![node_key] + shrunk),
{
    let whole = left + seq![node_key] + right;
    lemma_ascending_around(left, node_key, right);
    if right.contains(key) {
        let position = choose|position: int| 0 <= position < right.len() && #[trigger] right[position] == key && shrunk == right.remove(position);
        assert forall|i: int| 0 <= i < shrunk.len() implies node_key < #[trigger] shrunk[i] by {
            if i >= position {
                assert(shrunk[i] == right[i + 1]);
            } else {
                assert(shrunk[i] == right[i]);
            }
        }
        assert(whole[left.len() + 1 + position] == key);
        assert(left + seq![node_key] + shrunk =~= whole.remove(left.len() + 1 + position));
    } else {
        if whole.contains(key) {
            let k = choose|k: int| 0 <= k < whole.len() && whole[k] == key;
            if k < left.len() {
                assert(left[k] == key);
            } else if k > left.len() {
                assert(right[k - left.len() - 1] == key);
            }
        }
    }
    lemma_ascending_around(left, node_key, shrunk);
}

/// The lowest key of the subtree `link`, if any.
pub fn first_key(link: &Option<Box<Node>>) -> (first: Option<usize>)
    ensures
        in_order(*link).len() == 0 ==> first is None,
        in_order(*link).len() > 0 ==> first == Some(in_order(*link)[0]),
    decreases *link,
{
    match link {
        None => None,
        Some(node) => {
            let found = first_key(&node.left);
            proof {
                assert(in_order(*link) == in_order(node.left) + seq![node.key] + in_order(node.right));
            }
            match found {
                Some(key) => Some(key),
                None => Some(node.key),
            }
        },
    }
}

/// The highest key of the subtree `link`, if any.
pub fn last_key(link: &Option<Box<Node>>) -> (last: Option<usize>)
    ensures
        in_order(*link).len() == 0 ==> last is None,
        in_order(*link).len() > 0 ==> last == Some(in_order(*link).last()),
    decreases *link,
{
    match link {
        None => None,
        Some(node) => {
            let found = last_key(&node.right);
            proof {
                assert(in_order(*link) == in_order(node.left) + seq![node.key] + in_order(node.right));
            }
            match found {
                Some(key) => Some(key),
                None => Some(node.key),
            }
        },
    }
}

/// The first key of the subtree `link`, in order, that is within `bound` from below.
pub fn lower_bound_key(link: &Option<Box<Node>>, bound: Bound) -> (lower: Option<usize>)
    requires
        strictly_ascending(in_order(*link)),
    ensures
        lower is None <==> (forall|j: int| 0 <= j < in_order(*link).len() ==> !above_lower_bound(bound, #[trigger] in_order(*link)[j])),
        lower matches Some(key) ==> exists|i: int|
            0 <= i < in_order(*link).len() && #[trigger] in_order(*link)[i] == key && above_lower_bound(bound, key)
                && forall|j: int| 0 <= j < i ==> !above_lower_bound(bound, #[trigger] in_order(*link)[j]),
    decreases *link,
{
    match link {
        None => None,
        Some(node) => {
            let ghost left = in_order(node.left);
            let ghost right = in_order(node.right);
            let ghost whole = in_order(*link);
            proof {
                assert(whole == left + seq![node.key] + right);
                lemma_ascending_around(left, node.key, right);
            }
            let within = match bound {
                Bound::Unbounded => true,
                Bound::Included(limit) => limit <= node.key,
                Bound::Excluded(limit) => limit < node.key,
            };
            if within {
                let found = lower_bound_key(&node.left, bound);
                match found {
                    Some(key) => {
                        proof {
                            let i = choose|i: int| 0 <= i < left.len() && #[trigger] left[i] == key && above_lower_bound(bound, key)
                                && forall|j: int| 0 <= j < i ==> !above_lower_bound(bound, #[trigger] left[j]);
                            assert(whole[i] == key);
                            assert forall|j: int| 0 <= j < i implies !above_lower_bound(bound, #[trigger] whole[j]) by {
                                assert(whole[j] == left[j]);
                            }
                        }
                        Some(key)
                    },
                    None => {
                        proof {
                            assert(whole[left.len() as int] == node.key);
                            assert forall|j: int| 0 <= j < left.len() implies !above_lower_bound(bound, #[trigger] whole[j]) by {
                                assert(whole[j] == left[j]);
                            }
                        }
                        Some(node.key)
                    },
                }
            } else {
                let found = lower_bound_key(&node.right, bound);
                proof {
                    assert forall|j: int| 0 <= j <= left.len() implies !above_lower_bound(bound, #[trigger] whole[j]) by {
                        if j < left.len() {
                            assert(whole[j] == left[j]);
                            assert(left[j] < node.key);
                        }
                    }
                    match found {
                        Some(key) => {
                            let i = choose|i: int| 0 <= i < right.len() && #[trigger] right[i] == key && above_lower_bound(bound, key)
                                && forall|j: int| 0 <= j < i ==> !above_lower_bound(bound, #[trigger] right[j]);
                            assert(whole[left.len() + 1 + i] == key);
                            assert forall|j: int| 0 <= j < left.len() + 1 + i implies !above_lower_bound(bound, #[trigger] whole[j]) by {
                                if j > left.len() {
                                    assert(whole[j] == right[j - left.len() - 1]);
                                }
                            }
                        },
                        None => {
                            assert forall|j: int| 0 <= j < whole.len() implies !above_lower_bound(bound, #[trigger] whole[j]) by {
                                if j > left.len() {
                                    assert(whole[j] == right[j - left.len() - 1]);
                                }
                            }
                        },
                    }
                }
                found
            }
        },
    }
}

/// The last key of the subtree `link`, in order, that is within `bound` from above.
pub fn upper_bound_key(link: &Option<Box<Node>>, bound: Bound) -> (upper: Option<usize>)
    requires
        strictly_ascending(in_order(*link)),
    ensures
        upper is None <==> (forall|j: int| 0 <= j < in_order(*link).len() ==> !below_upper_bound(bound, #[trigger] in_order(*link)[j])),
        upper matches Some(key) ==> exists|i: int|
            0 <= i < in_order(*link).len() && #[trigger] in_order(*link)[i] == key && below_upper_bound(bound, key)
                && forall|j: int| i < j < in_order(*link).len() ==> !below_upper_bound(bound, #[trigger] in_order(*link)[j]),
    decreases *link,
{
    match link {
        None => None,
        Some(node) => {
            let ghost left = in_order(node.left);
            let ghost right = in_order(node.right);
            let ghost whole = in_order(*link);
            proof {
                assert(whole == left + seq![node.key] + right);
                lemma_ascending_around(left, node.key, right);
            }
            let within = match bound {
                Bound::Unbounded => true,
                Bound::Included(limit) => node.key <= limit,
                Bound::Excluded(limit) => node.key < limit,
            };
            if within {
                let found = upper_bound_key(&node.right, bound);
                match found {
                    Some(key) => {
                        proof {
                            let i = choose|i: int| 0 <= i < right.len() && #[trigger] right[i] == key && below_upper_bound(bound, key)
                                && forall|j: int| i < j < right.len() ==> !below_upper_bound(bound, #[trigger] right[j]);
                            assert(whole[left.len() + 1 + i] == key);
                            assert forall|j: int| left.len() + 1 + i < j < whole.len() implies !below_upper_bound(bound, #[trigger] whole[j]) by {
                                assert(whole[j] == right[j - left.len() - 1]);
                            }
                        }
                        Some(key)
                    },
                    None => {
                        proof {
                            assert(whole[left.len() as int] == node.key);
                            assert forall|j: int| left.len() < j < whole.len() implies !below_upper_bound(bound, #[trigger] whole[j]) by {
                                assert(whole[j] == right[j - left.len() - 1]);
                            }
                        }
                        Some(node.key)
                    },
                }
            } else {
                let found = upper_bound_key(&node.left, bound);
                proof {
                    assert forall|j: int| left.len() <= j < whole.len() implies !below_upper_bound(bound, #[trigger] whole[j]) by {
                        if j > left.len() {
                            assert(whole[j] == right[j - left.len() - 1]);
                            assert(node.key < right[j - left.len() - 1]);
                        }
                    }
                    match found {
                        Some(key) => {
                            let i = choose|i: int| 0 <= i < left.len() && #[trigger] left[i] == key && below_upper_bound(bound, key)
                                && forall|j: int| i < j < left.len() ==> !below_upper_bound(bound, #[trigger] left[j]);
                            assert(whole[i] == key);
                            assert forall|j: int| i < j < whole.len() implies !below_upper_bound(bound, #[trigger] whole[j]) by {
                                if j < left.len() {
                                    assert(whole[j] == left[j]);
                                }
                            }
                        },
                        None => {
                            assert forall|j: int| 0 <= j < whole.len() implies !below_upper_bound(bound, #[trigger] whole[j]) by {
                                if j < left.len() {
                                    assert(whole[j] == left[j]);
                                }
                            }
                        },
                    }
                }
                found
            }
        },
    }
}

/// Is `key` in the subtree `link`?
pub fn contains_key(link: &Option<Box<Node>>, key: usize) -> (contained: bool)
    requires
        strictly_ascending(in_order(*link)),
    ensures
        contained == in_order(*link).contains(key),
    decreases *link,
{
    match link {
        None => false,
        Some(node) => {
            let ghost left = in_order(node.left);
            let ghost right = in_order(node.right);
            let ghost whole = in_order(*link);
            proof {
                assert(whole == left + seq![node.key] + right);
                lemma_ascending_around(left, node.key, right);
            }
            if key < node.key {
                let found = contains_key(&node.left, key);
                proof {
                    if found {
                        let k = choose|k: int| 0 <= k < left.len() && left[k] == key;
                        assert(whole[k] == key);
                    }
                    if whole.contains(key) {
                        let k = choose|k: int| 0 <= k < whole.len() && whole[k] == key;
                        if k < left.len() {
                            assert(left[k] == key);
                        } else if k > left.len() {
                            assert(right[k - left.len() - 1] == key);
                        }
                    }
                }
                found
            } else if key > node.key {
                let found = contains_key(&node.right, key);
                proof {
                    if found {
                        let k = choose|k: int| 0 <= k < right.len() && right[k] == key;
                        assert(whole[left.len() + 1 + k] == key);
                    }
                    if whole.contains(key) {
                        let k = choose|k: int| 0 <= k < whole.len() && whole[k] == key;
                        if k < left.len() {
                            assert(left[k] == key);
                        } else if k > left.len() {
                            assert(right[k - left.len() - 1] == key);
                        }
                    }
                }
                found
            } else {
                proof {
                    assert(whole[left.len() as int] == key);
                }
                true
            }
        },
    }
}

/// Puts `value` in the place of `key` in the subtree `h`, which holds `key`.
pub fn replace_key(h: Box<Node>, key: usize, value: usize) -> (replaced: Box<Node>)
    requires
        node_in_order(*h).contains(key),
        strictly_ascending(node_in_order(*h)),
    ensures
        forall|i: int| 0 <= i < node_in_order(*h).len() && #[trigger] node_in_order(*h)[i] == key
            ==> node_in_order(*replaced) == node_in_order(*h).update(i, value),
        replaced.color == h.color,
        black_height(Some(replaced)) == black_height(Some(h)),
        black_balanced(Some(replaced)) == black_balanced(Some(h)),
        no_red_red(Some(replaced)) == no_red_red(Some(h)),
    decreases node_in_order(*h).len(),
{
    let mut h = h;
    let ghost left = in_order(h.left);
    let ghost node_key = h.key;
    let ghost right = in_order(h.right);
    let ghost whole = node_in_order(*h);
    proof {
        lemma_ascending_around(left, node_key, right);
        let k = choose|k: int| 0 <= k < whole.len() && whole[k] == key;
        assert forall|i: int| 0 <= i < whole.len() && #[trigger] whole[i] == key implies i == k by {
            if i < k {
                assert(whole[i] < whole[k]);
            } else if i > k {
                assert(whole[k] < whole[i]);
            }
        }
    }
    let ghost k = choose|k: int| 0 <= k < whole.len() && whole[k] == key;
    if key < h.key {
        proof {
            if k >= left.len() {
                assert(whole[left.len() as int] == node_key);
                if k > left.len() {
                    assert(whole[left.len() as int] < whole[k]);
                }
            }
            assert(left[k] == key);
        }
        let subtree = h.left.take().unwrap();
        proof {
            assert(node_in_order(*subtree) == left);
            assert(left.contains(key));
            lemma_ascending_around(in_order(subtree.left), subtree.key, in_order(subtree.right));
        }
        h.left = Some(replace_key(subtree, key, value));
        proof {
            assert(in_order(h.left) == left.update(k, value));
            assert(node_in_order(*h) =~= whole.update(k, value));
        }
    } else if key > h.key {
        proof {
            if k <= left.len() {
                assert(whole[left.len() as int] == node_key);
                if k < left.len() {
                    assert(whole[k] < whole[left.len() as int]);
                }
            }
            assert(right[k - left.len() - 1] == key);
        }
        let subtree = h.right.take().unwrap();
        proof {
            assert(node_in_order(*subtree) == right);
            assert(right.contains(key));
        }
        h.right = Some(replace_key(subtree, key, value));
        proof {
            assert(in_order(h.right) == right.update(k - left.len() - 1, value));
            assert(node_in_order(*h) =~= whole.update(k, value));
        }
    } else {
        h.key = value;
        proof {
            assert(whole[left.len() as int] == key);
            assert(node_in_order(*h) =~= whole.update(left.len() as int, value));
        }
    }
    h
}

} // verus!
