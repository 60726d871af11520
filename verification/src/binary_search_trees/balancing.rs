//! Insertion and deletion that keep a tree of `Node`s a red-black tree.
//!
//! A red-black tree has no red node with a red child, and every path from a node down to a leaf
//! passes the same number of black nodes. Insertion puts a red node at the bottom and repairs
//! a red node with a red child on the way back up (`bali_left`, `bali_right`); deletion lowers
//! the black height of one side and repairs it on the way back up (`bald_left`, `bald_right`),
//! joining the two subtrees of a removed node (`join`). Each function keeps the in-order
//! sequence of the addresses exactly as stated.
use vstd::prelude::*;
use crate::binary_search_trees::node::{
    in_order,
    lemma_ascending_around,
    lemma_inserted_on_the_left,
    lemma_inserted_on_the_right,
    lemma_removed_on_the_left,
    lemma_removed_on_the_right,
    node_in_order,
    without,
    Color,
    Node,
};
use crate::binary_search_trees::red_black_tree::strictly_ascending;

verus! {

/// The colour of the subtree `link`; an empty subtree counts as black.
pub open spec fn color_of(link: Option<Box<Node>>) -> Color {
    match link {
        None => Color::Black,
        Some(node) => node.color,
    }
}

/// Does no red node of `link` have a red child?
pub open spec fn no_red_red(link: Option<Box<Node>>) -> bool
    decreases link,
{
    match link {
        None => true,
        Some(node) => {
            &&& no_red_red(node.left)
            &&& no_red_red(node.right)
            &&& node.color == Color::Red ==> color_of(node.left) == Color::Black && color_of(
                node.right,
            ) == Color::Black
        },
    }
}

/// Does no red node below the root of `link` have a red child? The root itself may be a red
/// node with a red child.
pub open spec fn no_red_red_below(link: Option<Box<Node>>) -> bool {
    match link {
        None => true,
        Some(node) => no_red_red(node.left) && no_red_red(node.right),
    }
}

/// The number of black nodes on the leftmost path from the root of `link` down to a leaf.
pub open spec fn black_height(link: Option<Box<Node>>) -> nat
    decreases link,
{
    match link {
        None => 0,
        Some(node) => if node.color == Color::Black {
            black_height(node.left) + 1
        } else {
            black_height(node.left)
        },
    }
}

/// Does every path from a node of `link` down to a leaf pass the same number of black nodes?
pub open spec fn black_balanced(link: Option<Box<Node>>) -> bool
    decreases link,
{
    match link {
        None => true,
        Some(node) => {
            &&& black_balanced(node.left)
            &&& black_balanced(node.right)
            &&& black_height(node.left) == black_height(node.right)
        },
    }
}

/// What each of the recursive properties says of a node: it is made of its children's.
pub proof fn lemma_unfold(link: Option<Box<Node>>)
    requires
        link is Some,
    ensures
        in_order(link) == in_order(link->0.left) + seq![link->0.key] + in_order(link->0.right),
        black_height(link) == if link->0.color == Color::Black {
            black_height(link->0.left) + 1
        } else {
            black_height(link->0.left)
        },
        black_balanced(link) == (black_balanced(link->0.left) && black_balanced(link->0.right)
            && black_height(link->0.left) == black_height(link->0.right)),
        no_red_red(link) == (no_red_red(link->0.left) && no_red_red(link->0.right) && (link->0.color
            == Color::Red ==> color_of(link->0.left) == Color::Black && color_of(link->0.right)
            == Color::Black)),
        no_red_red_below(link) == (no_red_red(link->0.left) && no_red_red(link->0.right)),
        color_of(link) == link->0.color,
{
}

/// What each of the recursive properties says of the empty subtree.
pub proof fn lemma_empty()
    ensures
        in_order(None) == Seq::<usize>::empty(),
        black_height(None) == 0,
        black_balanced(None),
        no_red_red(None),
        no_red_red_below(None),
        color_of(None) == Color::Black,
{
}

/// Is the subtree `link` rooted at a red node?
pub fn is_red(link: &Option<Box<Node>>) -> (red: bool)
    ensures
        red == (color_of(*link) == Color::Red),
{
    match link {
        Some(node) => node.color.is_red(),
        None => false,
    }
}

/// Is the subtree `link` rooted at a black node (and not empty)?
pub fn is_black_node(link: &Option<Box<Node>>) -> (black: bool)
    ensures
        black == (link is Some && color_of(*link) == Color::Black),
{
    match link {
        Some(node) => node.color.is_black(),
        None => false,
    }
}

/// A node holding `key`, coloured `color`, over the subtrees `left` and `right`.
pub fn make_node(left: Option<Box<Node>>, key: usize, color: Color, right: Option<Box<Node>>) -> (node: Box<Node>)
    ensures
        node.key == key,
        node.color == color,
        node.left == left,
        node.right == right,
{
    Box::new(Node { key, color, left, right })
}

/// The subtree `link` with its root painted `color`.
pub fn paint(link: Option<Box<Node>>, color: Color) -> (painted: Option<Box<Node>>)
    ensures
        in_order(painted) == in_order(link),
        painted is Some == link is Some,
        link matches Some(node) ==> painted matches Some(p) && p.key == node.key && p.left == node.left
            && p.right == node.right && p.color == color,
{
    match link {
        Some(node) => {
            let mut node = node;
            node.color = color;
            Some(node)
        },
        None => None,
    }
}

/// A black node over `left`, `key` and `right`, where `left` may be a red node with a red
/// child: that case is rebalanced into a red node with two black children.
pub fn bali_left(left: Option<Box<Node>>, key: usize, right: Option<Box<Node>>) -> (balanced: Box<Node>)
    ensures
        node_in_order(*balanced) == in_order(left) + seq![key] + in_order(right),
        black_balanced(left) && black_balanced(right) && black_height(left) == black_height(right)
            ==> black_balanced(Some(balanced)) && black_height(Some(balanced)) == black_height(left) + 1,
        no_red_red_below(left) && no_red_red(right) ==> no_red_red(Some(balanced)),
{
    let ghost l = left;
    match left {
        Some(mut top) => {
            let ghost top_left = top.left;
            let ghost top_right = top.right;
            if top.color.is_red() && is_red(&top.left) {
                let mut inner = top.left.take().unwrap();
                let ghost t1 = inner.left;
                let ghost t2 = inner.right;
                let t3 = top.right.take();
                inner.color = Color::Black;
                top.left = Some(inner);
                top.right = Some(make_node(t3, key, Color::Black, right));
                proof {
                    lemma_unfold(l);
                    lemma_unfold(top_left);
                    lemma_unfold(Some(top));
                    lemma_unfold(top.left);
                    lemma_unfold(top.right);
                    assert(node_in_order(*top) =~= (in_order(t1) + seq![inner.key] + in_order(t2)) + seq![top.key] + in_order(t3) + seq![key] + in_order(right));
                }
                top
            } else if top.color.is_red() && is_red(&top.right) {
                let mut inner = top.right.take().unwrap();
                let ghost t1 = top.left;
                let t2 = inner.left.take();
                let t3 = inner.right.take();
                top.color = Color::Black;
                top.right = t2;
                inner.left = Some(top);
                inner.right = Some(make_node(t3, key, Color::Black, right));
                proof {
                    lemma_unfold(l);
                    lemma_unfold(top_right);
                    lemma_unfold(Some(inner));
                    lemma_unfold(inner.left);
                    lemma_unfold(inner.right);
                    assert(node_in_order(*inner) =~= in_order(t1) + seq![top.key] + (in_order(t2) + seq![inner.key] + in_order(t3)) + seq![key] + in_order(right));
                }
                inner
            } else {
                let balanced = make_node(Some(top), key, Color::Black, right);
                proof {
                    lemma_unfold(l);
                }
                balanced
            }
        },
        None => {
            proof {
                lemma_empty();
            }
            make_node(None, key, Color::Black, right)
        },
    }
}

/// A black node over `left`, `key` and `right`, where `right` may be a red node with a red
/// child: that case is rebalanced into a red node with two black children.
pub fn bali_right(left: Option<Box<Node>>, key: usize, right: Option<Box<Node>>) -> (balanced: Box<Node>)
    ensures
        node_in_order(*balanced) == in_order(left) + seq![key] + in_order(right),
        black_balanced(left) && black_balanced(right) && black_height(left) == black_height(right)
            ==> black_balanced(Some(balanced)) && black_height(Some(balanced)) == black_height(left) + 1,
        no_red_red(left) && no_red_red_below(right) ==> no_red_red(Some(balanced)),
{
    let ghost r = right;
    match right {
        Some(mut top) => {
            let ghost top_left = top.left;
            let ghost top_right = top.right;
            if top.color.is_red() && is_red(&top.right) {
                let mut inner = top.right.take().unwrap();
                let ghost t3 = inner.left;
                let ghost t4 = inner.right;
                let t2 = top.left.take();
                inner.color = Color::Black;
                top.right = Some(inner);
                top.left = Some(make_node(left, key, Color::Black, t2));
                proof {
                    lemma_unfold(r);
                    lemma_unfold(top_right);
                    lemma_unfold(Some(top));
                    lemma_unfold(top.left);
                    lemma_unfold(top.right);
                    assert(node_in_order(*top) =~= in_order(left) + seq![key] + (in_order(t2) + seq![top.key] + (in_order(t3) + seq![inner.key] + in_order(t4))));
                }
                top
            } else if top.color.is_red() && is_red(&top.left) {
                let mut inner = top.left.take().unwrap();
                let ghost t4 = top.right;
                let t2 = inner.left.take();
                let t3 = inner.right.take();
                top.color = Color::Black;
                top.left = t3;
                inner.right = Some(top);
                inner.left = Some(make_node(left, key, Color::Black, t2));
                proof {
                    lemma_unfold(r);
                    lemma_unfold(top_left);
                    lemma_unfold(Some(inner));
                    lemma_unfold(inner.left);
                    lemma_unfold(inner.right);
                    assert(node_in_order(*inner) =~= in_order(left) + seq![key] + ((in_order(t2) + seq![inner.key] + in_order(t3)) + seq![top.key] + in_order(t4)));
                }
                inner
            } else {
                let balanced = make_node(left, key, Color::Black, Some(top));
                proof {
                    lemma_unfold(r);
                }
                balanced
            }
        },
        None => {
            proof {
                lemma_empty();
            }
            make_node(left, key, Color::Black, None)
        },
    }
}

/// Inserts `key` into the subtree `link`, keeping it ordered; a key already there is left as it
/// is. A red node is added at the bottom, and a red node with a red child is rebalanced on the
/// way back up through each black node; the root may be left a red node with a red child.
pub fn insert_key(link: Option<Box<Node>>, key: usize) -> (inserted: Box<Node>)
    requires
        strictly_ascending(in_order(link)),
    ensures
        strictly_ascending(node_in_order(*inserted)),
        in_order(link).contains(key) ==> node_in_order(*inserted) == in_order(link),
        !in_order(link).contains(key) ==> exists|position: int|
            0 <= position <= in_order(link).len() && node_in_order(*inserted) == #[trigger] in_order(link).insert(position, key),
        black_balanced(link) ==> black_balanced(Some(inserted)) && black_height(Some(inserted)) == black_height(link),
        no_red_red(link) ==> no_red_red_below(Some(inserted)),
        no_red_red(link) && color_of(link) == Color::Black ==> no_red_red(Some(inserted)),
    decreases link,
{
    match link {
        None => {
            let node = make_node(None, key, Color::Red, None);
            proof {
                assert(Seq::<usize>::empty().insert(0, key) =~= seq![key]);
                assert(node_in_order(*node) =~= seq![key]);
            }
            node
        },
        Some(h) => {
            let mut h = h;
            let ghost left = in_order(h.left);
            let ghost node_key = h.key;
            let ghost right = in_order(h.right);
            proof {
                lemma_ascending_around(left, node_key, right);
            }
            if key < h.key {
                let subtree = h.left.take();
                let grown = insert_key(subtree, key);
                proof {
                    lemma_inserted_on_the_left(left, node_key, right, node_in_order(*grown), key);
                }
                if h.color.is_black() {
                    let subtree = h.right.take();
                    bali_left(Some(grown), h.key, subtree)
                } else {
                    h.left = Some(grown);
                    h
                }
            } else if key > h.key {
                let subtree = h.right.take();
                let grown = insert_key(subtree, key);
                proof {
                    lemma_inserted_on_the_right(left, node_key, right, node_in_order(*grown), key);
                }
                if h.color.is_black() {
                    let subtree = h.left.take();
                    bali_right(subtree, h.key, Some(grown))
                } else {
                    h.right = Some(grown);
                    h
                }
            } else {
                proof {
                    assert((left + seq![node_key] + right)[left.len() as int] == key);
                }
                h
            }
        },
    }
}

/// A node over `left`, `key` and `right`, where the black height of `left` is one less than that
/// of `right`: a black node is borrowed from, or merged with, the right side.
#[verifier::rlimit(40)]
pub fn bald_left(left: Option<Box<Node>>, key: usize, right: Option<Box<Node>>) -> (balanced: Box<Node>)
    ensures
        node_in_order(*balanced) == in_order(left) + seq![key] + in_order(right),
        black_balanced(left) && black_balanced(right) && black_height(left) + 1 == black_height(right)
            && no_red_red_below(left) && no_red_red(right) ==> {
            &&& black_balanced(Some(balanced))
            &&& black_height(Some(balanced)) == black_height(right)
            &&& no_red_red_below(Some(balanced))
            &&& color_of(right) == Color::Black ==> no_red_red(Some(balanced))
        },
{
    let ghost l = left;
    let ghost r = right;
    proof {
        lemma_empty();
        if l is Some {
            lemma_unfold(l);
        }
        if r is Some {
            lemma_unfold(r);
        }
    }
    if is_red(&left) {
        let painted = paint(left, Color::Black);
        let balanced = make_node(painted, key, Color::Red, right);
        proof {
            lemma_unfold(painted);
            lemma_unfold(Some(balanced));
        }
        balanced
    } else if is_black_node(&right) {
        let painted = paint(right, Color::Red);
        proof {
            lemma_unfold(painted);
        }
        bali_right(left, key, painted)
    } else if is_red(&right) && is_black_node(&right.as_ref().unwrap().left) {
        let mut top = right.unwrap();
        let ghost middle = top.left;
        let mut inner = top.left.take().unwrap();
        let t2 = inner.left.take();
        let t3 = inner.right.take();
        let t4 = top.right.take();
        let ghost fourth = t4;
        proof {
            lemma_unfold(middle);
            if fourth is Some {
                lemma_unfold(fourth);
            }
        }
        let new_left = make_node(left, key, Color::Black, t2);
        let painted = paint(t4, Color::Red);
        proof {
            if painted is Some {
                lemma_unfold(painted);
            }
            lemma_unfold(Some(new_left));
        }
        let new_right = bali_right(t3, top.key, painted);
        inner.left = Some(new_left);
        inner.right = Some(new_right);
        inner.color = Color::Red;
        proof {
            lemma_unfold(Some(inner));
            assert(node_in_order(*inner) =~= in_order(l) + seq![key] + (in_order(middle) + seq![top.key] + in_order(fourth)));
        }
        inner
    } else {
        make_node(left, key, Color::Red, right)
    }
}

/// A node over `left`, `key` and `right`, where the black height of `right` is one less than that
/// of `left`: a black node is borrowed from, or merged with, the left side.
pub fn bald_right(left: Option<Box<Node>>, key: usize, right: Option<Box<Node>>) -> (balanced: Box<Node>)
    ensures
        node_in_order(*balanced) == in_order(left) + seq![key] + in_order(right),
        black_balanced(left) && black_balanced(right) && black_height(left) == black_height(right) + 1
            && no_red_red(left) && no_red_red_below(right) ==> {
            &&& black_balanced(Some(balanced))
            &&& black_height(Some(balanced)) == black_height(left)
            &&& no_red_red_below(Some(balanced))
            &&& color_of(left) == Color::Black ==> no_red_red(Some(balanced))
        },
{
    let ghost l = left;
    let ghost r = right;
    proof {
        lemma_empty();
        if l is Some {
            lemma_unfold(l);
        }
        if r is Some {
            lemma_unfold(r);
        }
    }
    if is_red(&right) {
        let painted = paint(right, Color::Black);
        let balanced = make_node(left, key, Color::Red, painted);
        proof {
            lemma_unfold(painted);
            lemma_unfold(Some(balanced));
        }
        balanced
    } else if is_black_node(&left) {
        let painted = paint(left, Color::Red);
        proof {
            lemma_unfold(painted);
        }
        bali_left(painted, key, right)
    } else if is_red(&left) && is_black_node(&left.as_ref().unwrap().right) {
        let mut top = left.unwrap();
        let ghost middle = top.right;
        let mut inner = top.right.take().unwrap();
        let t2 = inner.left.take();
        let t3 = inner.right.take();
        let t1 = top.left.take();
        let ghost first = t1;
        proof {
            lemma_unfold(middle);
            if first is Some {
                lemma_unfold(first);
            }
        }
        let painted = paint(t1, Color::Red);
        let new_right = make_node(t3, key, Color::Black, right);
        proof {
            if painted is Some {
                lemma_unfold(painted);
            }
            lemma_unfold(Some(new_right));
        }
        let new_left = bali_left(painted, top.key, t2);
        inner.left = Some(new_left);
        inner.right = Some(new_right);
        inner.color = Color::Red;
        proof {
            lemma_unfold(Some(inner));
            assert(node_in_order(*inner) =~= (in_order(first) + seq![top.key] + in_order(middle)) + seq![key] + in_order(r));
        }
        inner
    } else {
        make_node(left, key, Color::Red, right)
    }
}

/// Two red nodes `first` and `second`, whose inner subtrees were joined into `middle`, joined
/// into one subtree.
fn join_reds(first: Box<Node>, middle: Option<Box<Node>>, second: Box<Node>) -> (joined: Box<Node>)
    requires
        first.right is None,
        second.left is None,
        first.color == Color::Red,
        second.color == Color::Red,
    ensures
        node_in_order(*joined) == in_order(first.left) + seq![first.key] + in_order(middle) + seq![second.key]
            + in_order(second.right),
        black_balanced(first.left) && black_balanced(middle) && black_balanced(second.right)
            && black_height(first.left) == black_height(middle) && black_height(middle) == black_height(second.right)
            && no_red_red(first.left) && no_red_red(middle) && no_red_red(second.right)
            && color_of(first.left) == Color::Black && color_of(second.right) == Color::Black ==> {
            &&& black_balanced(Some(joined))
            &&& black_height(Some(joined)) == black_height(first.left)
            &&& no_red_red_below(Some(joined))
        },
{
    let mut first = first;
    let mut second = second;
    let ghost t1 = first.left;
    let ghost t4 = second.right;
    let ghost mid = middle;
    proof {
        lemma_empty();
        if mid is Some {
            lemma_unfold(mid);
        }
    }
    if is_red(&middle) {
        let mut m = middle.unwrap();
        let ghost u2 = m.left;
        let ghost u3 = m.right;
        first.right = m.left.take();
        second.left = m.right.take();
        m.left = Some(first);
        m.right = Some(second);
        proof {
            lemma_unfold(m.left);
            lemma_unfold(m.right);
            lemma_unfold(Some(m));
            assert(node_in_order(*m) =~= in_order(t1) + seq![first.key] + (in_order(u2) + seq![m.key] + in_order(u3)) + seq![second.key] + in_order(t4));
        }
        m
    } else {
        second.left = middle;
        first.right = Some(second);
        proof {
            lemma_unfold(first.right);
            lemma_unfold(Some(first));
            assert(node_in_order(*first) =~= in_order(t1) + seq![first.key] + (in_order(mid) + seq![second.key] + in_order(t4)));
        }
        first
    }
}

/// Two black nodes `first` and `second`, whose inner subtrees were joined into `middle`, joined
/// into one subtree.
fn join_blacks(first: Box<Node>, middle: Option<Box<Node>>, second: Box<Node>) -> (joined: Box<Node>)
    requires
        first.right is None,
        second.left is None,
    ensures
        node_in_order(*joined) == in_order(first.left) + seq![first.key] + in_order(middle) + seq![second.key]
            + in_order(second.right),
        black_balanced(first.left) && black_balanced(middle) && black_balanced(second.right)
            && black_height(first.left) == black_height(middle) && black_height(middle) == black_height(second.right)
            && no_red_red(first.left) && no_red_red_below(middle) && no_red_red(second.right) ==> {
            &&& black_balanced(Some(joined))
            &&& black_height(Some(joined)) == black_height(first.left) + 1
            &&& no_red_red(Some(joined))
        },
{
    let mut first = first;
    let mut second = second;
    let ghost t1 = first.left;
    let ghost t4 = second.right;
    let ghost mid = middle;
    proof {
        lemma_empty();
        if mid is Some {
            lemma_unfold(mid);
        }
        if t1 is Some {
            lemma_unfold(t1);
        }
    }
    if is_red(&middle) {
        let mut m = middle.unwrap();
        let ghost u2 = m.left;
        let ghost u3 = m.right;
        first.right = m.left.take();
        second.left = m.right.take();
        first.color = Color::Black;
        second.color = Color::Black;
        m.left = Some(first);
        m.right = Some(second);
        proof {
            lemma_unfold(m.left);
            lemma_unfold(m.right);
            lemma_unfold(Some(m));
            assert(node_in_order(*m) =~= in_order(t1) + seq![first.key] + (in_order(u2) + seq![m.key] + in_order(u3)) + seq![second.key] + in_order(t4));
        }
        m
    } else {
        second.left = middle;
        second.color = Color::Black;
        proof {
            lemma_unfold(Some(second));
        }
        let subtree = first.left.take();
        let balanced = bald_left(subtree, first.key, Some(second));
        proof {
            assert(node_in_order(*balanced) =~= in_order(t1) + seq![first.key] + (in_order(mid) + seq![second.key] + in_order(t4)));
        }
        balanced
    }
}

/// The subtrees `left` and `right`, every key of the first below every key of the second, joined
/// into one, as when the node between them is removed.
#[verifier::rlimit(60)]
pub fn join(left: Option<Box<Node>>, right: Option<Box<Node>>) -> (joined: Option<Box<Node>>)
    ensures
        in_order(joined) == in_order(left) + in_order(right),
        black_balanced(left) && black_balanced(right) && black_height(left) == black_height(right)
            && no_red_red(left) && no_red_red(right) ==> {
            &&& black_balanced(joined)
            &&& black_height(joined) == black_height(left)
            &&& no_red_red_below(joined)
            &&& color_of(left) == Color::Black && color_of(right) == Color::Black ==> no_red_red(joined)
        },
    decreases left, right,
{
    proof {
        lemma_empty();
    }
    if left.is_none() {
        proof {
            assert(in_order(left) + in_order(right) =~= in_order(right));
            if right is Some {
                lemma_unfold(right);
            }
        }
        return right;
    }
    if right.is_none() {
        proof {
            assert(in_order(left) + in_order(right) =~= in_order(left));
            lemma_unfold(left);
        }
        return left;
    }
    let ghost l = left;
    let ghost r = right;
    proof {
        lemma_unfold(l);
        lemma_unfold(r);
    }
    let mut first = left.unwrap();
    let mut second = right.unwrap();
    let ghost t1 = first.left;
    let ghost t4 = second.right;
    if first.color.is_red() && second.color.is_red() {
        let t2 = first.right.take();
        let t3 = second.left.take();
        let ghost inner = in_order(t2) + in_order(t3);
        let middle = join(t2, t3);
        let joined = join_reds(first, middle, second);
        proof {
            lemma_unfold(Some(joined));
            assert(in_order(l) + in_order(r) =~= in_order(t1) + seq![first.key] + inner + seq![second.key] + in_order(t4));
        }
        Some(joined)
    } else if first.color.is_black() && second.color.is_black() {
        let t2 = first.right.take();
        let t3 = second.left.take();
        let ghost inner = in_order(t2) + in_order(t3);
        let middle = join(t2, t3);
        let joined = join_blacks(first, middle, second);
        proof {
            lemma_unfold(Some(joined));
            assert(in_order(l) + in_order(r) =~= in_order(t1) + seq![first.key] + inner + seq![second.key] + in_order(t4));
        }
        Some(joined)
    } else if second.color.is_red() {
        let t3 = second.left.take();
        let ghost inner_right = t3;
        proof {
            if inner_right is Some {
                lemma_unfold(inner_right);
            }
        }
        second.left = join(Some(first), t3);
        proof {
            lemma_unfold(Some(second));
            assert(in_order(Some(second)) =~= in_order(l) + in_order(inner_right) + seq![second.key] + in_order(t4));
        }
        Some(second)
    } else {
        let t2 = first.right.take();
        let ghost inner_left = t2;
        proof {
            if inner_left is Some {
                lemma_unfold(inner_left);
            }
        }
        first.right = join(t2, Some(second));
        proof {
            lemma_unfold(Some(first));
            assert(in_order(Some(first)) =~= in_order(t1) + seq![first.key] + (in_order(inner_left) + in_order(r)));
        }
        Some(first)
    }
}

/// Removes `key` from the subtree `link`, if it is there, keeping it ordered. Going down through
/// a black node lowers the black height of that side by one, which is repaired on the way back
/// up.
pub fn delete_key(link: Option<Box<Node>>, key: usize) -> (deleted: Option<Box<Node>>)
    requires
        strictly_ascending(in_order(link)),
    ensures
        strictly_ascending(in_order(deleted)),
        without(in_order(link), key, in_order(deleted)),
        link is None ==> deleted is None,
        black_balanced(link) && no_red_red(link) ==> black_balanced(deleted),
        black_balanced(link) && no_red_red(link) && color_of(link) == Color::Red
            ==> black_height(deleted) == black_height(link) && no_red_red(deleted),
        black_balanced(link) && no_red_red(link) && link is Some && color_of(link) == Color::Black
            ==> black_height(deleted) + 1 == black_height(link) && no_red_red_below(deleted),
    decreases link,
{
    match link {
        None => None,
        Some(h) => {
            let mut h = h;
            let ghost left = in_order(h.left);
            let ghost node_key = h.key;
            let ghost right = in_order(h.right);
            proof {
                lemma_ascending_around(left, node_key, right);
            }
            let first = h.left.take();
            let second = h.right.take();
            if key < h.key {
                let descend_black = is_black_node(&first);
                let shrunk = delete_key(first, key);
                proof {
                    lemma_removed_on_the_left(left, node_key, right, in_order(shrunk), key);
                }
                if descend_black {
                    Some(bald_left(shrunk, h.key, second))
                } else {
                    Some(make_node(shrunk, h.key, Color::Red, second))
                }
            } else if key > h.key {
                let descend_black = is_black_node(&second);
                let shrunk = delete_key(second, key);
                proof {
                    lemma_removed_on_the_right(left, node_key, right, in_order(shrunk), key);
                }
                if descend_black {
                    Some(bald_right(first, h.key, shrunk))
                } else {
                    Some(make_node(first, h.key, Color::Red, shrunk))
                }
            } else {
                let joined = join(first, second);
                proof {
                    let whole = left + seq![node_key] + right;
                    assert(whole[left.len() as int] == key);
                    assert(in_order(joined) =~= whole.remove(left.len() as int));
                    assert forall|i: int, j: int| 0 <= i < j < in_order(joined).len() implies in_order(joined)[i] < in_order(joined)[j] by {
                        let k = left.len() as int;
                        if i < k && j < k {
                            assert(whole[i] < whole[j]);
                        } else if i < k {
                            assert(whole[i] < whole[j + 1]);
                        } else {
                            assert(whole[i + 1] < whole[j + 1]);
                        }
                    }
                }
                joined
            }
        },
    }
}

} // verus!
