use context_allocator::binary_search_trees::cursor::Cursor;
use context_allocator::binary_search_trees::red_black_tree::{Bound, NodePointer, RedBlackTree};

fn tree_of(addresses: &[usize]) -> RedBlackTree {
    let mut tree = RedBlackTree::new();
    for &address in addresses {
        tree.insert_memory_address(address);
    }
    tree
}

fn collect_forwards(tree: &RedBlackTree) -> Vec<usize> {
    let mut iterator = tree.double_ended_iterate();
    let mut addresses = Vec::new();
    while let Some(address) = iterator.next() {
        addresses.push(address);
    }
    addresses
}

#[test]
fn iterator_yields_addresses_in_ascending_order() {
    let tree = tree_of(&[0x300, 0x100, 0x200]);
    assert_eq!(collect_forwards(&tree), vec![0x100, 0x200, 0x300]);
}

#[test]
fn iterator_yields_from_both_ends() {
    let tree = tree_of(&[0x100, 0x200, 0x300]);
    let mut iterator = tree.double_ended_iterate();
    assert_eq!(iterator.next_back(), Some(0x300));
    assert_eq!(iterator.next(), Some(0x100));
    assert_eq!(iterator.next_back(), Some(0x200));
    assert_eq!(iterator.next(), None);
    assert_eq!(iterator.next_back(), None);
}

#[test]
fn iterator_over_an_empty_tree_yields_nothing() {
    let tree = RedBlackTree::new();
    let mut iterator = tree.double_ended_iterate();
    assert_eq!(iterator.next(), None);
}

#[test]
fn range_iterator_yields_the_addresses_within_the_bounds() {
    let tree = tree_of(&[0x100, 0x200, 0x300, 0x400]);
    let mut iterator = tree.double_ended_range_iterate(Bound::Excluded(0x100), Bound::Included(0x300));
    assert_eq!(iterator.next(), Some(0x200));
    assert_eq!(iterator.next(), Some(0x300));
    assert_eq!(iterator.next(), None);
    let mut empty = tree.double_ended_range_iterate(Bound::Included(0x300), Bound::Excluded(0x200));
    assert_eq!(empty.next(), None);
}

#[test]
fn cursor_moves_through_the_tree_and_past_its_ends() {
    let mut tree = tree_of(&[0x100, 0x200]);
    let mut cursor = Cursor::new(&mut tree, NodePointer::null());
    assert!(cursor.is_null());
    cursor.move_next();
    assert_eq!(cursor.get(), Some(0x100));
    cursor.move_next();
    assert_eq!(cursor.get(), Some(0x200));
    cursor.move_next();
    assert_eq!(cursor.get(), None);
    cursor.move_previous();
    assert_eq!(cursor.get(), Some(0x200));
}

#[test]
fn cursor_removes_and_moves_to_the_next_node() {
    let mut tree = tree_of(&[0x100, 0x200, 0x300]);
    {
        let mut cursor = Cursor::new(&mut tree, NodePointer::from_memory_address(0x200));
        assert_eq!(cursor.remove(), Some(0x200));
        assert_eq!(cursor.get(), Some(0x300));
    }
    assert_eq!(collect_forwards(&tree), vec![0x100, 0x300]);
}

#[test]
fn cursor_at_the_null_object_removes_nothing() {
    let mut tree = tree_of(&[0x100]);
    {
        let mut cursor = Cursor::new(&mut tree, NodePointer::null());
        assert_eq!(cursor.remove(), None);
        assert_eq!(cursor.replace_with(0x50), Err(0x50));
    }
    assert_eq!(collect_forwards(&tree), vec![0x100]);
}

#[test]
fn cursor_replaces_and_inserts_in_order() {
    let mut tree = tree_of(&[0x100, 0x300]);
    {
        let mut cursor = Cursor::new(&mut tree, NodePointer::from_memory_address(0x100));
        assert_eq!(cursor.replace_with(0x180), Ok(0x100));
        cursor.insert_after(0x200);
        cursor.insert_before(0x80);
        assert_eq!(cursor.get(), Some(0x180));
    }
    assert_eq!(collect_forwards(&tree), vec![0x80, 0x180, 0x200, 0x300]);
    {
        let mut cursor = Cursor::new(&mut tree, NodePointer::null());
        cursor.insert_after(0x10);
        cursor.insert_before(0x400);
    }
    assert_eq!(collect_forwards(&tree), vec![0x10, 0x80, 0x180, 0x200, 0x300, 0x400]);
}

#[test]
fn inserting_an_address_twice_keeps_one() {
    let tree = tree_of(&[0x100, 0x100]);
    assert_eq!(collect_forwards(&tree), vec![0x100]);
}

#[test]
fn many_insertions_and_removals_keep_the_addresses_ordered() {
    let mut tree = RedBlackTree::new();
    let mut expected: Vec<usize> = Vec::new();
    for i in 0..101usize {
        let address = ((i * 37) % 101 + 1) * 16;
        tree.insert_memory_address(address);
        expected.push(address);
    }
    expected.sort();
    assert_eq!(collect_forwards(&tree), expected);
    for i in 0..101usize {
        let address = ((i * 53) % 101 + 1) * 16;
        if address % 32 == 0 {
            tree.remove_node_pointer(NodePointer::from_memory_address(address));
            expected.retain(|&kept| kept != address);
            assert_eq!(collect_forwards(&tree), expected);
        }
    }
    assert_eq!(expected.len(), 51);
    for &address in &expected {
        assert_eq!(tree.find(address).value(), address);
    }
    assert!(tree.find(32).is_null());
}

#[test]
fn removing_a_newly_inserted_address_restores_the_set() {
    let mut tree = tree_of(&[0x100, 0x300, 0x500, 0x700]);
    let before = collect_forwards(&tree);
    tree.insert_memory_address(0x400);
    assert_eq!(collect_forwards(&tree), vec![0x100, 0x300, 0x400, 0x500, 0x700]);
    tree.remove_node_pointer(NodePointer::from_memory_address(0x400));
    assert_eq!(collect_forwards(&tree), before);
}
