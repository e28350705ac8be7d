use arena_bst::ArenaTree;
use arena_bst::Traversal;

#[test]
fn empty_tree_operations() {
    let mut t = ArenaTree::default();
    assert_eq!(t.size(), 0);
    assert_eq!(t.search(42), None);
    assert_eq!(t.search_parent(42), None);
    assert_eq!(t.delete(42), false);
    let orders = vec![
        Traversal::NLR,
        Traversal::LNR,
        Traversal::LRN,
        Traversal::NRL,
        Traversal::RNL,
        Traversal::RLN,
        Traversal::BFS,
    ];
    for mode in orders.iter() {
        assert_eq!(t.traversal(mode), Vec::<i64>::new());
    }
}

#[test]
fn inorder_sorted_for_scrambled_input() {
    let t = ArenaTree::from_vec(vec![8, 3, 10, 1, 6, 14, 4, 7, 13]);
    assert_eq!(t.traversal(&Traversal::LNR), vec![1, 3, 4, 6, 7, 8, 10, 13, 14]);
}

#[test]
fn inorder_sorted_for_monotonic_input() {
    let t = ArenaTree::from_vec(vec![1, 2, 3, 4, 5]);
    assert_eq!(t.traversal(&Traversal::LNR), vec![1, 2, 3, 4, 5]);
    assert_eq!(t.traversal(&Traversal::NLR), vec![1, 2, 3, 4, 5]);
}

#[test]
fn insert_idempotent_deep_value() {
    let mut t = ArenaTree::from_vec(vec![4, 2, 6, 1, 3, 5, 7]);
    let first = t.insert(9);
    assert_eq!(t.size(), 8);
    let second = t.insert(9);
    assert_eq!(second, first);
    assert_eq!(t.size(), 8);
}

#[test]
fn search_returns_insert_index() {
    let mut t = ArenaTree::default();
    let ids: Vec<usize> = vec![4, 2, 6, 1, 3, 5, 7].into_iter().map(|v| t.insert(v)).collect();
    for (k, v) in vec![4, 2, 6, 1, 3, 5, 7].into_iter().enumerate() {
        assert_eq!(t.search(v), Some(ids[k]));
    }
    assert_eq!(t.search(0), None);
    assert_eq!(t.search(8), None);
}

#[test]
fn search_parent_dual_contract() {
    let mut t = ArenaTree::from_vec(vec![4, 2, 6]);
    // found at the root: `None`, to be told apart from the empty tree
    assert_eq!(t.search_parent(4), None);
    // found below the root: the holding node's parent and side
    assert_eq!(t.search_parent(2), Some((0, true)));
    assert_eq!(t.search_parent(6), Some((0, false)));
    // absent: the would-be parent and side
    assert_eq!(t.search_parent(1), Some((1, true)));
    assert_eq!(t.search_parent(3), Some((1, false)));
    assert_eq!(t.search_parent(7), Some((2, false)));
}

#[test]
fn delete_then_search_none() {
    let mut t = ArenaTree::from_vec(vec![4, 2, 6, 1, 3, 5, 7]);
    assert_eq!(t.delete(6), true);
    assert_eq!(t.search(6), None);
    assert_eq!(t.delete(6), false);
    assert_eq!(t.traversal(&Traversal::LNR), vec![1, 2, 3, 4, 5, 7]);
}

#[test]
fn delete_node_with_one_child() {
    let mut t = ArenaTree::from_vec(vec![4, 2, 1, 6, 7]);
    // 2 has only a left child, 6 only a right child
    assert_eq!(t.delete(2), true);
    assert_eq!(t.traversal(&Traversal::BFS), vec![4, 1, 6, 7]);
    assert_eq!(t.delete(6), true);
    assert_eq!(t.traversal(&Traversal::BFS), vec![4, 1, 7]);
}

#[test]
fn delete_root_with_one_child() {
    let mut t = ArenaTree::from_vec(vec![4, 2, 1, 3]);
    assert_eq!(t.delete(4), true);
    assert_eq!(t.traversal(&Traversal::BFS), vec![2, 1, 3]);
}

#[test]
fn delete_last_node_clears_store() {
    let mut t = ArenaTree::from_vec(vec![5]);
    assert_eq!(t.size(), 1);
    assert_eq!(t.delete(5), true);
    assert_eq!(t.size(), 0);
    assert_eq!(t.traversal(&Traversal::BFS), Vec::<i64>::new());
}

#[test]
fn deletion_keeps_slots() {
    let mut t = ArenaTree::from_vec(vec![4, 2, 6, 1, 3, 5, 7]);
    assert_eq!(t.size(), 7);
    assert_eq!(t.delete(1), true);
    // the slot count never shrinks while the tree stays non-empty
    assert_eq!(t.size(), 7);
    assert_eq!(t.delete(4), true);
    assert_eq!(t.size(), 7);
}

#[test]
fn from_vec_skips_duplicates() {
    let t = ArenaTree::from_vec(vec![3, 1, 3, 2, 1]);
    assert_eq!(t.size(), 3);
    assert_eq!(t.traversal(&Traversal::LNR), vec![1, 2, 3]);
}

#[test]
fn traversal_map_applies_transform() {
    let t = ArenaTree::from_vec(vec![2, 1, 3]);
    assert_eq!(t.traversal_map(&Traversal::LNR, |x| x * 10), vec![10, 20, 30]);
    assert_eq!(t.traversal_map(&Traversal::BFS, |x| x + 1), vec![3, 2, 4]);
}

#[test]
fn node_introspection() {
    let t = ArenaTree::from_vec(vec![4, 2, 6, 1]);
    assert!(t.arena[0].is_root());
    assert!(!t.arena[1].is_root());
    assert!(t.arena[3].is_leaf());
    assert!(t.arena[2].is_leaf());
    assert!(!t.arena[0].is_leaf());
    assert!(!t.arena[1].is_leaf());
}

#[test]
fn negative_values_order() {
    let t = ArenaTree::from_vec(vec![0, -5, 5, -10, 10]);
    assert_eq!(t.traversal(&Traversal::LNR), vec![-10, -5, 0, 5, 10]);
    assert_eq!(t.traversal(&Traversal::BFS), vec![0, -5, 5, -10, 10]);
}

#[test]
fn insert_after_root_replacement() {
    let mut t = ArenaTree::from_vec(vec![4, 2, 6, 5]);
    // promote the successor 5 to the root, then re-insert its value
    assert_eq!(t.delete(4), true);
    assert_eq!(t.traversal(&Traversal::BFS), vec![5, 2, 6]);
    let existing = t.insert(5);
    assert_eq!(t.search(5), Some(existing));
    assert_eq!(t.size(), 4);
}
