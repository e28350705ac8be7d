use arena_bst::ArenaTree;
use arena_bst::Traversal;

#[test]
fn bst_insert_root() {
    let mut t = ArenaTree::default();
    let root_id = t.insert(0);
    assert_eq!(t.size(), 1);
    assert_eq!(root_id, 0);
}

#[test]
fn bst_insert_same_root_twice() {
    let mut t = ArenaTree::default();
    let root_id = t.insert(0);
    assert_eq!(t.size(), 1);
    assert_eq!(root_id, 0);

    let new_id = t.insert(0);
    assert_eq!(t.size(), 1);
    assert_eq!(new_id, 0);
}

#[test]
fn bst_insert_same_twice() {
    let mut t = ArenaTree::default();
    let root_id = t.insert(10);
    let left_id = t.insert(0);
    assert_eq!(t.size(), 2);
    assert_eq!(t.arena[left_id].parent.unwrap(), root_id);

    let new_id = t.insert(0);
    assert_eq!(new_id, left_id);
    assert_eq!(t.size(), 2);
}

#[test]
fn bst_insert_less() {
    let mut t = ArenaTree::default();
    let root_id = t.insert(10);
    let left_id = t.insert(0);
    assert_eq!(t.size(), 2);
    assert_eq!(t.arena[left_id].parent.unwrap(), root_id);

    assert_eq!(t.arena[0].left.unwrap(), left_id);
}

#[test]
fn bst_insert_greater() {
    let mut t = ArenaTree::default();
    let root_id = t.insert(0);
    let left_id = t.insert(10);
    assert_eq!(t.size(), 2);
    assert_eq!(t.arena[left_id].parent.unwrap(), root_id);

    assert_eq!(t.arena[0].right.unwrap(), left_id);
}

#[test]
fn bst_traversal() {
    let t = ArenaTree::from_vec(vec![2, 1, 3]);

    let testcases = vec![
        (&Traversal::NLR, vec![2, 1, 3]),
        (&Traversal::LNR, vec![1, 2, 3]),
        (&Traversal::LRN, vec![1, 3, 2]),
        (&Traversal::NRL, vec![2, 3, 1]),
        (&Traversal::RNL, vec![3, 2, 1]),
        (&Traversal::RLN, vec![3, 1, 2]),
        (&Traversal::BFS, vec![2, 1, 3]),
    ];

    for (mode, expect) in testcases.iter() {
        assert_eq!(&t.traversal(mode), expect);
    }
}

#[test]
fn bst_traversal_complex() {
    let t = ArenaTree::from_vec(vec![5, 1, 2, 4, 3]);

    let testcases = vec![
        (&Traversal::NLR, vec![5, 1, 2, 4, 3]),
        (&Traversal::LNR, vec![1, 2, 3, 4, 5]),
        (&Traversal::LRN, vec![3, 4, 2, 1, 5]),
        (&Traversal::NRL, vec![5, 1, 2, 4, 3]),
        (&Traversal::RNL, vec![5, 4, 3, 2, 1]),
        (&Traversal::RLN, vec![3, 4, 2, 1, 5]),
        (&Traversal::BFS, vec![5, 1, 2, 4, 3]),
    ];

    for (mode, expect) in testcases.iter() {
        assert_eq!(&t.traversal(mode), expect);
    }
}

#[test]
fn bst_delete_leaf() {
    let mut t = ArenaTree::from_vec(vec![4, 2, 6, 1, 3, 5, 7]);

    assert_eq!(t.traversal(&Traversal::BFS), vec![4, 2, 6, 1, 3, 5, 7]);

    assert_eq!(t.delete(1), true);
    assert_eq!(t.traversal(&Traversal::BFS), vec![4, 2, 6, 3, 5, 7]);
    assert_eq!(t.delete(1), false);
}

#[test]
fn bst_delete_node() {
    let mut t = ArenaTree::from_vec(vec![4, 2, 6, 1, 3, 5, 7]);

    assert_eq!(t.traversal(&Traversal::BFS), vec![4, 2, 6, 1, 3, 5, 7]);

    assert_eq!(t.delete(4), true);
    assert_eq!(t.traversal(&Traversal::BFS), vec![5, 2, 6, 1, 3, 7]);
    assert_eq!(t.delete(4), false);
}

#[test]
fn bst_delete_node_2() {
    let mut t = ArenaTree::from_vec(vec![4, 2, 6, 1, 3, 5, 7]);
    let testcases = vec![
        (4, vec![5, 2, 6, 1, 3, 7]),
        (5, vec![6, 2, 7, 1, 3]),
        (6, vec![7, 2, 1, 3]),
        (7, vec![2, 1, 3]),
        (2, vec![3, 1]),
        (3, vec![1]),
        (1, vec![]),
    ];
    for (val, expect) in testcases.iter() {
        assert_eq!(t.delete(*val), true);
        assert_eq!(&t.traversal(&Traversal::BFS), expect);
    }
}

#[test]
fn bst_most_left() {
    let t = ArenaTree::from_vec(vec![4, 2, 6, 1, 3, 5, 7]);

    assert_eq!(t.most_left(0), 3);
    assert_eq!(t.most_left(1), 3);
    assert_eq!(t.most_left(2), 5);
}
