use btree::BTree;

/// The keys of `tree` from left to right.
fn walk(tree: &BTree<i32, i32>, keys: &mut Vec<i32>) {
    if let BTree::Node { key, left, right, .. } = tree {
        walk(left, keys);
        keys.push(*key);
        walk(right, keys);
    }
}

fn tree_of(entries: &[(i32, i32)]) -> BTree<i32, i32> {
    let mut tree = BTree::Empty;
    for (key, val) in entries {
        tree.insert(*key, *val);
    }
    tree
}

#[test]
fn test_node_has_empty_children() {
    let tree = BTree::node(7, "seven");
    assert_eq!(tree, BTree::Node {
        key: 7,
        val: "seven",
        left: Box::new(BTree::Empty),
        right: Box::new(BTree::Empty),
    });
    assert_ne!(tree, BTree::Empty);
    assert_ne!(tree, BTree::node(7, "eight"));
    assert_ne!(tree, BTree::node(8, "seven"));
}

#[test]
fn test_empty_finds_no_key() {
    let tree: BTree<i32, i32> = BTree::Empty;
    for key in [i32::MIN, -1, 0, 1, 13, i32::MAX] {
        assert_eq!(tree.find(&key), None);
    }
}

#[test]
fn test_insert_into_empty_is_leaf_for_any_entry() {
    for (key, val) in [(i32::MIN, 0), (-5, 5), (0, 0), (9, -9), (i32::MAX, 1)] {
        let mut tree = BTree::Empty;
        tree.insert(key, val);
        assert_eq!(tree, BTree::node(key, val));
        assert_eq!(tree.find(&key), Some(&val));
    }
}

#[test]
fn test_insert_same_key_replaces_value() {
    let mut tree = tree_of(&[(1, 42), (0, 13), (2, 144)]);
    tree.insert(0, 99);
    assert_eq!(tree, BTree::Node {
        key: 1,
        val: 42,
        left: Box::new(BTree::node(0, 99)),
        right: Box::new(BTree::node(2, 144)),
    });
    assert_eq!(tree.find(&0), Some(&99));
    assert_eq!(tree.find(&1), Some(&42));
    assert_eq!(tree.find(&2), Some(&144));

    tree.insert(1, 7);
    assert_eq!(tree, BTree::Node {
        key: 1,
        val: 7,
        left: Box::new(BTree::node(0, 99)),
        right: Box::new(BTree::node(2, 144)),
    });
    assert_eq!(tree.find(&1), Some(&7));
}

#[test]
fn test_insert_same_key_into_singleton() {
    let mut tree = BTree::node(1, 42);
    tree.insert(1, 43);
    assert_eq!(tree, BTree::node(1, 43));
    assert_eq!(tree.find(&1), Some(&43));
}

#[test]
fn test_increasing_keys_go_right() {
    let tree = tree_of(&[(1, 10), (2, 20), (3, 30)]);
    assert_eq!(tree, BTree::Node {
        key: 1,
        val: 10,
        left: Box::new(BTree::Empty),
        right: Box::new(BTree::Node {
            key: 2,
            val: 20,
            left: Box::new(BTree::Empty),
            right: Box::new(BTree::node(3, 30)),
        }),
    });
}

#[test]
fn test_decreasing_keys_go_left() {
    let tree = tree_of(&[(3, 30), (2, 20), (1, 10)]);
    assert_eq!(tree, BTree::Node {
        key: 3,
        val: 30,
        left: Box::new(BTree::Node {
            key: 2,
            val: 20,
            left: Box::new(BTree::node(1, 10)),
            right: Box::new(BTree::Empty),
        }),
        right: Box::new(BTree::Empty),
    });
}

#[test]
fn test_shape_follows_insertion_order() {
    let tree = tree_of(&[(5, 0), (2, 0), (8, 0), (3, 0), (7, 0)]);
    assert_eq!(tree, BTree::Node {
        key: 5,
        val: 0,
        left: Box::new(BTree::Node {
            key: 2,
            val: 0,
            left: Box::new(BTree::Empty),
            right: Box::new(BTree::node(3, 0)),
        }),
        right: Box::new(BTree::Node {
            key: 8,
            val: 0,
            left: Box::new(BTree::node(7, 0)),
            right: Box::new(BTree::Empty),
        }),
    });
    assert_ne!(tree, tree_of(&[(2, 0), (5, 0), (8, 0), (3, 0), (7, 0)]));
}

#[test]
fn test_walk_meets_keys_in_increasing_order() {
    let entries = [
        (50, 1), (20, 2), (70, 3), (20, 4), (-3, 5), (65, 6), (99, 7), (0, 8), (50, 9),
        (21, 10), (19, 11), (i32::MAX, 12), (i32::MIN, 13), (70, 14),
    ];
    let mut tree = BTree::Empty;
    for (key, val) in entries {
        tree.insert(key, val);
        let mut keys = Vec::new();
        walk(&tree, &mut keys);
        for pair in keys.windows(2) {
            assert!(pair[0] < pair[1]);
        }
    }
    let mut keys = Vec::new();
    walk(&tree, &mut keys);
    assert_eq!(keys, vec![i32::MIN, -3, 0, 19, 20, 21, 50, 65, 70, 99, i32::MAX]);
}

#[test]
fn test_find_gives_last_value_of_each_key() {
    let tree = tree_of(&[(50, 1), (20, 2), (70, 3), (20, 4), (-3, 5), (50, 9), (70, 14)]);
    assert_eq!(tree.find(&50), Some(&9));
    assert_eq!(tree.find(&20), Some(&4));
    assert_eq!(tree.find(&70), Some(&14));
    assert_eq!(tree.find(&-3), Some(&5));
    assert_eq!(tree.find(&0), None);
    assert_eq!(tree.find(&51), None);
    assert_eq!(tree.find(&100), None);
}

#[test]
fn test_insert_leaves_other_keys_alone() {
    let mut tree = tree_of(&[(4, 40), (2, 20), (6, 60)]);
    tree.insert(5, 55);
    assert_eq!(tree.find(&4), Some(&40));
    assert_eq!(tree.find(&2), Some(&20));
    assert_eq!(tree.find(&6), Some(&60));
    assert_eq!(tree.find(&5), Some(&55));
    assert_eq!(tree.find(&3), None);
}

#[test]
fn test_find_borrows_from_the_tree() {
    let mut tree = BTree::Empty;
    tree.insert(2u8, String::from("two"));
    tree.insert(1u8, String::from("one"));
    let found = tree.find(&1);
    assert_eq!(found.map(|s| s.as_str()), Some("one"));
    match &tree {
        BTree::Node { left, .. } => match &**left {
            BTree::Node { val, .. } => assert!(std::ptr::eq(val, found.unwrap())),
            BTree::Empty => panic!("the smaller key hangs to the left"),
        },
        BTree::Empty => panic!("the tree holds two entries"),
    }
}

#[test]
fn test_keys_of_another_ordered_type() {
    let mut tree = BTree::Empty;
    tree.insert((1u32, 5u32), 'a');
    tree.insert((1u32, 2u32), 'b');
    tree.insert((0u32, 9u32), 'c');
    tree.insert((1u32, 2u32), 'd');
    assert_eq!(tree.find(&(1, 5)), Some(&'a'));
    assert_eq!(tree.find(&(1, 2)), Some(&'d'));
    assert_eq!(tree.find(&(0, 9)), Some(&'c'));
    assert_eq!(tree.find(&(0, 0)), None);
}
