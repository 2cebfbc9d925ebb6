use datakit::btree::BTree;

const SAMPLE_KEYS: [u32; 23] =
    [1, 3, 7, 10, 11, 13, 14, 15, 18, 16, 19, 24, 25, 26, 21, 4, 5, 20, 22, 2, 17, 12, 6];

fn init_btree() -> BTree<u32, u32> {
    let mut btree: BTree<u32, u32> = BTree::new(3);
    for k in SAMPLE_KEYS {
        btree.insert(k, k);
    }
    btree
}

fn keys_of(tree: &BTree<u32, u32>) -> Vec<u32> {
    tree.traverse().iter().map(|step| step.0).collect()
}

#[test]
fn btree_test_insert() {
    let mut btree: BTree<u32, &'static str> = BTree::new(3);
    btree.insert(10, "10");
    btree.insert(20, "20");
    btree.insert(5, "5");
    btree.insert(6, "6");
    btree.insert(12, "12");
    btree.insert(30, "30");
    btree.insert(7, "7");
    btree.insert(17, "17");

    btree.traverse();

    assert_eq!(btree.search(&6), Some(&"6"));
    assert_eq!(btree.search(&15), None);
}

#[test]
fn test_delete1() {
    let mut btree = init_btree();
    // 14 will borrow from prev
    for k in [6, 13, 7, 4, 14].iter() {
        btree.delete(*k);
        btree.traverse();
    }
}

#[test]
fn test_delete2() {
    let mut btree = init_btree();
    // 6 will borrow from next
    for k in [5, 6].iter() {
        btree.delete(*k);
        btree.traverse();
    }
}

#[test]
fn test_delete3() {
    let mut btree = init_btree();

    for k in [6, 13, 7, 4, 2, 16].iter() {
        btree.delete(*k);
        btree.traverse();
    }
}

#[test]
fn validator_passes_after_every_step() {
    let mut btree: BTree<u32, u32> = BTree::new(3);
    assert!(btree.validate());
    let mut present: Vec<u32> = Vec::new();
    for k in SAMPLE_KEYS {
        btree.insert(k, k * 10);
        present.push(k);
        assert!(btree.validate(), "after inserting {}", k);
        for p in present.iter() {
            assert_eq!(btree.search(p), Some(&(p * 10)));
        }
    }
    for k in [6u32, 13, 7, 4, 14] {
        assert_eq!(btree.delete(k), Some(k * 10));
        present.retain(|p| *p != k);
        assert!(btree.validate(), "after deleting {}", k);
        assert_eq!(btree.search(&k), None);
        for p in present.iter() {
            assert_eq!(btree.search(p), Some(&(p * 10)));
        }
    }
}

#[test]
fn sample_tree_has_the_expected_walk() {
    let btree = init_btree();
    let walk = btree.traverse();
    let expected: Vec<(u32, u8)> = vec![
        (1, 2), (2, 2), (3, 1), (4, 2), (5, 2), (6, 2), (7, 1), (10, 2), (11, 2), (12, 2),
        (13, 1), (14, 2), (15, 2), (16, 0), (17, 2), (18, 2), (19, 2), (20, 1), (21, 2),
        (22, 2), (24, 1), (25, 2), (26, 2),
    ];
    assert_eq!(walk, expected);
}

#[test]
fn inserted_keys_are_found_and_others_are_not() {
    let mut btree: BTree<u32, u32> = BTree::new(2);
    let keys: Vec<u32> = (0..200).map(|i| (i * 37) % 211).collect();
    for k in keys.iter() {
        btree.insert(*k, *k + 1000);
    }
    for k in keys.iter() {
        assert_eq!(btree.search(k), Some(&(*k + 1000)));
    }
    for k in 0..300u32 {
        if !keys.contains(&k) {
            assert_eq!(btree.search(&k), None);
        }
    }
    assert!(btree.validate());
}

#[test]
fn traverse_is_strictly_ascending() {
    for degree in [2usize, 3, 4, 7] {
        let mut btree: BTree<u32, u32> = BTree::new(degree);
        for i in 0..150u32 {
            btree.insert((i * 53) % 151, i);
            let keys = keys_of(&btree);
            assert!(keys.windows(2).all(|w| w[0] < w[1]));
            assert_eq!(keys.len() as u32, i + 1);
        }
    }
}

#[test]
fn duplicate_insert_keeps_the_first_value() {
    let mut btree: BTree<u32, &'static str> = BTree::new(3);
    btree.insert(1, "first");
    btree.insert(1, "second");
    assert_eq!(btree.search(&1), Some(&"first"));
    assert_eq!(btree.traverse(), vec![(1, 0)]);
}

#[test]
fn delete_then_search_finds_nothing() {
    let mut btree = init_btree();
    assert_eq!(btree.delete(16), Some(16));
    assert_eq!(btree.search(&16), None);
    assert_eq!(btree.delete(16), None);
    assert!(btree.validate());
}

#[test]
fn deleting_an_absent_key_from_a_leaf_root_changes_nothing() {
    let mut btree: BTree<u32, u32> = BTree::new(3);
    btree.insert(2, 20);
    btree.insert(4, 40);
    let before = btree.traverse();
    assert_eq!(btree.delete(3), None);
    assert_eq!(btree.traverse(), before);
    assert_eq!(btree.search(&2), Some(&20));
    assert_eq!(btree.search(&4), Some(&40));
}

#[test]
fn deleting_an_absent_key_may_rebalance_but_keeps_the_keys() {
    let mut btree = init_btree();
    let before = keys_of(&btree);
    assert_eq!(btree.delete(23), None);
    assert_eq!(keys_of(&btree), before);
    assert!(btree.validate());
}

#[test]
fn round_trip_returns_to_the_empty_leaf() {
    for degree in [2usize, 3, 5] {
        let mut btree: BTree<u32, u32> = BTree::new(degree);
        let keys: Vec<u32> = (0..120).map(|i| (i * 71) % 127).collect();
        for k in keys.iter() {
            btree.insert(*k, *k);
        }
        let mut order = keys.clone();
        order.reverse();
        order.rotate_left(17);
        for k in order.iter() {
            assert_eq!(btree.delete(*k), Some(*k));
            assert!(btree.validate());
        }
        assert_eq!(btree.traverse(), Vec::new());
        assert!(btree.validate());
        btree.insert(5, 5);
        assert_eq!(btree.traverse(), vec![(5, 0)]);
    }
}

#[test]
fn empty_tree_is_a_valid_leaf() {
    let mut btree: BTree<u32, u32> = BTree::new(2);
    assert!(btree.validate());
    assert_eq!(btree.search(&1), None);
    assert_eq!(btree.delete(1), None);
    assert_eq!(btree.traverse(), Vec::new());
}

#[test]
fn root_splits_at_capacity() {
    let mut btree: BTree<u32, u32> = BTree::new(2);
    btree.insert(1, 1);
    btree.insert(2, 2);
    btree.insert(3, 3);
    assert_eq!(btree.traverse(), vec![(1, 0), (2, 0), (3, 0)]);
    btree.insert(4, 4);
    assert_eq!(btree.traverse(), vec![(1, 1), (2, 0), (3, 1), (4, 1)]);
    assert_eq!(btree.delete(1), Some(1));
    assert_eq!(btree.traverse(), vec![(2, 1), (3, 0), (4, 1)]);
    assert_eq!(btree.delete(4), Some(4));
    assert_eq!(btree.traverse(), vec![(2, 0), (3, 0)]);
}

#[test]
fn borrowing_from_the_left_keeps_children_in_order() {
    let mut btree: BTree<u32, u32> = BTree::new(2);
    for k in 1..=40u32 {
        btree.insert(k, k);
    }
    for k in (21..=40u32).rev() {
        assert_eq!(btree.delete(k), Some(k));
        assert!(btree.validate());
        let keys = keys_of(&btree);
        assert!(keys.windows(2).all(|w| w[0] < w[1]));
        for p in 1..k {
            assert_eq!(btree.search(&p), Some(&p));
        }
    }
}

#[test]
fn deleting_an_absent_key_below_a_minimal_child_borrows_first() {
    let mut btree: BTree<u32, u32> = BTree::new(2);
    for k in 1..=4u32 {
        btree.insert(k, k);
    }
    assert_eq!(btree.traverse(), vec![(1, 1), (2, 0), (3, 1), (4, 1)]);
    assert_eq!(btree.delete(0), None);
    assert_eq!(btree.traverse(), vec![(1, 1), (2, 1), (3, 0), (4, 1)]);
    assert!(btree.validate());
}

#[test]
fn depth_counts_the_levels_below_the_root() {
    let mut btree: BTree<u32, u32> = BTree::new(2);
    assert_eq!(btree.depth(), 0);
    for k in 1..=4u32 {
        btree.insert(k, k);
    }
    assert_eq!(btree.depth(), 1);
    for k in 5..=40u32 {
        btree.insert(k, k);
    }
    let walk = btree.traverse();
    assert_eq!(walk.iter().map(|step| step.1 as usize).max(), Some(btree.depth()));
}

fn tree_of(degree: usize, keys: &[u32]) -> BTree<u32, u32> {
    let mut btree: BTree<u32, u32> = BTree::new(degree);
    for k in keys {
        btree.insert(*k, *k);
    }
    btree
}

#[test]
fn sample_tree_after_five_deletions() {
    let mut btree = init_btree();
    for k in [6u32, 13, 7] {
        assert_eq!(btree.delete(k), Some(k));
    }
    assert_eq!(btree.depth(), 2);
    assert_eq!(btree.delete(4), Some(4));
    // the root was left without keys and gave way to its only child
    assert_eq!(btree.depth(), 1);
    assert_eq!(
        btree.traverse(),
        vec![
            (1, 1), (2, 1), (3, 0), (5, 1), (10, 1), (11, 1), (12, 0), (14, 1), (15, 1), (16, 0),
            (17, 1), (18, 1), (19, 1), (20, 0), (21, 1), (22, 1), (24, 0), (25, 1), (26, 1),
        ]
    );
    assert_eq!(btree.delete(14), Some(14));
    assert_eq!(
        btree.traverse(),
        vec![
            (1, 1), (2, 1), (3, 0), (5, 1), (10, 1), (11, 0), (12, 1), (15, 1), (16, 0), (17, 1),
            (18, 1), (19, 1), (20, 0), (21, 1), (22, 1), (24, 0), (25, 1), (26, 1),
        ]
    );
}

#[test]
fn merging_round_a_separator() {
    let mut btree = init_btree();
    assert_eq!(btree.delete(6), Some(6));
    assert_eq!(btree.delete(13), Some(13));
    assert_eq!(btree.delete(7), Some(7));
    assert_eq!(
        btree.traverse(),
        vec![
            (1, 2), (2, 2), (3, 1), (4, 2), (5, 2), (10, 2), (11, 2), (12, 1), (14, 2), (15, 2),
            (16, 0), (17, 2), (18, 2), (19, 2), (20, 1), (21, 2), (22, 2), (24, 1), (25, 2),
            (26, 2),
        ]
    );
}

#[test]
fn the_previous_sibling_is_asked_first() {
    let mut btree = tree_of(2, &[10, 20, 30, 40, 50, 60, 15]);
    assert_eq!(
        btree.traverse(),
        vec![(10, 1), (15, 1), (20, 0), (30, 1), (40, 0), (50, 1), (60, 1)]
    );
    assert_eq!(btree.delete(30), Some(30));
    assert_eq!(btree.traverse(), vec![(10, 1), (15, 0), (20, 1), (40, 0), (50, 1), (60, 1)]);
}

#[test]
fn a_borrowed_child_goes_to_the_front() {
    let mut btree = tree_of(2, &[9, 8, 7, 6, 5, 4, 3, 2, 1, 0]);
    assert_eq!(
        btree.traverse(),
        vec![
            (0, 2), (1, 2), (2, 1), (3, 2), (4, 1), (5, 2), (6, 0), (7, 2), (8, 1), (9, 2),
        ]
    );
    assert_eq!(btree.delete(7), Some(7));
    assert_eq!(
        btree.traverse(),
        vec![(0, 2), (1, 2), (2, 1), (3, 2), (4, 0), (5, 2), (6, 1), (8, 2), (9, 2)]
    );
    for k in [0u32, 1, 2, 3, 4, 5, 6, 8, 9] {
        assert_eq!(btree.search(&k), Some(&k));
    }
}

#[test]
fn deleting_an_absent_key_borrows_on_the_way_down() {
    let mut btree = init_btree();
    assert_eq!(btree.delete(23), None);
    assert_eq!(
        btree.traverse(),
        vec![
            (1, 2), (2, 2), (3, 1), (4, 2), (5, 2), (6, 2), (7, 1), (10, 2), (11, 2), (12, 2),
            (13, 0), (14, 2), (15, 2), (16, 1), (17, 2), (18, 2), (19, 1), (20, 2), (21, 2),
            (22, 2), (24, 1), (25, 2), (26, 2),
        ]
    );
}

#[test]
fn the_tree_grows_only_when_a_full_root_takes_a_new_key() {
    let mut btree: BTree<u32, u32> = BTree::new(2);
    for k in [1u32, 2, 3] {
        btree.insert(k, k);
        assert_eq!(btree.depth(), 0);
    }
    btree.insert(2, 20);
    assert_eq!(btree.depth(), 0);
    btree.insert(4, 4);
    assert_eq!(btree.depth(), 1);
}
