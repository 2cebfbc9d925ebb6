use datakit::avl_tree::{AvlNode, AvlTree};

fn in_order(node: Option<&AvlNode<i32>>, out: &mut Vec<i32>) -> usize {
    match node {
        None => 0,
        Some(n) => {
            let l = in_order(n.left_child(), out);
            out.push(*n.data());
            let r = in_order(n.right_child(), out);
            assert!(l <= r + 1 && r <= l + 1, "unbalanced at {}", n.data());
            1 + l.max(r)
        }
    }
}

fn shape(tree: &AvlTree<i32>) -> (Vec<i32>, usize) {
    let mut out = Vec::new();
    let levels = in_order(tree.root(), &mut out);
    (out, levels)
}

#[test]
fn simple_singe_rotate() {
    let mut tree = AvlTree::new();
    tree.insert(3);
    tree.insert(2);
    tree.insert(1);

    let root = tree.root().unwrap();
    assert_eq!(*root.data(), 2);
    assert_eq!(*root.left_child().unwrap().data(), 1);
    assert_eq!(*root.right_child().unwrap().data(), 3);
    assert!(true);
}

#[test]
fn simple_singe_rotate2() {
    let mut tree = AvlTree::new();
    tree.insert(3);
    tree.insert(2);
    tree.insert(1);

    for i in &[4, 5, 6, 7] {
        tree.insert(*i);
    }

    assert_eq!(shape(&tree), (vec![1, 2, 3, 4, 5, 6, 7], 3));
    assert_eq!(*tree.root().unwrap().data(), 4);
    assert!(true);
}

#[test]
fn simple_double_rotate() {
    let mut tree = AvlTree::new();
    tree.insert(3);
    tree.insert(2);
    tree.insert(1);

    for i in &[4, 5, 6, 7] {
        tree.insert(*i);
    }

    tree.insert(16);
    tree.insert(15);

    assert_eq!(shape(&tree), (vec![1, 2, 3, 4, 5, 6, 7, 15, 16], 4));
    let seven = tree.root().unwrap().right_child().unwrap().right_child().unwrap();
    assert_eq!(*seven.data(), 15);
    assert_eq!(*seven.left_child().unwrap().data(), 7);
    assert_eq!(*seven.right_child().unwrap().data(), 16);
    assert!(true);
}

#[test]
fn simple_mixed_rotate() {
    let mut tree = AvlTree::new();
    tree.insert(3);
    tree.insert(2);
    tree.insert(1);

    for i in &[4, 5, 6, 7] {
        tree.insert(*i);
    }

    // insert 16, 15 .. 10
    for i in (10..17).rev() {
        tree.insert(i);
    }

    tree.insert(8);
    tree.insert(9);

    let (elements, levels) = shape(&tree);
    assert_eq!(elements, (1..=16).collect::<Vec<i32>>());
    assert_eq!(levels, 5);
    assert_eq!(*tree.root().unwrap().data(), 7);
    assert!(true);
}

#[test]
fn empty_tree_has_no_root() {
    let tree: AvlTree<i32> = AvlTree::new();
    assert!(tree.root().is_none());
}

#[test]
fn double_rotation_on_the_left() {
    let mut tree = AvlTree::new();
    tree.insert(3);
    tree.insert(1);
    tree.insert(2);
    let root = tree.root().unwrap();
    assert_eq!(*root.data(), 2);
    assert_eq!(*root.left_child().unwrap().data(), 1);
    assert_eq!(*root.right_child().unwrap().data(), 3);
}

#[test]
fn duplicates_are_ignored() {
    let mut tree = AvlTree::new();
    for i in [5, 3, 8, 3, 5, 8, 5] {
        tree.insert(i);
    }
    assert_eq!(shape(&tree), (vec![3, 5, 8], 2));
}

#[test]
fn insert_node_rebalances() {
    let mut root = Box::new(AvlNode::new(1));
    for i in 2..=7 {
        root = AvlNode::insert_node(root, Box::new(AvlNode::new(i)));
    }
    assert_eq!(*root.data(), 4);
    assert_eq!(*root.left_child().unwrap().data(), 2);
    assert_eq!(*root.right_child().unwrap().data(), 6);
}

#[test]
fn many_insertions_stay_balanced() {
    let mut tree = AvlTree::new();
    let mut expected: Vec<i32> = Vec::new();
    for i in 0..500 {
        let x = (i * 7919) % 1009;
        tree.insert(x);
        expected.push(x);
    }
    expected.sort();
    expected.dedup();
    let (elements, levels) = shape(&tree);
    assert_eq!(elements, expected);
    assert!(levels <= 13);
}
