use bst_vis::bst::{BinarySearchTree, Node};

fn walk_in_order(node: &Node<i32>, out: &mut Vec<i32>) {
    if let Some(left) = &node.left {
        walk_in_order(left, out);
    }
    out.push(node.key);
    if let Some(right) = &node.right {
        walk_in_order(right, out);
    }
}

fn in_order(tree: &BinarySearchTree<i32>) -> Vec<i32> {
    let mut out = Vec::new();
    if let Some(root) = &tree.root {
        walk_in_order(root, &mut out);
    }
    out
}

fn build(keys: &[i32]) -> BinarySearchTree<i32> {
    let mut tree = BinarySearchTree::new();
    for &k in keys {
        tree.insert(k);
    }
    tree
}

#[test]
fn in_order_walk_is_strictly_increasing() {
    let tree = build(&[8, 3, 10, 1, 6, 14, 4, 7, 13, 3, 8, -5]);
    let keys = in_order(&tree);
    assert_eq!(keys, vec![-5, 1, 3, 4, 6, 7, 8, 10, 13, 14]);
    for w in keys.windows(2) {
        assert!(w[0] < w[1]);
    }
}

#[test]
fn inserting_same_key_twice() {
    let mut tree = build(&[5, 2, 9]);
    let before = in_order(&tree).len();
    assert!(tree.insert(7));
    assert!(!tree.insert(7));
    assert_eq!(in_order(&tree).len(), before + 1);
    assert_eq!(in_order(&tree), vec![2, 5, 7, 9]);
}

#[test]
fn insert_into_empty_tree_makes_root() {
    let mut tree: BinarySearchTree<i32> = BinarySearchTree::default();
    assert!(tree.root.is_none());
    assert!(tree.insert(42));
    let root = tree.root.as_ref().unwrap();
    assert_eq!(root.key, 42);
    assert!(root.left.is_none());
    assert!(root.right.is_none());
}

#[test]
fn depth_of_right_chain() {
    let tree = build(&[1, 2, 3]);
    assert_eq!(tree.depth(), 3);
}

#[test]
fn depth_of_balanced_three() {
    let tree = build(&[2, 1, 3]);
    assert_eq!(tree.depth(), 2);
}

#[test]
fn depth_of_empty_tree() {
    let tree: BinarySearchTree<i32> = BinarySearchTree::new();
    assert_eq!(tree.depth(), 0);
}

#[test]
fn depth_of_single_node_and_left_chain() {
    assert_eq!(build(&[7]).depth(), 1);
    assert_eq!(build(&[5, 4, 3, 2, 1]).depth(), 5);
    assert_eq!(build(&[5, 4, 3, 2, 1, 3, 4]).depth(), 5);
}

#[test]
fn scenario_tree_shape_and_depth() {
    let tree = build(&[50, 30, 70, 20, 40]);
    let root = tree.root.as_ref().unwrap();
    assert_eq!(root.key, 50);
    let left = root.left.as_ref().unwrap();
    let right = root.right.as_ref().unwrap();
    assert_eq!(left.key, 30);
    assert_eq!(right.key, 70);
    assert_eq!(left.left.as_ref().unwrap().key, 20);
    assert_eq!(left.right.as_ref().unwrap().key, 40);
    assert!(right.left.is_none());
    assert!(right.right.is_none());
    assert_eq!(tree.depth(), 3);
}

#[test]
fn string_keys_are_ordered() {
    let mut tree = BinarySearchTree::new();
    assert!(tree.insert(String::from("m")));
    assert!(tree.insert(String::from("a")));
    assert!(tree.insert(String::from("z")));
    assert!(!tree.insert(String::from("a")));
    let root = tree.root.as_ref().unwrap();
    assert_eq!(root.left.as_ref().unwrap().key, "a");
    assert_eq!(root.right.as_ref().unwrap().key, "z");
    assert_eq!(tree.depth(), 2);
}
