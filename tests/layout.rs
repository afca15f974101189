use bst_vis::bst::BinarySearchTree;
use bst_vis::layout::{layout, LayoutResult};
use bst_vis::random_tree::{random_tree, shallow_random_tree};

fn build(keys: &[i32]) -> BinarySearchTree<i32> {
    let mut tree = BinarySearchTree::new();
    for &k in keys {
        tree.insert(k);
    }
    tree
}

fn entries(r: &LayoutResult<'_, i32>) -> Vec<(i32, i64, i64, Option<(i64, i64)>)> {
    r.nodes
        .iter()
        .map(|n| (*n.value, n.x_offset, n.y_offset, n.parent_offset))
        .collect()
}

#[test]
fn layout_of_empty_tree() {
    let tree: BinarySearchTree<i32> = BinarySearchTree::new();
    let r = layout(&tree);
    assert!(r.nodes.is_empty());
    assert_eq!(r.depth, 0);
}

#[test]
fn layout_scenario_unit_steps() {
    let tree = build(&[50, 30, 70, 20, 40]);
    let r = layout(&tree);
    assert_eq!(r.depth, 3);
    assert_eq!(
        entries(&r),
        vec![
            (50, 0, 0, None),
            (30, -1, 1, Some((0, 0))),
            (20, -2, 2, Some((-1, 1))),
            (40, 0, 2, Some((-1, 1))),
            (70, 1, 1, Some((0, 0))),
        ]
    );
}

#[test]
fn layout_has_one_entry_per_key() {
    let keys = [15, 6, 23, 4, 7, 71, 5, 50, 6, 4];
    let tree = build(&keys);
    let r = layout(&tree);
    let mut seen: Vec<i32> = r.nodes.iter().map(|n| *n.value).collect();
    seen.sort();
    assert_eq!(seen, vec![4, 5, 6, 7, 15, 23, 50, 71]);
}

#[test]
fn layout_parent_offsets_match_parent_entries() {
    let tree = build(&[8, 3, 10, 1, 6, 14, 4, 7, 13]);
    let r = layout(&tree);
    let e = entries(&r);
    let parent_of = |k: i32| -> Option<i32> {
        match k {
            8 => None,
            3 | 10 => Some(8),
            1 | 6 => Some(3),
            14 => Some(10),
            4 | 7 => Some(6),
            13 => Some(14),
            _ => unreachable!(),
        }
    };
    for &(k, x, y, p) in &e {
        match parent_of(k) {
            None => {
                assert_eq!((x, y, p), (0, 0, None));
            }
            Some(pk) => {
                let &(_, px, py, _) = e.iter().find(|t| t.0 == pk).unwrap();
                assert_eq!(p, Some((px, py)));
                assert_eq!(y, py + 1);
                assert_eq!((x - px).abs(), 1);
            }
        }
    }
    assert_eq!(r.depth, 4);
}

#[test]
fn layout_is_deterministic() {
    let tree = build(&[9, 4, 12, 2, 6, 11, 20, 5]);
    let a = layout(&tree);
    let b = layout(&tree);
    assert_eq!(entries(&a), entries(&b));
    assert_eq!(a.depth, b.depth);
}

#[test]
fn layout_of_left_chain() {
    let tree = build(&[3, 2, 1]);
    let r = layout(&tree);
    assert_eq!(
        entries(&r),
        vec![(3, 0, 0, None), (2, -1, 1, Some((0, 0))), (1, -2, 2, Some((-1, 1)))]
    );
    assert_eq!(r.depth, 3);
}

#[test]
fn random_tree_keys_in_range() {
    let tree = random_tree(50, 50, 0, 100);
    let root = tree.root.as_ref().unwrap();
    assert_eq!(root.key, 50);
    let r = layout(&tree);
    assert!(!r.nodes.is_empty());
    assert!(r.nodes.len() <= 51);
    for n in &r.nodes {
        assert!(*n.value < 100);
    }
}

#[test]
fn random_tree_draws_keys_other_than_first() {
    let tree = random_tree(1000, 200, 0, 10);
    let r = layout(&tree);
    assert!(r.nodes.len() > 1);
    assert!(r.nodes.iter().any(|n| *n.value < 10));
}

#[test]
fn shallow_random_tree_without_draws() {
    let t = shallow_random_tree(1, 50, 0, 0, 100).unwrap();
    assert_eq!(t.depth(), 1);
    assert!(shallow_random_tree(0, 50, 0, 0, 100).is_none());
}

#[test]
fn shallow_random_tree_respects_bound() {
    for _ in 0..20 {
        if let Some(t) = shallow_random_tree(7, 50, 50, 0, 100) {
            assert!(t.depth() <= 7);
        }
    }
}
