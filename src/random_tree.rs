//! Trees of randomly drawn keys, for demonstrations.
use crate::bst::{lemma_tree_height_le_len, BinarySearchTree};
use rand::Rng;
use vstd::prelude::*;

verus! {

broadcast use {vstd::laws_cmp::group_laws_cmp, vstd::laws_eq::group_laws_eq};

/// Relies on rand's `thread_rng` and `Rng::gen_range`: a value drawn uniformly
/// from `lo..hi`; `gen_range` panics on an empty range.
#[verifier::external_body]
fn draw_key(lo: u32, hi: u32) -> (k: u32)
    requires
        lo < hi,
    ensures
        lo <= k < hi,
{
    rand::thread_rng().gen_range(lo..hi)
}

/// A tree that holds `first` followed by `count` keys drawn from `lo..hi`,
/// inserted in the order drawn.
pub fn random_tree(first: u32, count: usize, lo: u32, hi: u32) -> (t: BinarySearchTree<u32>)
    requires
        lo < hi,
    ensures
        t.wf(),
        t.keys().contains(first),
        forall|k: u32| #[trigger] t.keys().contains(k) ==> k == first || (lo <= k < hi),
        t.len() <= count + 1,
{
    let mut tree: BinarySearchTree<u32> = BinarySearchTree::new();
    tree.insert(first);
    let mut i: usize = 0;
    while i < count
        invariant
            i <= count,
            lo < hi,
            tree.wf(),
            tree.keys().contains(first),
            forall|k: u32| #[trigger] tree.keys().contains(k) ==> k == first || (lo <= k < hi),
            tree.len() <= i + 1,
        decreases count - i,
    {
        let key = draw_key(lo, hi);
        tree.insert(key);
        i = i + 1;
    }
    tree
}

/// Draws a tree as `random_tree` does and keeps it when its depth is at most
/// `max_depth`; `None` when the drawn tree came out deeper.
pub fn shallow_random_tree(max_depth: usize, first: u32, count: usize, lo: u32, hi: u32) -> (r:
    Option<BinarySearchTree<u32>>)
    requires
        lo < hi,
        count < usize::MAX,
    ensures
        r matches Some(t) ==> {
            &&& t.wf()
            &&& t.height() <= max_depth
            &&& t.keys().contains(first)
            &&& forall|k: u32| #[trigger] t.keys().contains(k) ==> k == first || (lo <= k < hi)
        },
        count == 0 && max_depth >= 1 ==> r is Some,
{
    let tree = random_tree(first, count, lo, hi);
    proof {
        lemma_tree_height_le_len(tree);
    }
    if tree.depth() <= max_depth {
        Some(tree)
    } else {
        None
    }
}

} // verus!
