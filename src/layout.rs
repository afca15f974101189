//! Grid placement of a tree's nodes for drawing.
//!
//! The root sits at `(0, 0)`. A node one level further down has a vertical offset
//! one larger; a left child sits one unit left of its parent and a right child one
//! unit right. Nodes are emitted in pre-order, left subtree before right subtree,
//! and each one borrows its key from the tree, so a layout cannot outlive it.
use crate::bst::{lemma_total_order, lt, total_order, BinarySearchTree, Node};
use vstd::prelude::*;

verus! {

/// A node placed on the grid.
pub struct LayoutNode<'a, T> {
    /// The key of the tree node, borrowed from the tree.
    pub value: &'a T,
    pub x_offset: i64,
    pub y_offset: i64,
    /// The offsets of the parent, or `None` for the root.
    pub parent_offset: Option<(i64, i64)>,
}

/// The placed nodes of a tree, together with the tree's depth.
pub struct LayoutResult<'a, T> {
    pub nodes: Vec<LayoutNode<'a, T>>,
    pub depth: usize,
}

/// A placed node as values: key, horizontal offset, vertical offset and the
/// parent's offsets.
pub type Placement<T> = (T, int, int, Option<(int, int)>);

pub open spec fn offset_view(o: Option<(i64, i64)>) -> Option<(int, int)> {
    match o {
        Some((x, y)) => Some((x as int, y as int)),
        None => None,
    }
}

impl<'a, T> View for LayoutNode<'a, T> {
    type V = Placement<T>;

    open spec fn view(&self) -> Placement<T> {
        (*self.value, self.x_offset as int, self.y_offset as int, offset_view(self.parent_offset))
    }
}

/// The placements of a sequence of placed nodes.
pub open spec fn placements<'a, T>(s: Seq<LayoutNode<'a, T>>) -> Seq<Placement<T>> {
    s.map_values(|n: LayoutNode<'a, T>| n@)
}

/// The pre-order placements of the subtree under `node`, which sits at `(x, y)`
/// below a parent at `parent`.
pub open spec fn place<T>(node: Node<T>, x: int, y: int, parent: Option<(int, int)>) -> Seq<
    Placement<T>,
>
    decreases node,
{
    seq![(node.key, x, y, parent)] + place_child(node.left, x - 1, y + 1, Some((x, y)))
        + place_child(node.right, x + 1, y + 1, Some((x, y)))
}

/// The placements of an optional subtree; none for a missing one.
pub open spec fn place_child<T>(
    child: Option<Box<Node<T>>>,
    x: int,
    y: int,
    parent: Option<(int, int)>,
) -> Seq<Placement<T>>
    decreases child,
{
    match child {
        Some(n) => place(*n, x, y, parent),
        None => Seq::empty(),
    }
}

/// The placements of a whole tree: empty for an empty tree, else those of the
/// root at `(0, 0)` with no parent.
pub open spec fn layout_of<T>(tree: BinarySearchTree<T>) -> Seq<Placement<T>> {
    match tree.root {
        Some(n) => place(n, 0, 0, None),
        None => Seq::empty(),
    }
}

impl<'a, T> LayoutResult<'a, T> {
    /// The placements of the nodes, in order.
    pub open spec fn view_nodes(self) -> Seq<Placement<T>> {
        placements(self.nodes@)
    }
}

/// Appends the placements of the subtree under `node` to `out`.
fn visit_node<'a, T>(
    node: &'a Node<T>,
    out: &mut Vec<LayoutNode<'a, T>>,
    x: i64,
    y: i64,
    parent: Option<(i64, i64)>,
)
    requires
        0 <= y,
        -y <= x <= y,
        y + node.height() <= i64::MAX,
    ensures
        placements(final(out)@) == placements(old(out)@) + place(
            *node,
            x as int,
            y as int,
            offset_view(parent),
        ),
    decreases node,
{
    let here = LayoutNode { value: &node.key, x_offset: x, y_offset: y, parent_offset: parent };
    let ghost before = out@;
    out.push(here);
    assert(placements(out@) =~= placements(before).push(here@));
    let ghost after_here = out@;
    if let Some(left) = &node.left {
        visit_node(left, out, x - 1, y + 1, Some((x, y)));
    }
    let ghost after_left = out@;
    if let Some(right) = &node.right {
        visit_node(right, out, x + 1, y + 1, Some((x, y)));
    }
    proof {
        let l = place_child(node.left, x - 1, y + 1, Some((x as int, y as int)));
        let r = place_child(node.right, x + 1, y + 1, Some((x as int, y as int)));
        assert(placements(after_left) =~= placements(after_here) + l);
        assert(placements(out@) =~= placements(after_left) + r);
        assert(placements(out@) =~= placements(before) + place(
            *node,
            x as int,
            y as int,
            offset_view(parent),
        ));
    }
}

/// Places every node of `tree`, and records the tree's depth.
pub fn layout<'a, T>(tree: &'a BinarySearchTree<T>) -> (r: LayoutResult<'a, T>)
    requires
        tree.height() <= i64::MAX,
        tree.height() <= usize::MAX,
    ensures
        r.view_nodes() == layout_of(*tree),
        r.depth == tree.height(),
{
    let mut nodes: Vec<LayoutNode<'a, T>> = Vec::new();
    match &tree.root {
        Some(root) => {
            visit_node(root, &mut nodes, 0, 0, None);
            assert(placements(nodes@) =~= layout_of(*tree));
            LayoutResult { nodes, depth: tree.depth() }
        },
        None => {
            assert(placements(nodes@) =~= layout_of(*tree));
            LayoutResult { nodes, depth: 0 }
        },
    }
}

/// The keys of a sequence of placements, in order.
pub open spec fn keys_of<T>(p: Seq<Placement<T>>) -> Seq<T> {
    p.map_values(|e: Placement<T>| e.0)
}

/// The placements of a subtree hold each of its keys exactly once.
pub proof fn lemma_place_keys<T: Ord>(node: Node<T>, x: int, y: int, parent: Option<(int, int)>)
    requires
        total_order::<T>(),
        node.ordered(),
    ensures
        place(node, x, y, parent).len() == node.size(),
        keys_of(place(node, x, y, parent)).no_duplicates(),
        forall|k: T|
            #[trigger] keys_of(place(node, x, y, parent)).contains(k) <==> node.keys().contains(k),
    decreases node,
{
    broadcast use vstd::seq_lib::lemma_seq_concat_contains_all_elements;

    lemma_total_order::<T>();
    let h: Seq<T> = seq![node.key];
    let l = keys_of(place_child(node.left, x - 1, y + 1, Some((x, y))));
    let r = keys_of(place_child(node.right, x + 1, y + 1, Some((x, y))));
    match node.left {
        Some(n) => lemma_place_keys(*n, x - 1, y + 1, Some((x, y))),
        None => {},
    }
    match node.right {
        Some(n) => lemma_place_keys(*n, x + 1, y + 1, Some((x, y))),
        None => {},
    }
    assert(keys_of(place(node, x, y, parent)) =~= h + l + r);
    assert(forall|k: T| #[trigger] l.contains(k) <==> node.left_keys().contains(k));
    assert(forall|k: T| #[trigger] r.contains(k) <==> node.right_keys().contains(k));
    assert(forall|k: T| #[trigger] h.contains(k) <==> k == node.key) by {
        assert(h[0] == node.key);
    }
    assert forall|i: int, j: int| 0 <= i < h.len() && 0 <= j < l.len() implies h[i] != l[j] by {
        assert(l.contains(l[j]));
    }
    vstd::seq_lib::lemma_no_dup_in_concat(h, l);
    assert forall|i: int, j: int| 0 <= i < (h + l).len() && 0 <= j < r.len() implies (h + l)[i] != r[j] by {
        assert((h + l).contains((h + l)[i]));
        assert(r.contains(r[j]));
        let a = (h + l)[i];
        let b = r[j];
        assert(lt(node.key, b));
        if a != node.key {
            assert(l.contains(a));
            assert(lt(a, node.key));
        }
    }
    vstd::seq_lib::lemma_no_dup_in_concat(h + l, r);
    assert forall|k: T| #[trigger] keys_of(place(node, x, y, parent)).contains(k) <==> node.keys().contains(k) by {
        assert((h + l + r).contains(k) <==> (h.contains(k) || l.contains(k) || r.contains(k)));
    }
}

/// Every entry of `p` after the first records the offsets of an earlier entry
/// whose key is, in `node`'s subtree, the key of its parent.
pub open spec fn linked_to_parents<T>(node: Node<T>, p: Seq<Placement<T>>) -> bool {
    forall|i: int| 0 < i < p.len() ==> #[trigger] parent_entry_before(node, p, i)
}

/// Some entry of `p` before entry `i` holds the key of `i`'s parent in `node`'s
/// subtree, and `i` records that entry's offsets.
pub open spec fn parent_entry_before<T>(node: Node<T>, p: Seq<Placement<T>>, i: int) -> bool {
    exists|j: int|
        0 <= j < i && node.has_edge(#[trigger] p[j].0, p[i].0) && p[i].3 == Some((p[j].1, p[j].2))
}

/// The placements of a subtree start with its root at `(x, y)` recording
/// `parent`, and every later entry records the offsets of its parent's entry.
pub proof fn lemma_place_parents<T>(node: Node<T>, x: int, y: int, parent: Option<(int, int)>)
    ensures
        place(node, x, y, parent)[0] == (node.key, x, y, parent),
        linked_to_parents(node, place(node, x, y, parent)),
    decreases node,
{
    let p = place(node, x, y, parent);
    let l = place_child(node.left, x - 1, y + 1, Some((x, y)));
    let r = place_child(node.right, x + 1, y + 1, Some((x, y)));
    let nl = l.len() as int;
    assert(p == seq![(node.key, x, y, parent)] + l + r);
    match node.left {
        Some(n) => lemma_place_parents(*n, x - 1, y + 1, Some((x, y))),
        None => {},
    }
    match node.right {
        Some(n) => lemma_place_parents(*n, x + 1, y + 1, Some((x, y))),
        None => {},
    }
    assert forall|i: int| 0 < i < p.len() implies #[trigger] parent_entry_before(node, p, i) by {
        if i <= nl {
            let n = node.left.unwrap();
            let i2 = i - 1;
            assert(p[i] == l[i2]);
            assert(l == place(*n, x - 1, y + 1, Some((x, y))));
            if i2 == 0 {
                assert(l[0] == (n.key, x - 1, y + 1, Some((x, y))));
                assert(p[0].0 == node.key);
                assert(node.has_edge(p[0].0, p[i].0));
                assert(p[i].3 == Some((p[0].1, p[0].2)));
            } else {
                assert(linked_to_parents(*n, l));
                assert(0 < i2 < l.len());
                assert(parent_entry_before(*n, l, i2));
                let j2 = choose|j2: int|
                    0 <= j2 < i2 && n.has_edge(#[trigger] l[j2].0, l[i2].0) && l[i2].3 == Some((l[j2].1, l[j2].2));
                assert(p[j2 + 1] == l[j2]);
                assert(node.has_edge(p[j2 + 1].0, p[i].0));
                assert(p[i].3 == Some((p[j2 + 1].1, p[j2 + 1].2)));
            }
        } else {
            let n = node.right.unwrap();
            let i2 = i - 1 - nl;
            assert(p[i] == r[i2]);
            assert(r == place(*n, x + 1, y + 1, Some((x, y))));
            if i2 == 0 {
                assert(r[0] == (n.key, x + 1, y + 1, Some((x, y))));
                assert(p[0].0 == node.key);
                assert(node.has_edge(p[0].0, p[i].0));
                assert(p[i].3 == Some((p[0].1, p[0].2)));
            } else {
                assert(linked_to_parents(*n, r));
                assert(0 < i2 < r.len());
                assert(parent_entry_before(*n, r, i2));
                let j2 = choose|j2: int|
                    0 <= j2 < i2 && n.has_edge(#[trigger] r[j2].0, r[i2].0) && r[i2].3 == Some((r[j2].1, r[j2].2));
                assert(p[j2 + 1 + nl] == r[j2]);
                assert(node.has_edge(p[j2 + 1 + nl].0, p[i].0));
                assert(p[i].3 == Some((p[j2 + 1 + nl].1, p[j2 + 1 + nl].2)));
            }
        }
    }
}

/// The layout of a well-formed tree has one entry per node, and its keys are the
/// tree's keys, each exactly once.
pub proof fn lemma_layout_complete<T: Ord>(tree: BinarySearchTree<T>)
    requires
        total_order::<T>(),
        tree.wf(),
    ensures
        layout_of(tree).len() == tree.len(),
        keys_of(layout_of(tree)).no_duplicates(),
        forall|k: T| #[trigger] keys_of(layout_of(tree)).contains(k) <==> tree.keys().contains(k),
{
    match tree.root {
        Some(n) => lemma_place_keys(n, 0, 0, None),
        None => {
            assert(forall|k: T| !#[trigger] keys_of(layout_of(tree)).contains(k));
        },
    }
}

/// In the layout of a non-empty tree, the first entry is the root, at `(0, 0)`
/// with no parent offsets, and every later entry records the offsets given to the
/// entry of its parent.
pub proof fn lemma_layout_parent_linkage<T>(tree: BinarySearchTree<T>)
    requires
        tree.root is Some,
    ensures
        layout_of(tree)[0] == (tree.root.unwrap().key, 0int, 0int, None::<(int, int)>),
        linked_to_parents(tree.root.unwrap(), layout_of(tree)),
{
    lemma_place_parents(tree.root.unwrap(), 0, 0, None);
}

/// Two layouts of the same tree assign the same entries, in the same order, and
/// record the same depth.
pub proof fn lemma_layout_deterministic<'a, 'b, T>(
    tree: BinarySearchTree<T>,
    first: LayoutResult<'a, T>,
    second: LayoutResult<'b, T>,
)
    requires
        first.view_nodes() == layout_of(tree),
        first.depth == tree.height(),
        second.view_nodes() == layout_of(tree),
        second.depth == tree.height(),
    ensures
        first.view_nodes() == second.view_nodes(),
        first.depth == second.depth,
{
}

} // verus!
