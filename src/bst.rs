//! Binary search tree without deletion or rebalancing.
use core::cmp::Ordering;
use vstd::laws_cmp::*;
use vstd::laws_eq::*;
use vstd::prelude::*;
use vstd::std_specs::cmp::{OrdSpec, PartialOrdSpec};

verus! {

/// `T`'s comparison is a total order whose `Equal` means equality.
pub open spec fn total_order<T: Ord>() -> bool {
    obeys_cmp::<T>() && obeys_concrete_eq::<T>()
}

/// `a` sorts strictly before `b`.
pub open spec fn lt<T: Ord>(a: T, b: T) -> bool {
    a.cmp_spec(&b) == Ordering::Less
}

/// The facts about `lt` that the proofs use: it is irreflexive, transitive and total.
pub proof fn lemma_total_order<T: Ord>()
    requires
        total_order::<T>(),
    ensures
        T::obeys_cmp_spec(),
        forall|a: T, b: T| #[trigger] a.cmp_spec(&b) == Ordering::Equal <==> a == b,
        forall|a: T, b: T| #[trigger] a.cmp_spec(&b) == Ordering::Greater <==> lt(b, a),
        forall|a: T| !lt(a, a),
        forall|a: T, b: T, c: T| #![trigger lt(a, b), lt(b, c)] lt(a, b) && lt(b, c) ==> lt(a, c),
        forall|a: T, b: T| #![trigger lt(a, b)] #![trigger lt(b, a)] a != b ==> lt(a, b) || lt(b, a),
{
    reveal(obeys_cmp_partial_ord);
    reveal(obeys_cmp_ord);
    reveal(obeys_partial_cmp_spec_properties);
    reveal(obeys_concrete_eq);
    assert forall|a: T, b: T| #[trigger] a.cmp_spec(&b) == Ordering::Greater <==> lt(b, a) by {
        assert(a.partial_cmp_spec(&b) == Some(a.cmp_spec(&b)));
        assert(b.partial_cmp_spec(&a) == Some(b.cmp_spec(&a)));
    }
    assert forall|a: T, b: T, c: T| #![trigger lt(a, b), lt(b, c)] lt(a, b) && lt(b, c) implies lt(a, c) by {
        assert(a.partial_cmp_spec(&b) == Some(a.cmp_spec(&b)));
        assert(b.partial_cmp_spec(&c) == Some(b.cmp_spec(&c)));
        assert(a.partial_cmp_spec(&c) == Some(a.cmp_spec(&c)));
    }
    assert forall|a: T, b: T| #![trigger lt(a, b)] #![trigger lt(b, a)] a != b implies lt(a, b) || lt(b, a) by {
        assert(a.partial_cmp_spec(&b) == Some(a.cmp_spec(&b)));
        assert(b.partial_cmp_spec(&a) == Some(b.cmp_spec(&a)));
    }
}

/// A node owns its key and its two optional subtrees.
pub struct Node<T> {
    pub key: T,
    pub left: Option<Box<Node<T>>>,
    pub right: Option<Box<Node<T>>>,
}

/// A possibly empty tree; `root` is `None` when it holds no key.
pub struct BinarySearchTree<T> {
    pub root: Option<Node<T>>,
}

impl<T> Node<T> {
    /// A node with no children.
    pub open spec fn leaf(key: T) -> Node<T> {
        Node { key, left: None, right: None }
    }

    /// The keys stored in this subtree.
    pub open spec fn keys(self) -> Set<T>
        decreases self,
    {
        let l = match self.left {
            Some(n) => n.keys(),
            None => Set::empty(),
        };
        let r = match self.right {
            Some(n) => n.keys(),
            None => Set::empty(),
        };
        l.union(r).insert(self.key)
    }

    /// The keys of the left subtree.
    pub open spec fn left_keys(self) -> Set<T> {
        match self.left {
            Some(n) => n.keys(),
            None => Set::empty(),
        }
    }

    /// The keys of the right subtree.
    pub open spec fn right_keys(self) -> Set<T> {
        match self.right {
            Some(n) => n.keys(),
            None => Set::empty(),
        }
    }

    /// The keys of this subtree, left subtree first, then the key, then the right subtree.
    pub open spec fn inorder(self) -> Seq<T>
        decreases self,
    {
        let l = match self.left {
            Some(n) => n.inorder(),
            None => Seq::empty(),
        };
        let r = match self.right {
            Some(n) => n.inorder(),
            None => Seq::empty(),
        };
        l.push(self.key) + r
    }

    /// The number of nodes in this subtree.
    pub open spec fn size(self) -> nat
        decreases self,
    {
        let l = match self.left {
            Some(n) => n.size(),
            None => 0,
        };
        let r = match self.right {
            Some(n) => n.size(),
            None => 0,
        };
        l + r + 1
    }

    /// One more than the larger height of the two subtrees; a missing subtree has height 0.
    pub open spec fn height(self) -> nat
        decreases self,
    {
        let l = match self.left {
            Some(n) => n.height(),
            None => 0,
        };
        let r = match self.right {
            Some(n) => n.height(),
            None => 0,
        };
        if l >= r { l + 1 } else { r + 1 }
    }
}

impl<T> Node<T> {
    /// The key of an optional subtree's root.
    pub open spec fn key_of(child: Option<Box<Node<T>>>) -> Option<T> {
        match child {
            Some(n) => Some(n.key),
            None => None,
        }
    }

    /// Some node of this subtree with key `a` has a child with key `b`.
    pub open spec fn has_edge(self, a: T, b: T) -> bool
        decreases self,
    {
        ||| (self.key == a && (Self::key_of(self.left) == Some(b) || Self::key_of(self.right) == Some(b)))
        ||| match self.left {
            Some(n) => n.has_edge(a, b),
            None => false,
        }
        ||| match self.right {
            Some(n) => n.has_edge(a, b),
            None => false,
        }
    }
}

impl<T: Ord> Node<T> {
    /// Every key of the left subtree sorts before the node's key, every key of the
    /// right subtree after it, and both subtrees are ordered in turn.
    pub open spec fn ordered(self) -> bool
        decreases self,
    {
        &&& match self.left {
            Some(n) => n.ordered() && forall|k: T| #[trigger] n.keys().contains(k) ==> lt(k, self.key),
            None => true,
        }
        &&& match self.right {
            Some(n) => n.ordered() && forall|k: T| #[trigger] n.keys().contains(k) ==> lt(self.key, k),
            None => true,
        }
    }

    /// The subtree after `key` has been inserted: the walk goes left on a smaller key,
    /// right on a larger one, stops at an equal key, and hangs a new leaf where it
    /// finds no child.
    pub open spec fn inserted(self, key: T) -> Node<T>
        decreases self,
    {
        if key == self.key {
            self
        } else if lt(key, self.key) {
            Node {
                left: Some(
                    Box::new(
                        match self.left {
                            Some(n) => n.inserted(key),
                            None => Node::leaf(key),
                        },
                    ),
                ),
                ..self
            }
        } else {
            Node {
                right: Some(
                    Box::new(
                        match self.right {
                            Some(n) => n.inserted(key),
                            None => Node::leaf(key),
                        },
                    ),
                ),
                ..self
            }
        }
    }
}


/// Inserting into an ordered subtree keeps it ordered, adds exactly `key` to its
/// keys, and adds one node exactly when `key` was absent.
pub proof fn lemma_inserted<T: Ord>(node: Node<T>, key: T)
    requires
        total_order::<T>(),
        node.ordered(),
    ensures
        node.inserted(key).ordered(),
        node.inserted(key).keys() == node.keys().insert(key),
        node.inserted(key).size() == if node.keys().contains(key) {
            node.size()
        } else {
            node.size() + 1
        },
    decreases node,
{
    lemma_total_order::<T>();
    let lk = match node.left {
        Some(n) => n.keys(),
        None => Set::empty(),
    };
    let rk = match node.right {
        Some(n) => n.keys(),
        None => Set::empty(),
    };
    if key == node.key {
        assert(node.keys().insert(key) =~= node.keys());
    } else if lt(key, node.key) {
        let m = match node.left {
            Some(n) => n.inserted(key),
            None => Node::leaf(key),
        };
        match node.left {
            Some(n) => {
                lemma_inserted(*n, key);
            },
            None => {
                assert(m.keys() =~= Set::empty().insert(key));
            },
        }
        assert(m.keys() =~= lk.insert(key));
        assert(!rk.contains(key));
        let ls: nat = match node.left {
            Some(n) => n.size(),
            None => 0,
        };
        assert(m.size() == if lk.contains(key) { ls } else { ls + 1 });
        assert(node.keys().contains(key) == lk.contains(key));
        assert forall|k: T| #[trigger] m.keys().contains(k) implies lt(k, node.key) by {
            if k != key {
                assert(lk.contains(k));
            }
        }
        assert(node.inserted(key).left == Some(Box::new(m)));
        assert(node.inserted(key).keys() =~= node.keys().insert(key));
        assert(m.ordered());
        assert(node.inserted(key).right == node.right);
        assert(node.inserted(key).ordered());
    } else {
        assert(lt(node.key, key));
        let m = match node.right {
            Some(n) => n.inserted(key),
            None => Node::leaf(key),
        };
        match node.right {
            Some(n) => {
                lemma_inserted(*n, key);
            },
            None => {
                assert(m.keys() =~= Set::empty().insert(key));
            },
        }
        assert(m.keys() =~= rk.insert(key));
        assert(!lk.contains(key));
        let rs: nat = match node.right {
            Some(n) => n.size(),
            None => 0,
        };
        assert(m.size() == if rk.contains(key) { rs } else { rs + 1 });
        assert(node.keys().contains(key) == rk.contains(key));
        assert forall|k: T| #[trigger] m.keys().contains(k) implies lt(node.key, k) by {
            if k != key {
                assert(rk.contains(k));
            }
        }
        assert(node.inserted(key).right == Some(Box::new(m)));
        assert(node.inserted(key).keys() =~= node.keys().insert(key));
        assert(m.ordered());
        assert(node.inserted(key).left == node.left);
        assert(node.inserted(key).ordered());
    }
}

impl<T> Node<T> {
    /// A node holding `key` with no children.
    pub fn new(key: T) -> (n: Self)
        ensures
            n == Node::leaf(key),
    {
        Self { key, left: None, right: None }
    }
}

impl<T: Ord> Node<T> {
    /// Inserts `key` below this node; returns whether a new node was created.
    fn insert_below(&mut self, key: T) -> (r: bool)
        requires
            total_order::<T>(),
            old(self).ordered(),
        ensures
            *final(self) == old(self).inserted(key),
            r == !old(self).keys().contains(key),
        decreases *old(self),
    {
        proof {
            lemma_total_order::<T>();
        }
        match key.cmp(&self.key) {
            Ordering::Equal => false,
            Ordering::Less => {
                proof {
                    lemma_inserted(*self, key);
                    let lk = self.left_keys();
                    let rk = self.right_keys();
                    assert(!rk.contains(key));
                    assert(self.keys().contains(key) == lk.contains(key));
                }
                match self.left.take() {
                    Some(mut child) => {
                        let r = child.insert_below(key);
                        self.left = Some(child);
                        r
                    },
                    None => {
                        self.left = Some(Box::new(Node::new(key)));
                        true
                    },
                }
            },
            Ordering::Greater => {
                proof {
                    lemma_inserted(*self, key);
                    let lk = self.left_keys();
                    let rk = self.right_keys();
                    assert(!lk.contains(key));
                    assert(self.keys().contains(key) == rk.contains(key));
                }
                match self.right.take() {
                    Some(mut child) => {
                        let r = child.insert_below(key);
                        self.right = Some(child);
                        r
                    },
                    None => {
                        self.right = Some(Box::new(Node::new(key)));
                        true
                    },
                }
            },
        }
    }
}

/// The height of the subtree under `node`.
fn node_height<T>(node: &Node<T>) -> (h: usize)
    requires
        node.height() <= usize::MAX,
    ensures
        h == node.height(),
    decreases node,
{
    let mut left_height: usize = 0;
    let mut right_height: usize = 0;
    if let Some(left) = &node.left {
        left_height = node_height(left);
    }
    if let Some(right) = &node.right {
        right_height = node_height(right);
    }
    if left_height >= right_height {
        left_height + 1
    } else {
        right_height + 1
    }
}

impl<T> BinarySearchTree<T> {
    /// The keys in the tree.
    pub open spec fn keys(self) -> Set<T> {
        match self.root {
            Some(n) => n.keys(),
            None => Set::empty(),
        }
    }

    /// The keys in the order of an in-order walk.
    pub open spec fn inorder(self) -> Seq<T> {
        match self.root {
            Some(n) => n.inorder(),
            None => Seq::empty(),
        }
    }

    /// The number of nodes.
    pub open spec fn len(self) -> nat {
        match self.root {
            Some(n) => n.size(),
            None => 0,
        }
    }

    /// The height of the root, or 0 for an empty tree.
    pub open spec fn height(self) -> nat {
        match self.root {
            Some(n) => n.height(),
            None => 0,
        }
    }

    /// An empty tree.
    pub fn new() -> (t: Self)
        ensures
            t.root is None,
    {
        BinarySearchTree { root: None }
    }

    /// The height of the tree: 0 when empty, else the height of the root.
    pub fn depth(&self) -> (d: usize)
        requires
            self.height() <= usize::MAX,
        ensures
            d == self.height(),
    {
        match &self.root {
            None => 0,
            Some(root) => node_height(root),
        }
    }
}

impl<T: Ord> BinarySearchTree<T> {
    /// The tree obeys the search-tree order.
    pub open spec fn wf(self) -> bool {
        match self.root {
            Some(n) => n.ordered(),
            None => true,
        }
    }

    /// The tree after inserting `key`: the first key becomes the root, later ones
    /// are placed as `Node::inserted` describes.
    pub open spec fn inserted(self, key: T) -> BinarySearchTree<T> {
        match self.root {
            Some(n) => BinarySearchTree { root: Some(n.inserted(key)) },
            None => BinarySearchTree { root: Some(Node::leaf(key)) },
        }
    }

    /// Inserts `key` unless an equal key is present; returns whether a node was added.
    pub fn insert(&mut self, key: T) -> (r: bool)
        requires
            total_order::<T>(),
            old(self).wf(),
        ensures
            *final(self) == old(self).inserted(key),
            r == !old(self).keys().contains(key),
            final(self).wf(),
            final(self).keys() == old(self).keys().insert(key),
            final(self).len() == if r { old(self).len() + 1 } else { old(self).len() },
    {
        proof {
            lemma_tree_inserted(*self, key);
        }
        match self.root.take() {
            Some(mut root) => {
                let r = root.insert_below(key);
                self.root = Some(root);
                r
            },
            None => {
                self.root = Some(Node::new(key));
                true
            },
        }
    }
}

impl<T> Default for BinarySearchTree<T> {
    fn default() -> (t: Self)
        ensures
            t.root is None,
    {
        BinarySearchTree { root: None }
    }
}

/// Inserting into a well-formed tree keeps it well-formed, adds exactly `key` to
/// its keys, and adds one node exactly when `key` was absent.
pub proof fn lemma_tree_inserted<T: Ord>(tree: BinarySearchTree<T>, key: T)
    requires
        total_order::<T>(),
        tree.wf(),
    ensures
        tree.inserted(key).wf(),
        tree.inserted(key).keys() == tree.keys().insert(key),
        tree.inserted(key).len() == if tree.keys().contains(key) {
            tree.len()
        } else {
            tree.len() + 1
        },
{
    match tree.root {
        Some(n) => lemma_inserted(n, key),
        None => {
            assert(Node::leaf(key).keys() =~= Set::empty().insert(key));
        },
    }
}

/// Each key of `s` sorts strictly before every later one.
pub open spec fn strictly_increasing<T: Ord>(s: Seq<T>) -> bool {
    forall|i: int, j: int| 0 <= i < j < s.len() ==> #[trigger] lt(s[i], s[j])
}

/// The in-order walk of an ordered subtree is strictly increasing and visits only
/// the subtree's keys.
pub proof fn lemma_inorder<T: Ord>(node: Node<T>)
    requires
        total_order::<T>(),
        node.ordered(),
    ensures
        strictly_increasing(node.inorder()),
        forall|i: int| 0 <= i < node.inorder().len() ==> node.keys().contains(#[trigger] node.inorder()[i]),
    decreases node,
{
    lemma_total_order::<T>();
    let l = match node.left {
        Some(n) => n.inorder(),
        None => Seq::empty(),
    };
    let r = match node.right {
        Some(n) => n.inorder(),
        None => Seq::empty(),
    };
    match node.left {
        Some(n) => lemma_inorder(*n),
        None => {},
    }
    match node.right {
        Some(n) => lemma_inorder(*n),
        None => {},
    }
    let s = node.inorder();
    assert(s == l.push(node.key) + r);
    assert(forall|i: int| 0 <= i < l.len() ==> node.left_keys().contains(#[trigger] l[i]));
    assert(forall|i: int| 0 <= i < r.len() ==> node.right_keys().contains(#[trigger] r[i]));
    assert forall|i: int, j: int| 0 <= i < j < s.len() implies #[trigger] lt(s[i], s[j]) by {
        let n = l.len() as int;
        if j < n {
            assert(lt(l[i], l[j]));
        } else if i > n {
            assert(lt(r[i - n - 1], r[j - n - 1]));
        } else if i == n {
            assert(node.right_keys().contains(r[j - n - 1]));
        } else if j == n {
            assert(node.left_keys().contains(l[i]));
        } else {
            assert(node.left_keys().contains(l[i]));
            assert(node.right_keys().contains(r[j - n - 1]));
            assert(lt(l[i], node.key));
            assert(lt(node.key, r[j - n - 1]));
        }
    }
    assert forall|i: int| 0 <= i < s.len() implies node.keys().contains(#[trigger] s[i]) by {
        let n = l.len() as int;
        if i < n {
            assert(node.left_keys().contains(l[i]));
        } else if i > n {
            assert(node.right_keys().contains(r[i - n - 1]));
        }
    }
}

impl<T: Ord> BinarySearchTree<T> {
    /// The tree that a sequence of insertions into an empty tree builds.
    pub open spec fn from_keys(keys: Seq<T>) -> BinarySearchTree<T>
        decreases keys.len(),
    {
        if keys.len() == 0 {
            BinarySearchTree { root: None }
        } else {
            Self::from_keys(keys.drop_last()).inserted(keys.last())
        }
    }
}

/// Whatever keys are inserted, and in whatever order, the tree holds exactly those
/// keys and its in-order walk is strictly increasing.
pub proof fn lemma_inserted_keys_in_order<T: Ord>(keys: Seq<T>)
    requires
        total_order::<T>(),
    ensures
        BinarySearchTree::from_keys(keys).wf(),
        BinarySearchTree::from_keys(keys).keys() == keys.to_set(),
        strictly_increasing(BinarySearchTree::from_keys(keys).inorder()),
    decreases keys.len(),
{
    let t = BinarySearchTree::from_keys(keys);
    if keys.len() == 0 {
        assert(keys.to_set() =~= Set::empty());
    } else {
        let prev = keys.drop_last();
        lemma_inserted_keys_in_order(prev);
        lemma_tree_inserted(BinarySearchTree::from_keys(prev), keys.last());
        assert(keys == prev.push(keys.last()));
        prev.lemma_push_to_set_commute(keys.last());
    }
    match t.root {
        Some(n) => lemma_inorder(n),
        None => {},
    }
}

/// Inserting an absent key twice: the first insertion adds it, so the second finds
/// it and changes nothing, and the tree has grown by exactly one node.
pub proof fn lemma_insert_twice<T: Ord>(tree: BinarySearchTree<T>, key: T)
    requires
        total_order::<T>(),
        tree.wf(),
        !tree.keys().contains(key),
    ensures
        tree.inserted(key).keys().contains(key),
        tree.inserted(key).inserted(key) == tree.inserted(key),
        tree.inserted(key).inserted(key).len() == tree.len() + 1,
{
    lemma_total_order::<T>();
    lemma_tree_inserted(tree, key);
    lemma_tree_inserted(tree.inserted(key), key);
    let once = tree.inserted(key);
    match once.root {
        Some(n) => lemma_inserted_unchanged(n, key),
        None => {},
    }
}

/// Inserting a key that is already present leaves the subtree as it was.
pub proof fn lemma_inserted_unchanged<T: Ord>(node: Node<T>, key: T)
    requires
        total_order::<T>(),
        node.ordered(),
        node.keys().contains(key),
    ensures
        node.inserted(key) == node,
    decreases node,
{
    lemma_total_order::<T>();
    if key != node.key {
        if lt(key, node.key) {
            assert(!node.right_keys().contains(key));
            match node.left {
                Some(n) => lemma_inserted_unchanged(*n, key),
                None => {},
            }
        } else {
            assert(!node.left_keys().contains(key));
            match node.right {
                Some(n) => lemma_inserted_unchanged(*n, key),
                None => {},
            }
        }
    }
}

/// A subtree is never higher than it has nodes.
pub proof fn lemma_height_le_size<T>(node: Node<T>)
    ensures
        node.height() <= node.size(),
    decreases node,
{
    match node.left {
        Some(n) => lemma_height_le_size(*n),
        None => {},
    }
    match node.right {
        Some(n) => lemma_height_le_size(*n),
        None => {},
    }
}

/// A tree is never higher than it has nodes.
pub proof fn lemma_tree_height_le_len<T>(tree: BinarySearchTree<T>)
    ensures
        tree.height() <= tree.len(),
{
    match tree.root {
        Some(n) => lemma_height_le_size(n),
        None => {},
    }
}

} // verus!
