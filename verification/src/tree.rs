//! The tree representation and its mathematical model.
//!
//! A tree is either empty or a single owned node; a node owns its two child
//! subtrees.  The model interprets a subtree as a `Map<u64, V>`; the
//! well-formedness predicate adds binary-search order of the keys, exact
//! stored heights, and the AVL balance bound at every node.

use vstd::prelude::*;

verus! {

pub(crate) struct Node<V> {
    pub(crate) key: u64,
    pub(crate) val: V,
    pub(crate) height: usize,
    pub(crate) left: Option<Box<Node<V>>>,
    pub(crate) right: Option<Box<Node<V>>>,
}

/// A map based on a binary tree that self-balances using the AVL algorithm.
pub struct AvlTree<V> {
    pub(crate) root: Option<Box<Node<V>>>,
}

/// The larger of two natural numbers.
pub(crate) open spec fn nat_max(a: nat, b: nat) -> nat {
    if a >= b {
        a
    } else {
        b
    }
}

/// The map of key/value pairs held in a subtree.
pub(crate) open spec fn sub_map<V>(o: Option<Box<Node<V>>>) -> Map<u64, V>
    decreases o,
{
    match o {
        None => Map::empty(),
        Some(n) => sub_map(n.left).union_prefer_right(sub_map(n.right)).insert(n.key, n.val),
    }
}

/// The structural height of a subtree: 0 when empty, otherwise one more than
/// the taller child.
pub(crate) open spec fn sub_height<V>(o: Option<Box<Node<V>>>) -> nat
    decreases o,
{
    match o {
        None => 0,
        Some(n) => 1 + nat_max(sub_height(n.left), sub_height(n.right)),
    }
}

/// The number of nodes in a subtree.
pub(crate) open spec fn sub_count<V>(o: Option<Box<Node<V>>>) -> nat
    decreases o,
{
    match o {
        None => 0,
        Some(n) => 1 + sub_count(n.left) + sub_count(n.right),
    }
}

/// The key/value pairs of a subtree in ascending key order (in-order
/// traversal).
pub(crate) open spec fn sub_entries<V>(o: Option<Box<Node<V>>>) -> Seq<(u64, V)>
    decreases o,
{
    match o {
        None => Seq::empty(),
        Some(n) => sub_entries(n.left) + seq![(n.key, n.val)] + sub_entries(n.right),
    }
}

/// Binary-search order at a single node: every key on the left is strictly
/// below the node's key, every key on the right strictly above.
pub(crate) open spec fn keys_ordered_at<V>(n: Node<V>) -> bool {
    &&& forall|k: u64| sub_map(n.left).dom().contains(k) ==> k < n.key
    &&& forall|k: u64| sub_map(n.right).dom().contains(k) ==> k > n.key
}

/// Well-formedness of a subtree: binary-search order, stored heights equal to
/// the structural heights, and the AVL balance bound, at every node.
pub(crate) open spec fn sub_wf<V>(o: Option<Box<Node<V>>>) -> bool
    decreases o,
{
    match o {
        None => true,
        Some(n) => {
            &&& keys_ordered_at(*n)
            &&& n.height == 1 + nat_max(sub_height(n.left), sub_height(n.right))
            &&& sub_height(n.left) <= sub_height(n.right) + 1
            &&& sub_height(n.right) <= sub_height(n.left) + 1
            &&& sub_wf(n.left)
            &&& sub_wf(n.right)
        },
    }
}

impl<V> AvlTree<V> {
    /// The map this tree represents.
    pub open(crate) spec fn as_map(self) -> Map<u64, V> {
        sub_map(self.root)
    }

    /// The key/value pairs in ascending key order.
    pub open(crate) spec fn as_seq(self) -> Seq<(u64, V)> {
        sub_entries(self.root)
    }

    /// The height of the tree: 0 when empty, otherwise one more than the
    /// taller child of the root.
    pub open(crate) spec fn spec_height(self) -> nat {
        sub_height(self.root)
    }

    /// The structural invariant: binary-search order of the keys, correct
    /// height bookkeeping, and the AVL balance bound at every node.  Every
    /// operation of the library preserves it.
    pub open(crate) spec fn well_formed(self) -> bool {
        sub_wf(self.root)
    }
}

/// A subtree is at least as populous as it is tall: the height never exceeds
/// the node count.
pub(crate) proof fn lemma_height_le_count<V>(o: Option<Box<Node<V>>>)
    ensures
        sub_height(o) <= sub_count(o),
    decreases o,
{
    match o {
        None => {},
        Some(n) => {
            lemma_height_le_count(n.left);
            lemma_height_le_count(n.right);
        },
    }
}

/// In a well-formed subtree the keys are unique, so the domain of the map it
/// holds is finite and exactly as large as the node count.
pub(crate) proof fn lemma_count_is_dom_len<V>(o: Option<Box<Node<V>>>)
    requires
        sub_wf(o),
    ensures
        sub_map(o).dom().finite(),
        sub_map(o).dom().len() == sub_count(o),
    decreases o,
{
    broadcast use vstd::set_lib::lemma_set_disjoint_lens;

    match o {
        None => {
            assert(sub_map(o).dom() =~= Set::<u64>::empty());
        },
        Some(n) => {
            lemma_count_is_dom_len(n.left);
            lemma_count_is_dom_len(n.right);
            let dl = sub_map(n.left).dom();
            let dr = sub_map(n.right).dom();
            assert(sub_map(o).dom() =~= dl.union(dr).insert(n.key));
            assert(dl.disjoint(dr));
            assert(!dl.union(dr).contains(n.key));
        },
    }
}

impl<V> View for AvlTree<V> {
    type V = Map<u64, V>;

    open spec fn view(&self) -> Map<u64, V> {
        self.as_map()
    }
}

impl<V> AvlTree<V> {
    /// Creates a new empty tree.
    pub fn new() -> (tree: Self)
        ensures
            tree.well_formed(),
            tree@ == Map::<u64, V>::empty(),
            tree.spec_height() == 0,
    {
        AvlTree { root: None }
    }

    /// Returns the height of the tree: the number of nodes on the longest
    /// path from the root to any leaf.  An empty tree has height 0.
    pub fn height(&self) -> (h: usize)
        requires
            self.well_formed(),
        ensures
            h == self.spec_height(),
    {
        match &self.root {
            None => 0,
            Some(node) => node.height,
        }
    }

    /// Checks whether the tree holds no entries.
    pub fn is_empty(&self) -> (r: bool)
        ensures
            r <==> self@ == Map::<u64, V>::empty(),
            r <==> self.spec_height() == 0,
    {
        proof {
            if self.root is Some {
                let n = self.root.unwrap();
                assert(self@.dom().contains(n.key));
                assert(self@ != Map::<u64, V>::empty());
            } else {
                assert(self@ =~= Map::<u64, V>::empty());
            }
        }
        self.root.is_none()
    }
}

} // verus!
