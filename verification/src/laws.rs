//! The laws of the tree, stated over its public model and proved once and
//! for all: binary-search order makes the in-order sequence strictly
//! ascending and complete, and the AVL balance bound keeps the tree
//! logarithmically shallow in its entry count.

use vstd::prelude::*;

use crate::tree::{
    AvlTree, Node, lemma_count_is_dom_len, sub_count, sub_entries, sub_height, sub_map, sub_wf,
};

verus! {

proof fn lemma_entries_props<V>(o: Option<Box<Node<V>>>)
    requires
        sub_wf(o),
    ensures
        sub_entries(o).len() == sub_count(o),
        forall|i: int, j: int|
            0 <= i < j < sub_entries(o).len() ==> #[trigger] sub_entries(o)[i].0
                < #[trigger] sub_entries(o)[j].0,
        forall|i: int|
            0 <= i < sub_entries(o).len() ==> sub_map(o).contains_pair(
                #[trigger] sub_entries(o)[i].0,
                sub_entries(o)[i].1,
            ),
        forall|k: u64|
            sub_map(o).dom().contains(k) ==> exists|i: int|
                0 <= i < sub_entries(o).len() && (#[trigger] sub_entries(o)[i]).0 == k,
    decreases o,
{
    match o {
        None => {},
        Some(n) => {
            lemma_entries_props(n.left);
            lemma_entries_props(n.right);
            let e = sub_entries(o);
            let el = sub_entries(n.left);
            let er = sub_entries(n.right);
            let ll = el.len() as int;
            assert(e == el + seq![(n.key, n.val)] + er);
            assert(e.len() == el.len() + 1 + er.len());
            assert forall|i: int| 0 <= i < e.len() implies #[trigger] e[i] == (if i < ll {
                el[i]
            } else if i == ll {
                (n.key, n.val)
            } else {
                er[i - ll - 1]
            }) by {}
            // every entry is a pair of the map, with its key on the expected
            // side of the root key
            assert forall|i: int| 0 <= i < e.len() implies sub_map(o).contains_pair(
                #[trigger] e[i].0,
                e[i].1,
            ) by {
                if i < ll {
                    assert(sub_map(n.left).contains_pair(e[i].0, e[i].1));
                    assert(e[i].0 < n.key);
                    assert(!sub_map(n.right).dom().contains(e[i].0));
                } else if i > ll {
                    assert(sub_map(n.right).contains_pair(e[i].0, e[i].1));
                    assert(e[i].0 > n.key);
                }
            }
            // strictly ascending: left entries sit below the root key, right
            // entries above it
            assert forall|i: int, j: int| 0 <= i < j < e.len() implies #[trigger] e[i].0
                < #[trigger] e[j].0 by {
                if i < ll {
                    assert(sub_map(n.left).contains_pair(e[i].0, e[i].1));
                }
                if j < ll {
                    assert(sub_map(n.left).contains_pair(e[j].0, e[j].1));
                }
                if i > ll {
                    assert(sub_map(n.right).contains_pair(e[i].0, e[i].1));
                }
                if j > ll {
                    assert(sub_map(n.right).contains_pair(e[j].0, e[j].1));
                }
            }
            // every key of the map appears in the sequence
            assert forall|k: u64| sub_map(o).dom().contains(k) implies exists|i: int|
                0 <= i < e.len() && (#[trigger] e[i]).0 == k by {
                if k == n.key {
                    assert(e[ll].0 == k);
                } else if sub_map(n.left).dom().contains(k) {
                    let i = choose|i: int|
                        0 <= i < el.len() && (#[trigger] el[i]).0 == k;
                    assert(e[i].0 == k);
                } else {
                    assert(sub_map(n.right).dom().contains(k));
                    let i = choose|i: int|
                        0 <= i < er.len() && (#[trigger] er[i]).0 == k;
                    assert(e[ll + 1 + i].0 == k);
                }
            }
        },
    }
}

impl<V> AvlTree<V> {
    /// Binary-search order, observably: on a well-formed tree the in-order
    /// sequence (the one `iter` yields) is strictly ascending in its keys, it
    /// holds exactly the pairs of the map, and it is exactly as long as the
    /// map is large.
    pub proof fn lemma_sorted_iteration(self)
        requires
            self.well_formed(),
        ensures
            self.as_seq().len() == self@.dom().len(),
            forall|i: int, j: int|
                0 <= i < j < self.as_seq().len() ==> #[trigger] self.as_seq()[i].0
                    < #[trigger] self.as_seq()[j].0,
            forall|i: int|
                0 <= i < self.as_seq().len() ==> self@.contains_pair(
                    #[trigger] self.as_seq()[i].0,
                    self.as_seq()[i].1,
                ),
            forall|k: u64|
                self@.dom().contains(k) ==> exists|i: int|
                    0 <= i < self.as_seq().len() && (#[trigger] self.as_seq()[i]).0 == k,
    {
        lemma_entries_props(self.root);
        lemma_count_is_dom_len(self.root);
    }
}

/// The Fibonacci numbers, the yardstick for the AVL height bound.
pub open spec fn fib(n: nat) -> nat
    decreases n,
{
    if n <= 1 {
        n
    } else {
        fib((n - 2) as nat) + fib((n - 1) as nat)
    }
}

/// The Fibonacci numbers never decrease.
proof fn lemma_fib_mono(a: nat, b: nat)
    requires
        a <= b,
    ensures
        fib(a) <= fib(b),
    decreases b,
{
    if a < b {
        lemma_fib_mono(a, (b - 1) as nat);
    }
}

/// The AVL balance bound forces a tall subtree to be populous: a well-formed
/// subtree of height `h` holds at least `fib(h + 2) - 1` nodes, the classical
/// minimal size of an AVL tree.
proof fn lemma_populous<V>(o: Option<Box<Node<V>>>)
    requires
        sub_wf(o),
    ensures
        sub_count(o) + 1 >= fib(sub_height(o) + 2),
    decreases o,
{
    match o {
        None => {
            assert(fib(0) == 0 && fib(1) == 1 && fib(2) == 1);
        },
        Some(n) => {
            lemma_populous(n.left);
            lemma_populous(n.right);
            let h = sub_height(o);
            if sub_height(n.left) >= sub_height(n.right) {
                assert(sub_height(n.left) + 1 == h);
                assert(sub_height(n.right) + 2 >= h);
                lemma_fib_mono(h as nat, (sub_height(n.right) + 2) as nat);
            } else {
                assert(sub_height(n.right) + 1 == h);
                assert(sub_height(n.left) + 2 >= h);
                lemma_fib_mono(h as nat, (sub_height(n.left) + 2) as nat);
            }
        },
    }
}

impl<V> AvlTree<V> {
    /// The height bound: a well-formed tree with `n` entries has height at
    /// most `log_phi(n + 2)`, stated in integers through the Fibonacci
    /// numbers: `fib(height + 2) <= n + 1`.  Since `fib(h + 2)` grows as
    /// `phi^(h + 2) / sqrt(5)` with `phi` the golden ratio, this is the
    /// classical bound `height <= 1.44 * log2(n + 2)`.
    pub proof fn lemma_height_bound(self)
        requires
            self.well_formed(),
        ensures
            fib(self.spec_height() + 2) <= self@.dom().len() + 1,
    {
        lemma_populous(self.root);
        lemma_count_is_dom_len(self.root);
    }
}

/// Inserting and then reading the same key gives back the inserted value:
/// over the map model, `insert(k, v)` makes `k` present with value `v`, so
/// `get(k)` after `insert(k, v)` returns `v`.
pub proof fn lemma_insert_then_get<V>(m: Map<u64, V>, k: u64, v: V)
    ensures
        m.insert(k, v).dom().contains(k),
        m.insert(k, v)[k] == v,
{
}

} // verus!
