//! Point delete, including the two-child case that splices in the in-order
//! successor.
//!
//! The delete descends by key comparison; a node with at most one child is
//! replaced by that child, and a node with two children is re-keyed with the
//! minimum of its right subtree (its in-order successor), which `take_min`
//! detaches.  The balancing engine runs on every visited ancestor while the
//! recursion unwinds, in `take_min` as well as in `remove`, so the AVL
//! invariant is restored before the operation returns.

use vstd::prelude::*;

use crate::balance::rebalance;
use crate::tree::{AvlTree, Node, lemma_count_is_dom_len, sub_count, sub_height, sub_map, sub_wf};

verus! {

/// Detaches the node with the least key from a non-empty subtree and returns
/// its key/value pair; the subtree keeps every other entry, stays well
/// formed, and shrinks in height by at most one.
fn take_min<V>(node: &mut Option<Box<Node<V>>>) -> (kv: (u64, V))
    requires
        old(node).is_some(),
        sub_wf(*old(node)),
    ensures
        sub_wf(*final(node)),
        sub_map(*old(node)).dom().contains(kv.0),
        sub_map(*old(node))[kv.0] == kv.1,
        forall|k: u64| sub_map(*old(node)).dom().contains(k) ==> kv.0 <= k,
        sub_map(*final(node)) == sub_map(*old(node)).remove(kv.0),
        sub_count(*final(node)) + 1 == sub_count(*old(node)),
        sub_height(*final(node)) <= sub_height(*old(node)),
        sub_height(*old(node)) <= sub_height(*final(node)) + 1,
    decreases *old(node),
{
    let mut n = node.take().unwrap();
    if n.left.is_none() {
        *node = n.right;
        proof {
            assert(sub_map(n.left) =~= Map::<u64, V>::empty());
            assert(!sub_map(n.right).dom().contains(n.key));
            assert(sub_map(*node) =~= sub_map(*old(node)).remove(n.key));
        }
        (n.key, n.val)
    } else {
        let kv = take_min(&mut n.left);
        let ghost mid = n;
        *node = Some(n);
        proof {
            let n0 = old(node).unwrap();
            assert(sub_map(n0.left).dom().contains(kv.0));
            assert(kv.0 < n0.key);
            assert(!sub_map(n0.right).dom().contains(kv.0));
            assert(sub_map(*node) =~= sub_map(*old(node)).remove(kv.0));
            assert(sub_map(*old(node))[kv.0] == kv.1);
        }
        rebalance(node);
        proof {
            let n0 = old(node).unwrap();
            assert(sub_map(*node) == sub_map(Some(mid)));
            assert(sub_count(Some(mid)) == 1 + sub_count(mid.left) + sub_count(mid.right));
            assert(sub_count(*old(node)) == 1 + sub_count(n0.left) + sub_count(n0.right));
            assert forall|k: u64| sub_map(*old(node)).dom().contains(k) implies kv.0 <= k by {
                if k != n0.key && !sub_map(n0.left).dom().contains(k) {
                    assert(sub_map(n0.right).dom().contains(k));
                }
            }
        }
        kv
    }
}

/// Removes the root node of a subtree, returning the replacement subtree and
/// the removed value: an empty or single-child subtree takes the root's
/// place directly, and a root with two children is re-keyed with its in-order
/// successor.
fn splice_out<V>(n: Box<Node<V>>) -> (res: (Option<Box<Node<V>>>, V))
    requires
        sub_wf(Some(n)),
    ensures
        sub_wf(res.0),
        res.1 == n.val,
        sub_map(res.0) == sub_map(Some(n)).remove(n.key),
        sub_count(res.0) + 1 == sub_count(Some(n)),
        sub_height(res.0) <= sub_height(Some(n)),
        sub_height(Some(n)) <= sub_height(res.0) + 1,
{
    let mut n = n;
    let ghost whole = Some(n);
    proof {
        assert(!sub_map(n.left).dom().contains(n.key));
        assert(!sub_map(n.right).dom().contains(n.key));
        assert(sub_count(whole) == 1 + sub_count(whole.unwrap().left) + sub_count(
            whole.unwrap().right,
        ));
    }
    if n.left.is_none() {
        proof {
            assert(sub_map(n.left) =~= Map::<u64, V>::empty());
            assert(sub_map(n.right) =~= sub_map(whole).remove(n.key));
        }
        (n.right, n.val)
    } else if n.right.is_none() {
        proof {
            assert(sub_map(n.right) =~= Map::<u64, V>::empty());
            assert(sub_map(n.left) =~= sub_map(whole).remove(n.key));
        }
        (n.left, n.val)
    } else {
        // two children: splice in the in-order successor, the least key of
        // the right subtree
        let ghost r0 = n.right;
        let (mk, mv) = take_min(&mut n.right);
        let mut v = mv;
        core::mem::swap(&mut n.val, &mut v);
        n.key = mk;
        let ghost mid = n;
        proof {
            let g = whole.unwrap();
            assert(mk > g.key);
            assert forall|k: u64| sub_map(mid.right).dom().contains(k) implies k > mk by {
                assert(sub_map(r0).dom().contains(k));
            }
            assert forall|k: u64| sub_map(mid.left).dom().contains(k) implies k < mk by {}
            assert(sub_map(Some(mid)) =~= sub_map(whole).remove(g.key));
        }
        let mut repl = Some(n);
        proof {
            assert(sub_count(Some(mid)) == 1 + sub_count(mid.left) + sub_count(mid.right));
        }
        rebalance(&mut repl);
        proof {
            assert(sub_map(repl) == sub_map(Some(mid)));
        }
        (repl, v)
    }
}

fn remove_node<V>(node: &mut Option<Box<Node<V>>>, key: u64) -> (removed: Option<V>)
    requires
        sub_wf(*old(node)),
    ensures
        sub_wf(*final(node)),
        sub_map(*final(node)) == sub_map(*old(node)).remove(key),
        removed == (if sub_map(*old(node)).dom().contains(key) {
            Some(sub_map(*old(node))[key])
        } else {
            None::<V>
        }),
        sub_count(*final(node)) + (if sub_map(*old(node)).dom().contains(key) {
            1int
        } else {
            0int
        }) == sub_count(*old(node)),
        sub_height(*final(node)) <= sub_height(*old(node)),
        sub_height(*old(node)) <= sub_height(*final(node)) + 1,
        !sub_map(*old(node)).dom().contains(key) ==> *final(node) == *old(node),
    decreases *old(node),
{
    match node.take() {
        None => {
            proof {
                assert(sub_map(*node) =~= sub_map(*old(node)).remove(key));
            }
            None
        },
        Some(mut n) => {
            if key < n.key {
                proof {
                    assert(!sub_map(n.right).dom().contains(key));
                }
                let removed = remove_node(&mut n.left, key);
                let ghost mid = n;
                *node = Some(n);
                proof {
                    assert(sub_map(*node) =~= sub_map(*old(node)).remove(key));
                }
                rebalance(node);
                proof {
                    assert(sub_map(*node) == sub_map(Some(mid)));
                    if !sub_map(*old(node)).dom().contains(key) {
                        assert(mid == old(node).unwrap());
                        assert(*node == *old(node));
                    }
                }
                removed
            } else if key > n.key {
                proof {
                    assert(!sub_map(n.left).dom().contains(key));
                }
                let removed = remove_node(&mut n.right, key);
                let ghost mid = n;
                *node = Some(n);
                proof {
                    assert(sub_map(*node) =~= sub_map(*old(node)).remove(key));
                }
                rebalance(node);
                proof {
                    assert(sub_map(*node) == sub_map(Some(mid)));
                    if !sub_map(*old(node)).dom().contains(key) {
                        assert(mid == old(node).unwrap());
                        assert(*node == *old(node));
                    }
                }
                removed
            } else {
                let (repl, v) = splice_out(n);
                *node = repl;
                Some(v)
            }
        },
    }
}

impl<V> AvlTree<V> {
    /// Removes `key` and returns the value that was stored under it, or
    /// nothing when the key was absent, in which case the tree is left
    /// entirely unchanged (height and shape included).
    pub fn remove(&mut self, key: &u64) -> (removed: Option<V>)
        requires
            old(self).well_formed(),
        ensures
            final(self).well_formed(),
            final(self)@ == old(self)@.remove(*key),
            removed == (if old(self)@.dom().contains(*key) {
                Some(old(self)@[*key])
            } else {
                None::<V>
            }),
            final(self)@.dom().len() + (if old(self)@.dom().contains(*key) {
                1int
            } else {
                0int
            }) == old(self)@.dom().len(),
            final(self).spec_height() <= old(self).spec_height(),
            old(self).spec_height() <= final(self).spec_height() + 1,
            !old(self)@.dom().contains(*key) ==> *final(self) == *old(self),
    {
        proof {
            lemma_count_is_dom_len(self.root);
        }
        let removed = remove_node(&mut self.root, *key);
        proof {
            lemma_count_is_dom_len(self.root);
        }
        removed
    }
}

} // verus!
