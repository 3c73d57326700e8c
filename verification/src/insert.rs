//! Point insert with update-on-duplicate-key semantics.
//!
//! The insert descends by key comparison, creates a node when it reaches an
//! empty subtree (or replaces the value when it finds the key), and calls the
//! balancing engine on every visited ancestor while the recursion unwinds, so
//! the AVL invariant is restored before the operation returns.

use vstd::prelude::*;

use crate::balance::rebalance;
use crate::tree::{
    AvlTree, Node, lemma_count_is_dom_len, lemma_height_le_count, sub_count, sub_height, sub_map,
    sub_wf,
};

verus! {

fn insert_node<V>(node: &mut Option<Box<Node<V>>>, key: u64, val: V) -> (prev: Option<V>)
    requires
        sub_wf(*old(node)),
        sub_count(*old(node)) < usize::MAX,
    ensures
        sub_wf(*final(node)),
        sub_map(*final(node)) == sub_map(*old(node)).insert(key, val),
        prev == (if sub_map(*old(node)).dom().contains(key) {
            Some(sub_map(*old(node))[key])
        } else {
            None::<V>
        }),
        sub_count(*final(node)) == sub_count(*old(node)) + (if sub_map(*old(node)).dom().contains(
            key,
        ) {
            0int
        } else {
            1int
        }),
        sub_height(*old(node)) <= sub_height(*final(node)),
        sub_height(*final(node)) <= sub_height(*old(node)) + 1,
    decreases *old(node),
{
    match node.take() {
        None => {
            *node = Some(
                Box::new(Node { key, val, height: 1, left: None, right: None }),
            );
            proof {
                assert(sub_map(*node) =~= sub_map(*old(node)).insert(key, val));
            }
            None
        },
        Some(mut n) => {
            let prev: Option<V>;
            proof {
                lemma_height_le_count(*old(node));
            }
            if key == n.key {
                let mut v = val;
                core::mem::swap(&mut n.val, &mut v);
                prev = Some(v);
                *node = Some(n);
                proof {
                    assert(sub_map(*node) =~= sub_map(*old(node)).insert(key, val));
                    assert(sub_map(*old(node)).dom().contains(key));
                    assert(sub_wf(*node));
                }
            } else if key < n.key {
                proof {
                    assert(sub_count(n.left) < usize::MAX);
                    assert(!sub_map(n.right).dom().contains(key));
                }
                prev = insert_node(&mut n.left, key, val);
                *node = Some(n);
                rebalance(node);
                proof {
                    assert(sub_map(*node) =~= sub_map(*old(node)).insert(key, val));
                }
            } else {
                proof {
                    assert(sub_count(n.right) < usize::MAX);
                    assert(!sub_map(n.left).dom().contains(key));
                }
                prev = insert_node(&mut n.right, key, val);
                *node = Some(n);
                rebalance(node);
                proof {
                    assert(sub_map(*node) =~= sub_map(*old(node)).insert(key, val));
                }
            }
            prev
        },
    }
}

impl<V> AvlTree<V> {
    /// Inserts a key/value pair.  Returns nothing when the key was not
    /// present; when it was, the stored value is replaced and the prior value
    /// is returned, so the set of keys is unchanged.
    ///
    /// The entry count must leave room for one more node, which any map held
    /// in memory satisfies.
    pub fn insert(&mut self, key: u64, value: V) -> (prev: Option<V>)
        requires
            old(self).well_formed(),
            old(self)@.dom().len() < usize::MAX,
        ensures
            final(self).well_formed(),
            final(self)@ == old(self)@.insert(key, value),
            prev == (if old(self)@.dom().contains(key) {
                Some(old(self)@[key])
            } else {
                None::<V>
            }),
            final(self)@.dom().len() == old(self)@.dom().len() + (if old(self)@.dom().contains(
                key,
            ) {
                0int
            } else {
                1int
            }),
            old(self).spec_height() <= final(self).spec_height(),
            final(self).spec_height() <= old(self).spec_height() + 1,
    {
        proof {
            lemma_count_is_dom_len(self.root);
        }
        let prev = insert_node(&mut self.root, key, value);
        proof {
            lemma_count_is_dom_len(self.root);
        }
        prev
    }
}

} // verus!
