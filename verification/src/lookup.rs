//! Read-only point lookups: `get` and `contains_key`.
//!
//! Both descend the tree by key comparison and never mutate it (they take the
//! tree by shared reference, so mutation is ruled out by the type system).

use vstd::prelude::*;

use crate::tree::{AvlTree, Node, sub_map, sub_wf};

verus! {

fn get_node<'a, V>(node: &'a Option<Box<Node<V>>>, key: u64) -> (r: Option<&'a V>)
    requires
        sub_wf(*node),
    ensures
        r == (if sub_map(*node).dom().contains(key) {
            Some(&sub_map(*node)[key])
        } else {
            None::<&'a V>
        }),
    decreases *node,
{
    match node {
        None => None,
        Some(n) => {
            if key == n.key {
                Some(&n.val)
            } else if key < n.key {
                proof {
                    assert(!sub_map(n.right).dom().contains(key));
                }
                get_node(&n.left, key)
            } else {
                proof {
                    assert(!sub_map(n.left).dom().contains(key));
                }
                get_node(&n.right, key)
            }
        },
    }
}

impl<V> AvlTree<V> {
    /// Returns a reference to the value stored under `key`, or nothing when
    /// the key is absent.
    pub fn get(&self, key: &u64) -> (r: Option<&V>)
        requires
            self.well_formed(),
        ensures
            r == (if self@.dom().contains(*key) {
                Some(&self@[*key])
            } else {
                None::<&V>
            }),
    {
        get_node(&self.root, *key)
    }

    /// Checks whether `key` is present.
    pub fn contains_key(&self, key: &u64) -> (r: bool)
        requires
            self.well_formed(),
        ensures
            r == self@.dom().contains(*key),
    {
        self.get(key).is_some()
    }
}

} // verus!
