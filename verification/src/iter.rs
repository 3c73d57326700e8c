//! Ordered iteration: the key/value pairs in ascending key order.
//!
//! The whole in-order sequence is materialized up front into a vector of
//! borrowed entries; the iterator then hands the pairs out one at a time.  A
//! fresh call to [`AvlTree::iter`] over the same tree always reproduces the
//! same sequence.

use vstd::prelude::*;

use crate::tree::{AvlTree, Node, sub_entries};

verus! {

/// The values the borrowed entries point at, in order.
pub(crate) open spec fn entry_views<V>(s: Seq<(u64, &V)>) -> Seq<(u64, V)> {
    s.map_values(|p: (u64, &V)| (p.0, *p.1))
}

/// A struct used to iterate over the key/value pairs of an [`AvlTree`] in
/// ascending key order.
pub struct Iter<'a, V> {
    pub(crate) entries: Vec<(u64, &'a V)>,
    pub(crate) pos: usize,
}

impl<'a, V> Iter<'a, V> {
    /// The position never runs past the materialized sequence.
    pub open(crate) spec fn valid(self) -> bool {
        self.pos <= self.entries@.len()
    }

    /// The pairs this iterator has yet to yield, in ascending key order.
    pub open(crate) spec fn remaining(self) -> Seq<(u64, V)> {
        entry_views(self.entries@.skip(self.pos as int))
    }

    /// Yields the next pair in ascending key order, or nothing once the
    /// sequence is exhausted.
    pub fn next(&mut self) -> (r: Option<(u64, &'a V)>)
        requires
            old(self).valid(),
        ensures
            final(self).valid(),
            old(self).remaining().len() == 0 ==> r is None && *final(self) == *old(self),
            old(self).remaining().len() > 0 ==> {
                &&& r is Some
                &&& (r.unwrap().0, *r.unwrap().1) == old(self).remaining()[0]
                &&& final(self).remaining() == old(self).remaining().drop_first()
            },
    {
        if self.pos < self.entries.len() {
            let entry = self.entries[self.pos];
            self.pos = self.pos + 1;
            proof {
                assert(old(self).remaining().len() > 0);
                assert(final(self).remaining() =~= old(self).remaining().drop_first());
            }
            Some(entry)
        } else {
            proof {
                assert(old(self).remaining().len() == 0);
            }
            None
        }
    }
}

/// Appends the in-order entries of a subtree, as borrowed pairs, to `out`.
fn push_entries<'a, V>(node: &'a Option<Box<Node<V>>>, out: &mut Vec<(u64, &'a V)>)
    ensures
        entry_views(final(out)@) == entry_views(old(out)@) + sub_entries(*node),
    decreases *node,
{
    match node {
        None => {
            proof {
                assert(entry_views(out@) =~= entry_views(out@) + sub_entries(*node));
            }
        },
        Some(n) => {
            push_entries(&n.left, out);
            let ghost mid1 = out@;
            out.push((n.key, &n.val));
            proof {
                assert(entry_views(out@) =~= entry_views(mid1) + seq![(n.key, n.val)]);
            }
            push_entries(&n.right, out);
            proof {
                assert(entry_views(out@) =~= entry_views(old(out)@) + sub_entries(*node));
            }
        },
    }
}

impl<'a, V> Iter<'a, V> {
    fn new(tree: &'a AvlTree<V>) -> (it: Self)
        ensures
            it.valid(),
            it.remaining() == tree.as_seq(),
    {
        let mut entries: Vec<(u64, &'a V)> = Vec::new();
        push_entries(&tree.root, &mut entries);
        let it = Iter { entries, pos: 0 };
        proof {
            assert(it.entries@.skip(0) =~= it.entries@);
            assert(entry_views(it.entries@) =~= Seq::<(u64, V)>::empty() + sub_entries(tree.root));
            assert(it.remaining() =~= tree.as_seq());
        }
        it
    }
}

impl<V> AvlTree<V> {
    /// Gives an iterator over the key/value pairs of the tree, in ascending
    /// key order.
    pub fn iter(&self) -> (it: Iter<V>)
        ensures
            it.valid(),
            it.remaining() == self.as_seq(),
    {
        Iter::new(self)
    }
}

} // verus!
