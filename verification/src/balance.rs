//! The balancing engine: local height bookkeeping, the two single rotations,
//! and the rebalance procedure that restores the AVL invariant after a
//! one-level height change at a node.
//!
//! A rotation relinks a node and one child; the map held by the subtree is
//! unchanged, binary-search order is preserved, and the stored heights of the
//! two relinked nodes are recomputed from their (unchanged) children.

use vstd::prelude::*;

use crate::tree::{Node, keys_ordered_at, nat_max, sub_count, sub_height, sub_map, sub_wf};

verus! {

/// The stored height at the root of a subtree agrees with the heights of its
/// children (one more than the taller child).
pub(crate) open spec fn top_height_ok<V>(o: Option<Box<Node<V>>>) -> bool {
    match o {
        None => true,
        Some(n) => n.height == 1 + nat_max(sub_height(n.left), sub_height(n.right)),
    }
}

/// Reads the height of a subtree from the stored field of its root.
pub(crate) fn stored_height<V>(o: &Option<Box<Node<V>>>) -> (h: usize)
    requires
        top_height_ok(*o),
    ensures
        h == sub_height(*o),
{
    match o {
        None => 0,
        Some(n) => n.height,
    }
}

/// `r` is exactly the right rotation of the node `g`: g's left child `p` is
/// promoted to the root position, `g` becomes its right child, `p`'s former
/// right subtree becomes `g`'s left subtree, and the stored heights of the
/// two relinked nodes are recomputed from their (unchanged) children.
pub(crate) open spec fn rotated_right<V>(g: Node<V>, r: Option<Box<Node<V>>>) -> bool {
    let p = g.left.unwrap();
    &&& g.left.is_some()
    &&& r.is_some()
    &&& r.unwrap().key == p.key
    &&& r.unwrap().val == p.val
    &&& r.unwrap().left == p.left
    &&& r.unwrap().right.is_some()
    &&& ({
        let d = r.unwrap().right.unwrap();
        &&& d.key == g.key
        &&& d.val == g.val
        &&& d.left == p.right
        &&& d.right == g.right
        &&& d.height == 1 + nat_max(sub_height(p.right), sub_height(g.right))
    })
    &&& r.unwrap().height == 1 + nat_max(
        sub_height(p.left),
        1 + nat_max(sub_height(p.right), sub_height(g.right)),
    )
}

/// `r` is exactly the left rotation of the node `g`: the mirror image of
/// [`rotated_right`].
pub(crate) open spec fn rotated_left<V>(g: Node<V>, r: Option<Box<Node<V>>>) -> bool {
    let p = g.right.unwrap();
    &&& g.right.is_some()
    &&& r.is_some()
    &&& r.unwrap().key == p.key
    &&& r.unwrap().val == p.val
    &&& r.unwrap().right == p.right
    &&& r.unwrap().left.is_some()
    &&& ({
        let d = r.unwrap().left.unwrap();
        &&& d.key == g.key
        &&& d.val == g.val
        &&& d.right == p.left
        &&& d.left == g.left
        &&& d.height == 1 + nat_max(sub_height(g.left), sub_height(p.left))
    })
    &&& r.unwrap().height == 1 + nat_max(
        1 + nat_max(sub_height(g.left), sub_height(p.left)),
        sub_height(p.right),
    )
}

/// `r` is exactly the double rotation of the node `g` for the left-heavy
/// case: g's left child `p` rotated left (promoting p's right child `q`),
/// then the whole subtree rotated right, so `q` ends at the root with `p` and
/// `g` as its children.
pub(crate) open spec fn rotated_left_right<V>(g: Node<V>, r: Option<Box<Node<V>>>) -> bool {
    let p = g.left.unwrap();
    let q = p.right.unwrap();
    &&& g.left.is_some()
    &&& p.right.is_some()
    &&& r.is_some()
    &&& r.unwrap().key == q.key
    &&& r.unwrap().val == q.val
    &&& r.unwrap().left.is_some()
    &&& r.unwrap().right.is_some()
    &&& ({
        let d = r.unwrap().left.unwrap();
        &&& d.key == p.key
        &&& d.val == p.val
        &&& d.left == p.left
        &&& d.right == q.left
        &&& d.height == 1 + nat_max(sub_height(p.left), sub_height(q.left))
    })
    &&& ({
        let d = r.unwrap().right.unwrap();
        &&& d.key == g.key
        &&& d.val == g.val
        &&& d.left == q.right
        &&& d.right == g.right
        &&& d.height == 1 + nat_max(sub_height(q.right), sub_height(g.right))
    })
    &&& r.unwrap().height == 1 + nat_max(
        sub_height(r.unwrap().left),
        sub_height(r.unwrap().right),
    )
}

/// `r` is exactly the double rotation of the node `g` for the right-heavy
/// case: the mirror image of [`rotated_left_right`].
pub(crate) open spec fn rotated_right_left<V>(g: Node<V>, r: Option<Box<Node<V>>>) -> bool {
    let p = g.right.unwrap();
    let q = p.left.unwrap();
    &&& g.right.is_some()
    &&& p.left.is_some()
    &&& r.is_some()
    &&& r.unwrap().key == q.key
    &&& r.unwrap().val == q.val
    &&& r.unwrap().left.is_some()
    &&& r.unwrap().right.is_some()
    &&& ({
        let d = r.unwrap().right.unwrap();
        &&& d.key == p.key
        &&& d.val == p.val
        &&& d.right == p.right
        &&& d.left == q.right
        &&& d.height == 1 + nat_max(sub_height(q.right), sub_height(p.right))
    })
    &&& ({
        let d = r.unwrap().left.unwrap();
        &&& d.key == g.key
        &&& d.val == g.val
        &&& d.right == q.left
        &&& d.left == g.left
        &&& d.height == 1 + nat_max(sub_height(g.left), sub_height(q.left))
    })
    &&& r.unwrap().height == 1 + nat_max(
        sub_height(r.unwrap().left),
        sub_height(r.unwrap().right),
    )
}

/// A rotation regroups three subtree maps and two distinguished entries
/// without changing the whole: with all keys of `ma` below `pk`, all keys of
/// `mb` between `pk` and `gk`, and all keys of `mc` above `gk`, the two ways
/// of associating the five parts are the same map.
proof fn lemma_rotation_preserves_map<V>(
    pk: u64,
    pv: V,
    gk: u64,
    gv: V,
    ma: Map<u64, V>,
    mb: Map<u64, V>,
    mc: Map<u64, V>,
)
    requires
        pk < gk,
        forall|k: u64| ma.dom().contains(k) ==> k < pk,
        forall|k: u64| mb.dom().contains(k) ==> pk < k && k < gk,
        forall|k: u64| mc.dom().contains(k) ==> k > gk,
    ensures
        ma.union_prefer_right(mb).insert(pk, pv).union_prefer_right(mc).insert(gk, gv)
            == ma.union_prefer_right(
            mb.union_prefer_right(mc).insert(gk, gv),
        ).insert(pk, pv),
{
    let lhs = ma.union_prefer_right(mb).insert(pk, pv).union_prefer_right(mc).insert(gk, gv);
    let rhs = ma.union_prefer_right(mb.union_prefer_right(mc).insert(gk, gv)).insert(pk, pv);
    assert(lhs =~= rhs);
}

/// Rotates the subtree right: the left child is promoted to the root
/// position, the old root becomes its right child, and the promoted node's
/// former right subtree becomes the old root's left subtree.  The stored
/// heights of the two relinked nodes are recomputed from their children.
pub(crate) fn rotate_right<V>(node: &mut Option<Box<Node<V>>>)
    requires
        old(node).is_some(),
        old(node).unwrap().left.is_some(),
        keys_ordered_at(*old(node).unwrap()),
        keys_ordered_at(*old(node).unwrap().left.unwrap()),
        top_height_ok(old(node).unwrap().left.unwrap().left),
        top_height_ok(old(node).unwrap().left.unwrap().right),
        top_height_ok(old(node).unwrap().right),
        sub_height(old(node).unwrap().left.unwrap().left) < usize::MAX,
        1 + nat_max(
            sub_height(old(node).unwrap().left.unwrap().right),
            sub_height(old(node).unwrap().right),
        ) < usize::MAX,
    ensures
        final(node).is_some(),
        rotated_right(*old(node).unwrap(), *final(node)),
        keys_ordered_at(*final(node).unwrap()),
        keys_ordered_at(*final(node).unwrap().right.unwrap()),
        sub_map(*final(node)) == sub_map(*old(node)),
        sub_count(*final(node)) == sub_count(*old(node)),
{
    let mut g = node.take().unwrap();
    let mut p = g.left.take().unwrap();
    g.left = p.right.take();
    let hl = stored_height(&g.left);
    let hr = stored_height(&g.right);
    g.height = if hl >= hr {
        hl + 1
    } else {
        hr + 1
    };
    let gh = g.height;
    p.right = Some(g);
    let hll = stored_height(&p.left);
    p.height = if hll >= gh {
        hll + 1
    } else {
        gh + 1
    };
    *node = Some(p);
    proof {
        let g0 = old(node).unwrap();
        let p0 = g0.left.unwrap();
        assert(keys_ordered_at(*final(node).unwrap().right.unwrap())) by {
            let d = final(node).unwrap().right.unwrap();
            assert forall|k: u64| sub_map(d.left).dom().contains(k) implies k < d.key by {
                assert(sub_map(g0.left).dom().contains(k));
            }
        }
        assert(keys_ordered_at(*final(node).unwrap())) by {
            let r = final(node).unwrap();
            let d = r.right.unwrap();
            assert forall|k: u64| sub_map(r.right).dom().contains(k) implies k > r.key by {
                assert(sub_map(r.right) == sub_map(d.left).union_prefer_right(
                    sub_map(d.right),
                ).insert(d.key, d.val));
                if k == d.key {
                    assert(sub_map(g0.left).dom().contains(r.key));
                } else if sub_map(d.left).dom().contains(k) {
                    assert(sub_map(g0.left).dom().contains(k));
                } else {
                    assert(sub_map(d.right).dom().contains(k));
                    assert(k > d.key);
                    assert(sub_map(g0.left).dom().contains(r.key));
                }
            }
        }
        let r = final(node).unwrap();
        let d = r.right.unwrap();
        let ma = sub_map(p0.left);
        let mb = sub_map(p0.right);
        let mc = sub_map(g0.right);
        assert(sub_map(g0.left) == ma.union_prefer_right(mb).insert(p0.key, p0.val));
        assert(sub_map(*old(node)) == sub_map(g0.left).union_prefer_right(mc).insert(
            g0.key,
            g0.val,
        ));
        assert(sub_map(r.right) == mb.union_prefer_right(mc).insert(d.key, d.val));
        assert(sub_map(*node) == ma.union_prefer_right(sub_map(r.right)).insert(r.key, r.val));
        assert(sub_map(g0.left).dom().contains(p0.key));
        assert forall|k: u64| mb.dom().contains(k) implies p0.key < k && k < g0.key by {
            assert(sub_map(g0.left).dom().contains(k));
        }
        lemma_rotation_preserves_map(p0.key, p0.val, g0.key, g0.val, ma, mb, mc);
        assert(sub_count(g0.left) == 1 + sub_count(p0.left) + sub_count(p0.right));
        assert(sub_count(*old(node)) == 1 + sub_count(g0.left) + sub_count(g0.right));
        assert(sub_count(r.right) == 1 + sub_count(d.left) + sub_count(d.right));
        assert(sub_count(*node) == 1 + sub_count(r.left) + sub_count(r.right));
    }
}

/// Rotates the subtree left: the mirror image of [`rotate_right`].
pub(crate) fn rotate_left<V>(node: &mut Option<Box<Node<V>>>)
    requires
        old(node).is_some(),
        old(node).unwrap().right.is_some(),
        keys_ordered_at(*old(node).unwrap()),
        keys_ordered_at(*old(node).unwrap().right.unwrap()),
        top_height_ok(old(node).unwrap().right.unwrap().left),
        top_height_ok(old(node).unwrap().right.unwrap().right),
        top_height_ok(old(node).unwrap().left),
        sub_height(old(node).unwrap().right.unwrap().right) < usize::MAX,
        1 + nat_max(
            sub_height(old(node).unwrap().left),
            sub_height(old(node).unwrap().right.unwrap().left),
        ) < usize::MAX,
    ensures
        final(node).is_some(),
        rotated_left(*old(node).unwrap(), *final(node)),
        keys_ordered_at(*final(node).unwrap()),
        keys_ordered_at(*final(node).unwrap().left.unwrap()),
        sub_map(*final(node)) == sub_map(*old(node)),
        sub_count(*final(node)) == sub_count(*old(node)),
{
    let mut g = node.take().unwrap();
    let mut p = g.right.take().unwrap();
    g.right = p.left.take();
    let hl = stored_height(&g.left);
    let hr = stored_height(&g.right);
    g.height = if hl >= hr {
        hl + 1
    } else {
        hr + 1
    };
    let gh = g.height;
    p.left = Some(g);
    let hrr = stored_height(&p.right);
    p.height = if gh >= hrr {
        gh + 1
    } else {
        hrr + 1
    };
    *node = Some(p);
    proof {
        let g0 = old(node).unwrap();
        let p0 = g0.right.unwrap();
        assert(keys_ordered_at(*final(node).unwrap().left.unwrap())) by {
            let d = final(node).unwrap().left.unwrap();
            assert forall|k: u64| sub_map(d.right).dom().contains(k) implies k > d.key by {
                assert(sub_map(g0.right).dom().contains(k));
            }
        }
        assert(keys_ordered_at(*final(node).unwrap())) by {
            let r = final(node).unwrap();
            let d = r.left.unwrap();
            assert forall|k: u64| sub_map(r.left).dom().contains(k) implies k < r.key by {
                assert(sub_map(r.left) == sub_map(d.left).union_prefer_right(
                    sub_map(d.right),
                ).insert(d.key, d.val));
                if k == d.key {
                    assert(sub_map(g0.right).dom().contains(r.key));
                } else if sub_map(d.right).dom().contains(k) {
                    assert(sub_map(g0.right).dom().contains(k));
                } else {
                    assert(sub_map(d.left).dom().contains(k));
                    assert(k < d.key);
                    assert(sub_map(g0.right).dom().contains(r.key));
                }
            }
        }
        let r = final(node).unwrap();
        let d = r.left.unwrap();
        let ma = sub_map(g0.left);
        let mb = sub_map(p0.left);
        let mc = sub_map(p0.right);
        assert(sub_map(g0.right) == mb.union_prefer_right(mc).insert(p0.key, p0.val));
        assert(sub_map(*old(node)) == ma.union_prefer_right(sub_map(g0.right)).insert(
            g0.key,
            g0.val,
        ));
        assert(sub_map(r.left) == ma.union_prefer_right(mb).insert(d.key, d.val));
        assert(sub_map(*node) == sub_map(r.left).union_prefer_right(mc).insert(r.key, r.val));
        assert(sub_map(g0.right).dom().contains(p0.key));
        assert forall|k: u64| mb.dom().contains(k) implies g0.key < k && k < p0.key by {
            assert(sub_map(g0.right).dom().contains(k));
        }
        lemma_rotation_preserves_map(g0.key, g0.val, p0.key, p0.val, ma, mb, mc);
        assert(sub_count(g0.right) == 1 + sub_count(p0.left) + sub_count(p0.right));
        assert(sub_count(*old(node)) == 1 + sub_count(g0.left) + sub_count(g0.right));
        assert(sub_count(r.left) == 1 + sub_count(d.left) + sub_count(d.right));
        assert(sub_count(*node) == 1 + sub_count(r.left) + sub_count(r.right));
    }
}

/// Restores the AVL invariant at the root of a subtree after a structural
/// change one level below it, following the standard AVL policy: a single
/// rotation when the taller child does not lean the other way, a double
/// rotation otherwise, and in every case a recomputation of the root's own
/// stored height.
///
/// On entry the children must be well formed and the heights may differ by at
/// most two; on exit the subtree is well formed, holds the same map, and its
/// height is the ideal height (one more than the taller child on entry) or
/// one less.  The contract also pins the shape: within the balance bound the
/// node is returned as it was, with only its root's stored height recomputed;
/// at a difference of two the result is exactly the single rotation when the
/// taller child does not lean the other way (a zero-balance child takes the
/// single rotation: the tie-break must not be strict), and exactly the double
/// rotation otherwise.
pub(crate) fn rebalance<V>(node: &mut Option<Box<Node<V>>>)
    requires
        match *old(node) {
            None => true,
            Some(n) => {
                &&& keys_ordered_at(*n)
                &&& sub_wf(n.left)
                &&& sub_wf(n.right)
                &&& sub_height(n.left) <= sub_height(n.right) + 2
                &&& sub_height(n.right) <= sub_height(n.left) + 2
                &&& 1 + nat_max(sub_height(n.left), sub_height(n.right)) <= usize::MAX
            },
        },
    ensures
        sub_wf(*final(node)),
        sub_map(*final(node)) == sub_map(*old(node)),
        sub_count(*final(node)) == sub_count(*old(node)),
        final(node).is_some() == old(node).is_some(),
        old(node).is_some() ==> ({
            let n = old(node).unwrap();
            let full = 1 + nat_max(sub_height(n.left), sub_height(n.right));
            &&& sub_height(*final(node)) <= full
            &&& full <= sub_height(*final(node)) + 1
            &&& ((sub_height(n.left) <= sub_height(n.right) + 1 && sub_height(n.right)
                <= sub_height(n.left) + 1) ==> sub_height(*final(node)) == full)
        }),
        old(node).is_some() ==> ({
            let n = old(node).unwrap();
            let hl = sub_height(n.left);
            let hr = sub_height(n.right);
            // within the balance bound: the same node, with only the root's
            // stored height recomputed
            &&& ((hl <= hr + 1 && hr <= hl + 1) ==> ({
                let f = final(node).unwrap();
                &&& f.key == n.key
                &&& f.val == n.val
                &&& f.left == n.left
                &&& f.right == n.right
                &&& f.height == 1 + nat_max(hl, hr)
            }))
            // left-heavy by two: one right rotation when the left child is
            // left-leaning or balanced, else the double rotation
            &&& ((hl == hr + 2 && sub_height(n.left.unwrap().left) >= sub_height(
                n.left.unwrap().right,
            )) ==> rotated_right(*n, *final(node)))
            &&& ((hl == hr + 2 && sub_height(n.left.unwrap().left) < sub_height(
                n.left.unwrap().right,
            )) ==> rotated_left_right(*n, *final(node)))
            // right-heavy by two: the mirror image
            &&& ((hr == hl + 2 && sub_height(n.right.unwrap().right) >= sub_height(
                n.right.unwrap().left,
            )) ==> rotated_left(*n, *final(node)))
            &&& ((hr == hl + 2 && sub_height(n.right.unwrap().right) < sub_height(
                n.right.unwrap().left,
            )) ==> rotated_right_left(*n, *final(node)))
        }),
        sub_wf(*old(node)) ==> *final(node) == *old(node),
{
    if node.is_none() {
        return;
    }
    let mut g = node.take().unwrap();
    proof {
        assert(top_height_ok(g.left));
        assert(top_height_ok(g.right));
    }
    let hl = stored_height(&g.left);
    let hr = stored_height(&g.right);
    if hl > hr && hl - hr >= 2 {
        // left-heavy by two: the left child decides between the single and
        // the double rotation
        let lnode = g.left.as_ref().unwrap();
        proof {
            assert(sub_wf(g.left.unwrap().left));
            assert(sub_wf(g.left.unwrap().right));
            assert(top_height_ok(lnode.left));
            assert(top_height_ok(lnode.right));
        }
        let llh = stored_height(&lnode.left);
        let lrh = stored_height(&lnode.right);
        let ghost l0 = g.left.unwrap();
        let ghost ha = sub_height(l0.left) as int;
        let ghost hb = sub_height(l0.right) as int;
        let ghost hc = sub_height(g.right) as int;
        if llh >= lrh {
            *node = Some(g);
            rotate_right(node);
            proof {
                let r = node.unwrap();
                let d = r.right.unwrap();
                assert(ha == hc + 1);
                assert(hc <= hb && hb <= hc + 1);
                assert(sub_height(r.right) == 1 + nat_max(sub_height(d.left), sub_height(d.right)));
                assert(sub_wf(node.unwrap().right));
                assert(sub_wf(*node));
            }
        } else {
            // the left child leans right: rotate it left first
            let ghost lr0 = l0.right.unwrap();
            let ghost hc2 = sub_height(lr0.left) as int;
            let ghost hd = sub_height(lr0.right) as int;
            proof {
                assert(hb == ha + 1);
                assert(ha == hc);
                assert(sub_height(l0.right) >= 1);
                assert(keys_ordered_at(*lr0));
                assert(sub_wf(lr0.left));
                assert(sub_wf(lr0.right));
                assert(top_height_ok(lr0.left));
                assert(top_height_ok(lr0.right));
            }
            rotate_left(&mut g.left);
            proof {
                let r1 = g.left.unwrap();
                let d1 = r1.left.unwrap();
                assert(nat_max(sub_height(lr0.left), sub_height(lr0.right)) == hb - 1);
                assert(sub_height(r1.left) == 1 + nat_max(sub_height(d1.left), sub_height(d1.right)));
                assert(sub_height(r1.left) == hb);
                assert(keys_ordered_at(*g) && g.left.is_some()) by {
                    assert(sub_map(g.left) == sub_map(Some(l0)));
                }
                assert(top_height_ok(r1.left));
                assert(top_height_ok(r1.right));
            }
            *node = Some(g);
            rotate_right(node);
            proof {
                let r = node.unwrap();
                let d1 = r.left.unwrap();
                let d2 = r.right.unwrap();
                assert(sub_height(r.left) == 1 + nat_max(sub_height(d1.left), sub_height(d1.right)));
                assert(sub_height(r.right) == 1 + nat_max(sub_height(d2.left), sub_height(d2.right)));
                assert(hc2 <= hb - 1 && hd <= hb - 1 && (hc2 == hb - 1 || hd == hb - 1));
                assert(sub_wf(r.left));
                assert(sub_wf(r.right));
                assert(sub_wf(*node));
                assert(sub_map(*node) == sub_map(*old(node))) by {
                    assert(sub_map(Some(l0)) == sub_map(old(node).unwrap().left));
                }
            }
        }
    } else if hr > hl && hr - hl >= 2 {
        // right-heavy by two: mirror image
        let rnode = g.right.as_ref().unwrap();
        proof {
            assert(sub_wf(g.right.unwrap().left));
            assert(sub_wf(g.right.unwrap().right));
            assert(top_height_ok(rnode.left));
            assert(top_height_ok(rnode.right));
        }
        let rlh = stored_height(&rnode.left);
        let rrh = stored_height(&rnode.right);
        let ghost r0 = g.right.unwrap();
        let ghost ha = sub_height(r0.right) as int;
        let ghost hb = sub_height(r0.left) as int;
        let ghost hc = sub_height(g.left) as int;
        if rrh >= rlh {
            *node = Some(g);
            rotate_left(node);
            proof {
                let r = node.unwrap();
                let d = r.left.unwrap();
                assert(ha == hc + 1);
                assert(hc <= hb && hb <= hc + 1);
                assert(sub_height(r.left) == 1 + nat_max(sub_height(d.left), sub_height(d.right)));
                assert(sub_wf(node.unwrap().left));
                assert(sub_wf(*node));
            }
        } else {
            // the right child leans left: rotate it right first
            let ghost rl0 = r0.left.unwrap();
            let ghost hc2 = sub_height(rl0.right) as int;
            let ghost hd = sub_height(rl0.left) as int;
            proof {
                assert(hb == ha + 1);
                assert(ha == hc);
                assert(sub_height(r0.left) >= 1);
                assert(keys_ordered_at(*rl0));
                assert(sub_wf(rl0.left));
                assert(sub_wf(rl0.right));
                assert(top_height_ok(rl0.left));
                assert(top_height_ok(rl0.right));
            }
            rotate_right(&mut g.right);
            proof {
                let r1 = g.right.unwrap();
                let d1 = r1.right.unwrap();
                assert(nat_max(sub_height(rl0.left), sub_height(rl0.right)) == hb - 1);
                assert(sub_height(r1.right) == 1 + nat_max(sub_height(d1.left), sub_height(d1.right)));
                assert(sub_height(r1.right) == hb);
                assert(keys_ordered_at(*g) && g.right.is_some()) by {
                    assert(sub_map(g.right) == sub_map(Some(r0)));
                }
                assert(top_height_ok(r1.left));
                assert(top_height_ok(r1.right));
            }
            *node = Some(g);
            rotate_left(node);
            proof {
                let r = node.unwrap();
                let d1 = r.right.unwrap();
                let d2 = r.left.unwrap();
                assert(sub_height(r.right) == 1 + nat_max(sub_height(d1.left), sub_height(d1.right)));
                assert(sub_height(r.left) == 1 + nat_max(sub_height(d2.left), sub_height(d2.right)));
                assert(hc2 <= hb - 1 && hd <= hb - 1 && (hc2 == hb - 1 || hd == hb - 1));
                assert(sub_wf(r.right));
                assert(sub_wf(r.left));
                assert(sub_wf(*node));
                assert(sub_map(*node) == sub_map(*old(node))) by {
                    assert(sub_map(Some(r0)) == sub_map(old(node).unwrap().right));
                }
            }
        }
    } else {
        // already balanced here: only the root's stored height can be stale
        g.height = if hl >= hr {
            hl + 1
        } else {
            hr + 1
        };
        *node = Some(g);
        proof {
            assert(sub_wf(*node));
        }
    }
}

} // verus!
