//! The internal tree element: a coordinate key, an opaque payload, a split
//! axis, and at most two owned children.

use vstd::prelude::*;

use crate::keys::{axis_gap, comp, in_range, sq_dist, Dimension};

verus! {

/// One element of the tree. Ownership is strictly hierarchical: each node
/// exclusively owns its children; there are no back-references and no cycles.
pub(crate) struct Node<I> {
    pub(crate) key: [i64; 3],
    pub(crate) item: I,
    pub(crate) dim: Dimension,
    pub(crate) right: Option<Box<Node<I>>>,
    pub(crate) left: Option<Box<Node<I>>>,
}

impl<I> Node<I> {
    /// The stored (key, payload) pairs of the subtree rooted here, in order:
    /// left subtree, this node, right subtree.
    pub(crate) open spec fn entries(self) -> Seq<([i64; 3], I)>
        decreases self,
    {
        Node::<I>::opt_entries(self.left) + seq![(self.key, self.item)] + Node::<I>::opt_entries(
            self.right,
        )
    }

    /// The stored pairs of an optional subtree.
    pub(crate) open spec fn opt_entries(o: Option<Box<Node<I>>>) -> Seq<([i64; 3], I)>
        decreases o,
    {
        match o {
            None => Seq::empty(),
            Some(n) => n.entries(),
        }
    }

    /// Well-formedness: every key is in range, and along each node's own
    /// axis the left subtree holds components at or above the node's and the
    /// right subtree components at or below it. This partition invariant is
    /// established at construction and never mutated afterward.
    pub(crate) open spec fn wf(self) -> bool
        decreases self,
    {
        &&& in_range(self.key)
        &&& (forall|e: ([i64; 3], I)|
            Node::<I>::opt_entries(self.left).contains(e) ==> comp(e.0, self.dim) >= comp(
                self.key,
                self.dim,
            ))
        &&& (forall|e: ([i64; 3], I)|
            Node::<I>::opt_entries(self.right).contains(e) ==> comp(e.0, self.dim) <= comp(
                self.key,
                self.dim,
            ))
        &&& Node::<I>::opt_wf(self.left)
        &&& Node::<I>::opt_wf(self.right)
    }

    pub(crate) open spec fn opt_wf(o: Option<Box<Node<I>>>) -> bool
        decreases o,
    {
        match o {
            None => true,
            Some(n) => n.wf(),
        }
    }

    pub(crate) open spec fn is_leaf_spec(self) -> bool {
        self.left is None && self.right is None
    }

    /// The node the branch-and-bound search settles on, mirrored exactly:
    /// descend the branch picked by comparing the query against this node's
    /// component, take the closer of that result and this node, revisit the
    /// other branch only when the linear axis gap is below the best squared
    /// distance, and finally compare against this node once more.
    pub(crate) open spec fn spec_find(self, pos: [i64; 3]) -> Node<I>
        decreases self,
    {
        if self.is_leaf_spec() {
            self
        } else {
            let is_less = comp(pos, self.dim) < comp(self.key, self.dim);
            let down = if is_less {
                Node::<I>::opt_find(self.left, self, pos)
            } else {
                Node::<I>::opt_find(self.right, self, pos)
            };
            let best = Node::<I>::closer(pos, down, self);
            let best2 = if axis_gap(self.dim, self.key, pos) < sq_dist(best.key, pos) {
                let other = if !is_less {
                    Node::<I>::opt_find(self.left, self, pos)
                } else {
                    Node::<I>::opt_find(self.right, self, pos)
                };
                Node::<I>::closer(pos, best, other)
            } else {
                best
            };
            Node::<I>::closer(pos, best2, self)
        }
    }

    /// The search result of an optional branch, or `fallback` if the branch
    /// is absent.
    pub(crate) open spec fn opt_find(o: Option<Box<Node<I>>>, fallback: Node<I>, pos: [i64; 3]) -> Node<I>
        decreases o,
    {
        match o {
            None => fallback,
            Some(n) => n.spec_find(pos),
        }
    }

    /// The first candidate if it is strictly closer to `pos`, else the second.
    pub(crate) open spec fn closer(pos: [i64; 3], n1: Node<I>, n2: Node<I>) -> Node<I> {
        if sq_dist(n1.key, pos) < sq_dist(n2.key, pos) {
            n1
        } else {
            n2
        }
    }

    pub(crate) fn is_leaf(&self) -> (r: bool)
        ensures
            r == self.is_leaf_spec(),
    {
        self.left.is_none() && self.right.is_none()
    }

    /// Squared Euclidean distance from this node's key to `target`, computed
    /// in `i128` so that in-range coordinates cannot overflow.
    pub(crate) fn squared_dist(&self, target: &[i64; 3]) -> (r: i128)
        requires
            in_range(self.key),
            in_range(*target),
        ensures
            r == sq_dist(self.key, *target),
    {
        let k = &self.key;
        let d0 = (target[0] as i128) - (k[0] as i128);
        let d1 = (target[1] as i128) - (k[1] as i128);
        let d2 = (target[2] as i128) - (k[2] as i128);
        proof {
            assert(d0 == target@[0] - k@[0]);
            assert((d0 * d0) + (d1 * d1) + (d2 * d2) <= 3 * 0x4000000000000000i128
                * 0x4000000000000000i128 && d0 * d0 >= 0 && d1 * d1 >= 0 && d2 * d2 >= 0)
                by (nonlinear_arith)
                requires
                    -0x4000000000000000i128 <= d0 <= 0x4000000000000000i128,
                    -0x4000000000000000i128 <= d1 <= 0x4000000000000000i128,
                    -0x4000000000000000i128 <= d2 <= 0x4000000000000000i128,
            ;
        }
        let r = (d0 * d0) + (d1 * d1) + (d2 * d2);
        proof {
            let a0 = self.key@[0] as int;
            let a1 = self.key@[1] as int;
            let a2 = self.key@[2] as int;
            let t0 = target@[0] as int;
            let t1 = target@[1] as int;
            let t2 = target@[2] as int;
            assert(r == (a0 - t0) * (a0 - t0) + (a1 - t1) * (a1 - t1) + (a2 - t2) * (a2 - t2))
                by (nonlinear_arith)
                requires
                    d0 == t0 - a0,
                    d1 == t1 - a1,
                    d2 == t2 - a2,
                    r == d0 * d0 + d1 * d1 + d2 * d2,
            ;
        }
        r
    }
}

} // verus!
