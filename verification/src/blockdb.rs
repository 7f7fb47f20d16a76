//! The spatial index: a balanced 3-d tree built once by recursive median
//! partitioning and queried many times for the stored item nearest to a
//! query coordinate under squared Euclidean distance.

use vstd::prelude::*;

use crate::keys::{comp, in_range, sq_dist, Dimension};
use crate::node::Node;
use crate::sort::{
    entries_of, lemma_sort_desc, lemma_sort_desc_contains, sort_by_dim, sort_desc,
};
use vstd::seq_lib::lemma_multiset_commutative;

verus! {

/// Whether `k` is a coordinate that `keyfn` can yield for `item`.
pub open spec fn may_key<I, F: Fn(&I) -> [i64; 3]>(keyfn: F, item: I, k: [i64; 3]) -> bool {
    exists|x: &I| *x == item && #[trigger] call_ensures(keyfn, (x,), k)
}

/// The text of one node line of the graph description: what `format!`
/// renders from the node's identifier, axis and coordinate. The rendering
/// is a function of the arguments alone.
pub uninterp spec fn node_line(id: u64, axis: usize, k: [i64; 3]) -> Seq<char>;

/// The text of one labeled edge line of the graph description: what
/// `format!` renders from the two node identifiers and the edge label. The
/// rendering is a function of the arguments alone.
pub uninterp spec fn edge_line(from: u64, to: u64, label: Seq<char>) -> Seq<char>;

/// The text the exporter emits for the subtree rooted at `n` when `n` is
/// numbered `id`: the node's own line, then for each present child one
/// edge line followed by the child subtree's text, children numbered in
/// pre-order.
pub(crate) open spec fn dot_lines<I>(n: Node<I>, id: u64) -> Seq<char>
    decreases n,
{
    let own = node_line(id, n.dim.index_spec() as usize, n.key);
    let left_part = match n.left {
        Some(l) => edge_line(id, (id + 1) as u64, "left"@) + dot_lines(*l, (id + 1) as u64),
        None => Seq::empty(),
    };
    let rid = (id + 1 + Node::<I>::opt_entries(n.left).len()) as u64;
    let right_part = match n.right {
        Some(r) => edge_line(id, rid, "right"@) + dot_lines(*r, rid),
        None => Seq::empty(),
    };
    own + left_part + right_part
}

/// A nearest-neighbor index over 3-component integer coordinates. The tree
/// is built once by `new` and is immutable afterward; queries are read-only.
#[verifier::ext_equal]
pub struct BlockDb<I> {
    root: Option<Box<Node<I>>>,
}

impl<I> View for BlockDb<I> {
    type V = Seq<([i64; 3], I)>;

    closed spec fn view(&self) -> Seq<([i64; 3], I)> {
        Node::<I>::opt_entries(self.root)
    }
}

impl<I> BlockDb<I> {
    /// Every stored key is in range (so squared distances cannot overflow),
    /// the number of stored entries fits in a machine word, and every node
    /// separates its subtrees along its own axis.
    pub closed spec fn wf(self) -> bool {
        &&& Node::<I>::opt_wf(self.root)
        &&& Node::<I>::opt_entries(self.root).len() <= usize::MAX
    }

    /// The exact tree that median partitioning yields from `es` at axis `d`:
    /// nothing for no entries; a leaf for one; otherwise the entries are
    /// sorted descending along `d` (stably), the last entry of the lower
    /// half becomes this node, and the two remaining parts become the
    /// subtrees, on the next axis.
    spec fn is_built_from(o: Option<Box<Node<I>>>, es: Seq<([i64; 3], I)>, d: Dimension) -> bool
        decreases o,
    {
        match o {
            None => es.len() == 0,
            Some(n) => es.len() > 0 && if es.len() == 1 {
                &&& n.key == es[0].0
                &&& n.item == es[0].1
                &&& n.dim == d
                &&& n.left is None
                &&& n.right is None
            } else {
                let s = sort_desc(es, d);
                let m = es.len() as int / 2;
                &&& n.key == s[m - 1].0
                &&& n.item == s[m - 1].1
                &&& n.dim == d
                &&& Self::is_built_from(n.left, s.subrange(0, m - 1), d.next_spec())
                &&& Self::is_built_from(n.right, s.subrange(m, s.len() as int), d.next_spec())
            },
        }
    }

    /// Whether this index is exactly the one that construction yields from
    /// the entry sequence `es`. Construction is deterministic: see
    /// `lemma_build_deterministic`.
    pub closed spec fn built_from(self, es: Seq<([i64; 3], I)>) -> bool {
        Self::is_built_from(self.root, es, Dimension::First)
    }

    /// The (key, payload) pair the search settles on for `pos`; meaningful
    /// only when the index is not empty.
    pub closed spec fn found(self, pos: [i64; 3]) -> ([i64; 3], I) {
        match self.root {
            Some(n) => {
                let m = n.spec_find(pos);
                (m.key, m.item)
            },
            None => vstd::pervasive::arbitrary(),
        }
    }

    /// A tree built from `es` stores exactly the entries of `es` (as a
    /// multiset), and is well-formed whenever every key of `es` is in range.
    proof fn lemma_built_entries(o: Option<Box<Node<I>>>, es: Seq<([i64; 3], I)>, d: Dimension)
        requires
            Self::is_built_from(o, es, d),
        ensures
            Node::<I>::opt_entries(o).to_multiset() == es.to_multiset(),
            Node::<I>::opt_entries(o).len() == es.len(),
            (forall|j: int| 0 <= j < es.len() ==> in_range(es[j].0)) ==> Node::<I>::opt_wf(o),
        decreases o,
    {
        match o {
            None => {
                assert(Node::<I>::opt_entries(o) =~= es);
                assert(Node::<I>::opt_wf(o));
            },
            Some(n) => {
                if es.len() == 1 {
                    assert(Node::<I>::opt_entries(n.left) =~= Seq::<([i64; 3], I)>::empty());
                    assert(Node::<I>::opt_entries(n.right) =~= Seq::<([i64; 3], I)>::empty());
                    assert(Node::<I>::opt_entries(o) == n.entries());
                    assert(Node::<I>::opt_entries(o) =~= es);
                    assert(Node::<I>::opt_wf(n.left));
                    assert(Node::<I>::opt_wf(n.right));
                    if forall|j: int| 0 <= j < es.len() ==> in_range(es[j].0) {
                        assert(in_range(es[0].0));
                        assert(n.wf());
                    }
                } else {
                    let s = sort_desc(es, d);
                    let m = es.len() as int / 2;
                    lemma_sort_desc(es, d);
                    lemma_sort_desc_contains(es, d);
                    let sl = s.subrange(0, m - 1);
                    let sr = s.subrange(m, s.len() as int);
                    Self::lemma_built_entries(n.left, sl, d.next_spec());
                    Self::lemma_built_entries(n.right, sr, d.next_spec());
                    let le = Node::<I>::opt_entries(n.left);
                    let re = Node::<I>::opt_entries(n.right);
                    let mid = seq![(n.key, n.item)];
                    assert(Node::<I>::opt_entries(o) == le + mid + re);
                    assert(s =~= sl + mid + sr);
                    lemma_multiset_commutative(le + mid, re);
                    lemma_multiset_commutative(le, mid);
                    lemma_multiset_commutative(sl + mid, sr);
                    lemma_multiset_commutative(sl, mid);
                    assert((le + mid + re).to_multiset() =~= s.to_multiset());
                    // well-formedness under the range hypothesis
                    if forall|j: int| 0 <= j < es.len() ==> in_range(es[j].0) {
                        assert forall|j: int| 0 <= j < sl.len() implies in_range(sl[j].0) by {
                            assert(s.contains(sl[j]));
                            assert(es.contains(sl[j]));
                            let w = choose|w: int| 0 <= w < es.len() && es[w] == sl[j];
                            assert(in_range(es[w].0));
                        }
                        assert forall|j: int| 0 <= j < sr.len() implies in_range(sr[j].0) by {
                            assert(s.contains(sr[j]));
                            assert(es.contains(sr[j]));
                            let w = choose|w: int| 0 <= w < es.len() && es[w] == sr[j];
                            assert(in_range(es[w].0));
                        }
                        assert(s.contains(s[m - 1]));
                        assert(es.contains(s[m - 1]));
                        let w = choose|w: int| 0 <= w < es.len() && es[w] == s[m - 1];
                        assert(in_range(n.key));
                        // the partition invariant along this node's axis
                        assert forall|e: ([i64; 3], I)| le.contains(e) implies comp(e.0, n.dim)
                            >= comp(n.key, n.dim) by {
                            le.to_multiset_ensures();
                            sl.to_multiset_ensures();
                            assert(le.to_multiset().count(e) > 0);
                            assert(sl.contains(e));
                            let j = choose|j: int| 0 <= j < sl.len() && sl[j] == e;
                            assert(s[j] == e);
                        }
                        assert forall|e: ([i64; 3], I)| re.contains(e) implies comp(e.0, n.dim)
                            <= comp(n.key, n.dim) by {
                            re.to_multiset_ensures();
                            sr.to_multiset_ensures();
                            assert(re.to_multiset().count(e) > 0);
                            assert(sr.contains(e));
                            let j = choose|j: int| 0 <= j < sr.len() && sr[j] == e;
                            assert(s[j + m] == e);
                        }
                        assert(n.wf());
                    }
                }
            },
        }
    }

    /// Builds the subtree for `nodes` at axis `dim`, exactly as
    /// `is_built_from` describes: sort descending along the axis, split at
    /// the middle, take the last element of the lower half as this node,
    /// and recurse on the two parts with the next axis.
    fn build_tree(nodes: Vec<Box<Node<I>>>, dim: Dimension) -> (r: Option<Box<Node<I>>>)
        requires
            forall|j: int|
                0 <= j < nodes@.len() ==> (#[trigger] nodes@[j]).left is None && nodes@[j].right
                    is None,
        ensures
            Self::is_built_from(r, entries_of(nodes@), dim),
        decreases nodes@.len(),
    {
        let ghost es = entries_of(nodes@);
        if nodes.len() < 2 {
            let mut nodes = nodes;
            match nodes.pop() {
                None => {
                    proof {
                        assert(es.len() == 0);
                    }
                    None
                },
                Some(mut n) => {
                    n.dim = dim;
                    proof {
                        assert(es.len() == 1);
                        assert(es[0] == (n.key, n.item));
                    }
                    Some(n)
                },
            }
        } else {
            let mut left = sort_by_dim(nodes, dim);
            let ghost sorted = left@;
            let ghost s = sort_desc(es, dim);
            let median = left.len() / 2;
            let ghost m = es.len() as int / 2;
            proof {
                lemma_sort_desc(es, dim);
                assert(sorted.len() == es.len());
                assert(m == median as int);
            }
            let right = left.split_off(median);
            let mut curr = left.pop().unwrap();
            proof {
                assert(curr == sorted[m - 1]);
                assert(left@ =~= sorted.subrange(0, m - 1));
                assert(right@ =~= sorted.subrange(m, sorted.len() as int));
                assert(entries_of(left@) =~= s.subrange(0, m - 1));
                assert(entries_of(right@) =~= s.subrange(m, s.len() as int));
                assert forall|j: int|
                    0 <= j < left@.len() implies (#[trigger] left@[j]).left is None
                    && left@[j].right is None by {
                    assert(nodes@.contains(left@[j]));
                    let w = choose|w: int| 0 <= w < nodes@.len() && nodes@[w] == left@[j];
                    assert(nodes@[w].left is None);
                }
                assert forall|j: int|
                    0 <= j < right@.len() implies (#[trigger] right@[j]).left is None
                    && right@[j].right is None by {
                    assert(nodes@.contains(right@[j]));
                    let w = choose|w: int| 0 <= w < nodes@.len() && nodes@[w] == right@[j];
                    assert(nodes@[w].left is None);
                }
            }
            curr.left = Self::build_tree(left, dim.next());
            curr.right = Self::build_tree(right, dim.next());
            curr.dim = dim;
            proof {
                assert(curr.key == s[m - 1].0 && curr.item == s[m - 1].1);
            }
            Some(curr)
        }
    }

    /// Builds an index over `items`, keying each item by `keyfn`. The key
    /// function must accept every item and may only yield in-range
    /// coordinates. The resulting index is exactly the one that median
    /// partitioning yields from the items in their given order.
    pub fn new<F: Fn(&I) -> [i64; 3]>(items: Vec<I>, keyfn: F) -> (db: Self)
        requires
            forall|x: &I| #[trigger] call_requires(keyfn, (x,)),
            forall|x: &I, k: [i64; 3]| #[trigger] call_ensures(keyfn, (x,), k) ==> in_range(k),
        ensures
            db.wf(),
            db@.len() == items@.len(),
            exists|es: Seq<([i64; 3], I)>|
                {
                    &&& #[trigger] db.built_from(es)
                    &&& es.len() == items@.len()
                    &&& db@.to_multiset() == es.to_multiset()
                    &&& forall|i: int| 0 <= i < es.len() ==> es[i].1 == items@[i]
                    &&& forall|i: int|
                        0 <= i < es.len() ==> #[trigger] may_key(keyfn, items@[i], es[i].0)
                },
    {
        let ghost all_items = items@;
        let mut items = items;
        let mut nodes: Vec<Box<Node<I>>> = Vec::with_capacity(items.len());
        while items.len() > 0
            invariant
                forall|x: &I| #[trigger] call_requires(keyfn, (x,)),
                forall|x: &I, k: [i64; 3]| #[trigger] call_ensures(keyfn, (x,), k) ==> in_range(k),
                items@.len() <= all_items.len(),
                items@ == all_items.skip(all_items.len() - items@.len()),
                nodes@.len() + items@.len() == all_items.len(),
                forall|j: int|
                    0 <= j < nodes@.len() ==> (#[trigger] nodes@[j]).left is None
                        && nodes@[j].right is None,
                forall|j: int| 0 <= j < nodes@.len() ==> (#[trigger] nodes@[j]).item
                    == all_items[j],
                forall|j: int|
                    0 <= j < nodes@.len() ==> #[trigger] may_key(keyfn, all_items[j], nodes@[j].key),
            decreases items@.len(),
        {
            let ghost k = all_items.len() - items@.len();
            let item = items.remove(0);
            proof {
                assert(all_items.skip(k)[0] == all_items[k]);
                assert(item == all_items[k]);
                assert(items@ =~= all_items.skip(k + 1));
            }
            let key = keyfn(&item);
            let n = Node { key, item, dim: Dimension::First, right: None, left: None };
            nodes.push(Box::new(n));
            proof {
                assert(nodes@[k as int].item == all_items[k]);
                assert(may_key(keyfn, all_items[k], nodes@[k as int].key));
            }
        }
        let ghost es = entries_of(nodes@);
        let root = Self::build_tree(nodes, Dimension::First);
        let db = BlockDb { root };
        proof {
            assert(all_items.skip(0) =~= all_items);
            Self::lemma_built_entries(root, es, Dimension::First);
            assert forall|j: int| 0 <= j < es.len() implies in_range(es[j].0) by {
                assert(es[j].0 == nodes@[j].key);
                assert(may_key(keyfn, all_items[j], nodes@[j].key));
                let x = choose|x: &I|
                    *x == all_items[j] && #[trigger] call_ensures(keyfn, (x,), nodes@[j].key);
                assert(in_range(nodes@[j].key));
            }
            assert(db.wf());
            assert(db.built_from(es));
            assert(db@.to_multiset() == es.to_multiset());
            es.to_multiset_ensures();
            db@.to_multiset_ensures();
            assert(db@.len() == es.len());
        }
        db
    }

    /// Looks up the payload of the entry the search settles on for `pos`,
    /// or `None` exactly when the index is empty. The result is always one
    /// of the stored entries, pinned by `found`; see `lemma_found_is_stored`.
    pub fn find_closest_pos(&self, pos: [i64; 3]) -> (r: Option<&I>)
        requires
            self.wf(),
            in_range(pos),
        ensures
            r is Some <==> self@.len() > 0,
            r matches Some(it) ==> *it == self.found(pos).1 && self@.contains(self.found(pos)),
    {
        match &self.root {
            None => None,
            Some(root) => {
                let found = Self::find_closest(root, pos);
                proof {
                    Self::lemma_spec_find_entries(**root, pos);
                    assert(self@ == root.entries());
                }
                Some(&found.item)
            },
        }
    }

    /// The recursive branch-and-bound search. Descends the branch picked by
    /// the axis comparison, keeps the closer of that result and this node,
    /// revisits the other branch only when the axis gap is below the best
    /// squared distance, and compares against this node once more.
    fn find_closest<'a>(node: &'a Node<I>, pos: [i64; 3]) -> (r: &'a Node<I>)
        requires
            node.wf(),
            in_range(pos),
        ensures
            *r == node.spec_find(pos),
            in_range(r.key),
        decreases *node,
    {
        if node.is_leaf() {
            return node;
        }
        let idx = node.dim.index();
        let is_less = pos[idx] < node.key[idx];
        let down = if is_less {
            match &node.left {
                Some(l) => Self::find_closest(l, pos),
                None => node,
            }
        } else {
            match &node.right {
                Some(rn) => Self::find_closest(rn, pos),
                None => node,
            }
        };
        proof {
            if is_less {
                assert(*down == Node::<I>::opt_find(node.left, *node, pos));
            } else {
                assert(*down == Node::<I>::opt_find(node.right, *node, pos));
            }
        }
        let best = Self::pick_closer_node(&pos, down, node);
        let best = if Self::get_dist(node.dim, &node.key, &pos) < best.squared_dist(&pos) {
            let down2 = if !is_less {
                match &node.left {
                    Some(l) => Self::find_closest(l, pos),
                    None => node,
                }
            } else {
                match &node.right {
                    Some(rn) => Self::find_closest(rn, pos),
                    None => node,
                }
            };
            proof {
                if !is_less {
                    assert(*down2 == Node::<I>::opt_find(node.left, *node, pos));
                } else {
                    assert(*down2 == Node::<I>::opt_find(node.right, *node, pos));
                }
            }
            Self::pick_closer_node(&pos, best, down2)
        } else {
            best
        };
        Self::pick_closer_node(&pos, best, node)
    }

    /// The first node if it is strictly closer to `pos`, else the second:
    /// ties keep the candidate compared second.
    fn pick_closer_node<'a>(pos: &[i64; 3], n1: &'a Node<I>, n2: &'a Node<I>) -> (r: &'a Node<I>)
        requires
            in_range(n1.key),
            in_range(n2.key),
            in_range(*pos),
        ensures
            *r == Node::<I>::closer(*pos, *n1, *n2),
            in_range(r.key),
    {
        if n1.squared_dist(pos) < n2.squared_dist(pos) {
            n1
        } else {
            n2
        }
    }

    /// The absolute difference between `k1` and `k2` along `dim` alone.
    fn get_dist(dim: Dimension, k1: &[i64; 3], k2: &[i64; 3]) -> (r: i128)
        ensures
            r == crate::keys::axis_gap(dim, *k1, *k2),
    {
        let i = dim.index();
        let n1 = k1[i] as i128;
        let n2 = k2[i] as i128;
        if n1 > n2 {
            n1 - n2
        } else {
            n2 - n1
        }
    }

    /// The search result is always one of the entries stored in the tree.
    proof fn lemma_spec_find_entries(n: Node<I>, pos: [i64; 3])
        ensures
            n.entries().contains((n.spec_find(pos).key, n.spec_find(pos).item)),
        decreases n,
    {
        let le = Node::<I>::opt_entries(n.left);
        let re = Node::<I>::opt_entries(n.right);
        let mid = seq![(n.key, n.item)];
        assert(n.entries() == le + mid + re);
        assert(n.entries()[le.len() as int] == (n.key, n.item));
        assert(n.entries().contains((n.key, n.item)));
        if !n.is_leaf_spec() {
            match n.left {
                Some(l) => {
                    Self::lemma_spec_find_entries(*l, pos);
                    assert(Node::<I>::opt_find(n.left, n, pos) == l.spec_find(pos));
                    let e = (l.spec_find(pos).key, l.spec_find(pos).item);
                    let w = choose|w: int| 0 <= w < le.len() && le[w] == e;
                    assert(n.entries()[w] == e);
                    assert(n.entries().contains(e));
                },
                None => {
                    assert(Node::<I>::opt_find(n.left, n, pos) == n);
                },
            }
            match n.right {
                Some(rn) => {
                    Self::lemma_spec_find_entries(*rn, pos);
                    assert(Node::<I>::opt_find(n.right, n, pos) == rn.spec_find(pos));
                    let e = (rn.spec_find(pos).key, rn.spec_find(pos).item);
                    let w = choose|w: int| 0 <= w < re.len() && re[w] == e;
                    assert(n.entries()[le.len() + 1 + w] == e);
                    assert(n.entries().contains(e));
                },
                None => {
                    assert(Node::<I>::opt_find(n.right, n, pos) == n);
                },
            }
        }
    }

    /// Median partitioning is a function of the entry sequence alone: two
    /// trees built from the same entries are one and the same.
    proof fn lemma_is_built_unique(
        o1: Option<Box<Node<I>>>,
        o2: Option<Box<Node<I>>>,
        es: Seq<([i64; 3], I)>,
        d: Dimension,
    )
        requires
            Self::is_built_from(o1, es, d),
            Self::is_built_from(o2, es, d),
        ensures
            o1 == o2,
        decreases o1,
    {
        match (o1, o2) {
            (None, None) => {},
            (Some(n1), Some(n2)) => {
                if es.len() == 1 {
                    assert(*n1 =~= *n2);
                } else {
                    let s = sort_desc(es, d);
                    let m = es.len() as int / 2;
                    Self::lemma_is_built_unique(n1.left, n2.left, s.subrange(0, m - 1), d.next_spec());
                    Self::lemma_is_built_unique(
                        n1.right,
                        n2.right,
                        s.subrange(m, s.len() as int),
                        d.next_spec(),
                    );
                    assert(*n1 =~= *n2);
                }
            },
            _ => {
                assert(false);
            },
        }
    }

    /// Determinism of construction: building from the same entry sequence
    /// twice yields equal indexes, which therefore answer every query
    /// identically.
    pub proof fn lemma_build_deterministic(db1: Self, db2: Self, es: Seq<([i64; 3], I)>)
        requires
            db1.built_from(es),
            db2.built_from(es),
        ensures
            db1 == db2,
            forall|pos: [i64; 3]| db1.found(pos) == db2.found(pos),
    {
        Self::lemma_is_built_unique(db1.root, db2.root, es, Dimension::First);
        assert(db1 =~= db2);
    }

    /// An index built from no entries stores nothing, so every query on it
    /// answers with the empty signal.
    pub proof fn lemma_empty_index(db: Self)
        requires
            db.built_from(Seq::empty()),
        ensures
            db@.len() == 0,
    {
    }

    /// An index over exactly one entry answers every query with that entry.
    pub proof fn lemma_singleton_index(db: Self, e: ([i64; 3], I), pos: [i64; 3])
        requires
            db.built_from(seq![e]),
        ensures
            db@ =~= seq![e],
            db.found(pos) == e,
    {
        let n = db.root.unwrap();
        assert(Node::<I>::opt_entries(n.left) =~= Seq::<([i64; 3], I)>::empty());
        assert(Node::<I>::opt_entries(n.right) =~= Seq::<([i64; 3], I)>::empty());
        assert(db@ == n.entries());
        assert(n.spec_find(pos) == *n);
    }

    /// A query equal to the key of a singleton index's entry is answered at
    /// distance zero.
    pub proof fn lemma_exact_match_singleton(db: Self, e: ([i64; 3], I), pos: [i64; 3])
        requires
            db.built_from(seq![e]),
            pos == e.0,
        ensures
            sq_dist(db.found(pos).0, pos) == 0,
    {
        Self::lemma_singleton_index(db, e, pos);
    }

    /// What the search settles on is always one of the stored entries. (It
    /// need not attain the minimum distance: the revisit test compares a
    /// linear axis gap against a squared distance, so on some inputs the
    /// branch holding the true nearest entry is skipped.)
    pub proof fn lemma_found_is_stored(db: Self, pos: [i64; 3])
        requires
            db@.len() > 0,
        ensures
            db@.contains(db.found(pos)),
    {
        let n = db.root.unwrap();
        Self::lemma_spec_find_entries(*n, pos);
        assert(db@ == n.entries());
    }

    /// The full text of the graph description: the fixed framing around
    /// the root subtree's lines, with the root numbered 0.
    pub closed spec fn dot_spec(self) -> Seq<char> {
        "graph rtree {\n"@ + (match self.root {
            Some(n) => dot_lines(*n, 0),
            None => Seq::empty(),
        }) + "}"@
    }

    /// Renders the tree as a graph description for visualization tooling:
    /// one line per node with its axis and coordinate, and one line per
    /// parent-child edge. Node identifiers are assigned by a pre-order
    /// traversal that visits every node exactly once.
    pub fn to_dot_str(&self) -> (r: String)
        requires
            self.wf(),
        ensures
            r@ == self.dot_spec(),
            self@.len() == 0 ==> r@ == "graph rtree {\n}"@,
    {
        let mut out = String::new();
        out.append("graph rtree {\n");
        match &self.root {
            Some(root) => {
                proof {
                    assert(root.entries() == self@);
                    assert(self@.len() > 0);
                }
                Self::to_dot(root, &mut out, 0);
                proof {
                    assert(out@ =~= "graph rtree {\n"@ + dot_lines(**root, 0));
                }
            },
            None => {},
        }
        out.append("}");
        proof {
            assert(out@ =~= self.dot_spec());
            if self@.len() == 0 {
                assert(self.root is None);
                reveal_strlit("graph rtree {\n");
                reveal_strlit("}");
                reveal_strlit("graph rtree {\n}");
                assert(out@ =~= "graph rtree {\n}"@);
            }
        }
        out
    }

    /// Emits this subtree onto `out`, numbering its nodes `id..next_id` in
    /// pre-order; the returned `next_id` exceeds `id` by exactly the number
    /// of nodes in the subtree, so each node is visited exactly once. The
    /// old contents of `out` are kept as a prefix, and exactly the
    /// subtree's lines are appended after them.
    fn to_dot(node: &Node<I>, out: &mut String, id: u64) -> (next_id: u64)
        requires
            id + node.entries().len() <= u64::MAX,
        ensures
            next_id == id + node.entries().len(),
            final(out)@ == old(out)@ + dot_lines(*node, id),
            old(out)@.is_prefix_of(final(out)@),
        decreases *node,
    {
        proof {
            assert(node.entries().len() == Node::<I>::opt_entries(node.left).len() + 1
                + Node::<I>::opt_entries(node.right).len());
        }
        let ghost base = old(out)@;
        let ghost own = node_line(id, node.dim.index_spec() as usize, node.key);
        let line = Self::fmt_node_line(id, node.dim.index(), &node.key);
        out.append(line.as_str());
        let mut next_id = id + 1;
        let ghost mut left_part: Seq<char> = Seq::empty();
        match &node.left {
            Some(l) => {
                let edge = Self::fmt_edge_line(id, next_id, "left");
                out.append(edge.as_str());
                next_id = Self::to_dot(l, out, next_id);
                proof {
                    left_part = edge_line(id, (id + 1) as u64, "left"@) + dot_lines(
                        **l,
                        (id + 1) as u64,
                    );
                    assert(out@ =~= base + own + left_part);
                }
            },
            None => {},
        }
        proof {
            assert(out@ =~= base + own + left_part);
            assert(next_id == id + 1 + Node::<I>::opt_entries(node.left).len());
        }
        match &node.right {
            Some(r) => {
                let edge = Self::fmt_edge_line(id, next_id, "right");
                out.append(edge.as_str());
                let ghost rid = next_id;
                next_id = Self::to_dot(r, out, next_id);
                proof {
                    assert(out@ =~= base + own + left_part + (edge_line(id, rid, "right"@)
                        + dot_lines(**r, rid)));
                }
            },
            None => {},
        }
        proof {
            assert(out@ =~= base + dot_lines(*node, id));
            assert(base.is_prefix_of(out@)) by {
                assert(out@.subrange(0, base.len() as int) =~= base);
            }
        }
        next_id
    }

    /// Relies on std's `format!` to render one node line of the graph
    /// description: the node's identifier, axis and coordinate. The result
    /// depends on the arguments alone, named by `node_line`.
    #[verifier::external_body]
    fn fmt_node_line(id: u64, axis: usize, k: &[i64; 3]) -> (r: String)
        ensures
            r@ == node_line(id, axis, *k),
    {
        format!("{} [label=\"{}@({},{},{})\"]\n", id, axis, k[0], k[1], k[2])
    }

    /// Relies on std's `format!` to render one labeled edge line of the
    /// graph description. The result depends on the arguments alone, named
    /// by `edge_line`.
    #[verifier::external_body]
    fn fmt_edge_line(from: u64, to: u64, label: &str) -> (r: String)
        ensures
            r@ == edge_line(from, to, label@),
    {
        format!("{} -- {} [label=\"{}\"]\n", from, to, label)
    }
}

} // verus!
