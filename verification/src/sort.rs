//! The ordering step of construction: a stable insertion sort of nodes,
//! descending by one coordinate component, pinned exactly by a
//! specification-level mirror so that construction is deterministic.

use vstd::prelude::*;

use crate::keys::{comp, Dimension};
use crate::node::Node;
use vstd::seq_lib::lemma_multiset_commutative;

verus! {

/// The (key, payload) pairs carried by a sequence of boxed nodes.
pub(crate) open spec fn entries_of<I>(s: Seq<Box<Node<I>>>) -> Seq<([i64; 3], I)> {
    Seq::new(s.len(), |i: int| (s[i].key, s[i].item))
}

/// Where a key with component `c` lands in `s`: just after the last element
/// whose component along `d` is at or above `c`. Equal components therefore
/// keep their arrival order (the sort is stable).
pub(crate) open spec fn insert_pos<I>(s: Seq<([i64; 3], I)>, c: int, d: Dimension) -> int
    decreases s.len(),
{
    if s.len() == 0 {
        0
    } else if comp(s[0].0, d) >= c {
        1 + insert_pos(s.drop_first(), c, d)
    } else {
        0
    }
}

/// `e` inserted into `s` at its position.
pub(crate) open spec fn insert_desc<I>(
    s: Seq<([i64; 3], I)>,
    e: ([i64; 3], I),
    d: Dimension,
) -> Seq<([i64; 3], I)> {
    s.insert(insert_pos(s, comp(e.0, d), d), e)
}

/// Stable insertion sort of the entries, descending by the component along
/// `d`: each entry in turn is inserted into the sorted prefix.
pub(crate) open spec fn sort_desc<I>(s: Seq<([i64; 3], I)>, d: Dimension) -> Seq<([i64; 3], I)>
    decreases s.len(),
{
    if s.len() == 0 {
        s
    } else {
        insert_desc(sort_desc(s.drop_last(), d), s.last(), d)
    }
}

/// Non-increasing components along `d`.
pub(crate) open spec fn sorted_desc<I>(s: Seq<([i64; 3], I)>, d: Dimension) -> bool {
    forall|i: int, j: int| 0 <= i <= j < s.len() ==> comp(s[i].0, d) >= comp(s[j].0, d)
}

pub(crate) proof fn lemma_insert_pos<I>(s: Seq<([i64; 3], I)>, c: int, d: Dimension)
    ensures
        0 <= insert_pos(s, c, d) <= s.len(),
        forall|j: int| 0 <= j < insert_pos(s, c, d) ==> comp(s[j].0, d) >= c,
        insert_pos(s, c, d) < s.len() ==> comp(s[insert_pos(s, c, d)].0, d) < c,
    decreases s.len(),
{
    if s.len() == 0 {
    } else if comp(s[0].0, d) >= c {
        lemma_insert_pos(s.drop_first(), c, d);
        let p = insert_pos(s, c, d);
        assert forall|j: int| 0 <= j < p implies comp(s[j].0, d) >= c by {
            if j > 0 {
                assert(s.drop_first()[j - 1] == s[j]);
            }
        }
        if p < s.len() {
            assert(s.drop_first()[p - 1] == s[p]);
        }
    } else {
    }
}

pub(crate) proof fn lemma_insert_desc<I>(s: Seq<([i64; 3], I)>, e: ([i64; 3], I), d: Dimension)
    requires
        sorted_desc(s, d),
    ensures
        insert_desc(s, e, d).len() == s.len() + 1,
        sorted_desc(insert_desc(s, e, d), d),
        insert_desc(s, e, d).to_multiset() == s.to_multiset().insert(e),
{
    let c = comp(e.0, d);
    let p = insert_pos(s, c, d);
    lemma_insert_pos(s, c, d);
    s.insert_ensures(p, e);
    let t = insert_desc(s, e, d);
    assert forall|i: int, j: int| 0 <= i <= j < t.len() implies comp(t[i].0, d) >= comp(
        t[j].0,
        d,
    ) by {
        if i < p {
            assert(t[i] == s[i]);
        } else if i > p {
            assert(t[i] == s[i - 1]);
        }
        if j < p {
            assert(t[j] == s[j]);
        } else if j > p {
            assert(t[j] == s[j - 1]);
        }
    }
    assert(t =~= s.take(p).push(e) + s.skip(p));
    assert(s =~= s.take(p) + s.skip(p));
    lemma_multiset_commutative(s.take(p).push(e), s.skip(p));
    lemma_multiset_commutative(s.take(p), s.skip(p));
    s.take(p).to_multiset_ensures();
    assert(s.take(p).push(e).to_multiset() =~= s.take(p).to_multiset().insert(e));
    assert(t.to_multiset() =~= s.to_multiset().insert(e));
}

pub(crate) proof fn lemma_sort_desc<I>(s: Seq<([i64; 3], I)>, d: Dimension)
    ensures
        sort_desc(s, d).len() == s.len(),
        sorted_desc(sort_desc(s, d), d),
        sort_desc(s, d).to_multiset() == s.to_multiset(),
    decreases s.len(),
{
    if s.len() == 0 {
    } else {
        lemma_sort_desc(s.drop_last(), d);
        lemma_insert_desc(sort_desc(s.drop_last(), d), s.last(), d);
        s.drop_last().to_multiset_ensures();
        assert(s.drop_last().push(s.last()) =~= s);
    }
}

/// Every entry of the sorted sequence is an entry of the input.
pub(crate) proof fn lemma_sort_desc_contains<I>(s: Seq<([i64; 3], I)>, d: Dimension)
    ensures
        forall|e: ([i64; 3], I)| sort_desc(s, d).contains(e) ==> s.contains(e),
{
    assert forall|e: ([i64; 3], I)| sort_desc(s, d).contains(e) implies s.contains(e) by {
        lemma_sort_desc(s, d);
        s.to_multiset_ensures();
        sort_desc(s, d).to_multiset_ensures();
        assert(sort_desc(s, d).to_multiset().count(e) > 0);
        assert(s.to_multiset().count(e) > 0);
    }
}

/// Sorts the nodes by their key component along `dim`, largest first, stably.
/// The result is pinned to the specification mirror, and every box in the
/// result is one of the input boxes.
pub(crate) fn sort_by_dim<I>(nodes: Vec<Box<Node<I>>>, dim: Dimension) -> (r: Vec<Box<Node<I>>>)
    ensures
        entries_of(r@) == sort_desc(entries_of(nodes@), dim),
        forall|j: int| 0 <= j < r@.len() ==> nodes@.contains(r@[j]),
{
    let ghost all = nodes@;
    let idx = dim.index();
    let mut rest = nodes;
    let mut out: Vec<Box<Node<I>>> = Vec::new();
    proof {
        assert(all.skip(0) =~= all);
        assert(entries_of(out@) =~= sort_desc(entries_of(all.take(0)), dim));
    }
    while rest.len() > 0
        invariant
            idx == dim.index_spec(),
            rest@.len() <= all.len(),
            rest@ == all.skip(all.len() - rest@.len()),
            entries_of(out@) == sort_desc(entries_of(all.take(all.len() - rest@.len())), dim),
            out@.len() + rest@.len() == all.len(),
            forall|j: int| 0 <= j < out@.len() ==> all.contains(out@[j]),
        decreases rest@.len(),
    {
        let ghost k = all.len() - rest@.len();
        let ghost out_snap = out@;
        let n = rest.remove(0);
        let ghost en_k = (all[k].key, all[k].item);
        proof {
            assert(all.skip(k)[0] == all[k]);
            assert(n == all[k]);
            assert(rest@ =~= all.skip(k + 1));
        }
        let c = n.key[idx];
        proof {
            assert(c as int == comp(en_k.0, dim));
        }
        let mut i: usize = 0;
        while i < out.len() && out[i].key[idx] >= c
            invariant
                idx == dim.index_spec(),
                i <= out@.len(),
                out@ == out_snap,
                c == n.key@[idx as int],
                forall|j: int| 0 <= j < i ==> comp(out@[j].key, dim) >= c as int,
            decreases out@.len() - i,
        {
            i += 1;
        }
        proof {
            let es = entries_of(out@);
            let p = insert_pos(es, c as int, dim);
            lemma_insert_pos(es, c as int, dim);
            assert forall|j: int| 0 <= j < i implies comp(es[j].0, dim) >= c as int by {
                assert(es[j].0 == out@[j].key);
            }
            if i < out@.len() {
                assert(es[i as int].0 == out@[i as int].key);
            }
            assert(i as int == p);
        }
        out.insert(i, n);
        proof {
            let es = entries_of(out_snap);
            let p = i as int;
            es.insert_ensures(p, en_k);
            assert(entries_of(out@) =~= insert_desc(es, en_k, dim));
            let prev = entries_of(all.take(k));
            let cur = entries_of(all.take(k + 1));
            assert(cur.drop_last() =~= prev);
            assert(cur.last() == en_k);
            assert(sort_desc(cur, dim) == insert_desc(sort_desc(prev, dim), cur.last(), dim));
            assert(entries_of(out@) == sort_desc(entries_of(all.take(all.len() - rest@.len())), dim));
            assert forall|j: int| 0 <= j < out@.len() implies all.contains(out@[j]) by {
                if j < p {
                    assert(out@[j] == out_snap[j]);
                } else if j > p {
                    assert(out@[j] == out_snap[j - 1]);
                } else {
                    assert(out@[j] == all[k]);
                }
            }
        }
    }
    proof {
        assert(all.take(all.len() - 0) =~= all);
        assert(entries_of(out@) == sort_desc(entries_of(all), dim));
    }
    out
}

} // verus!
