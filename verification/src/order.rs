use crate::chunk_pointer::ChunkHandler;
use crate::key::{lemma_lt_le, lemma_lt_lt, lemma_trichotomy, Ordered};
use crate::model::{lt_hi, sorted_entries, TreeModel};
use vstd::prelude::*;

verus! {

impl<K: Ordered> TreeModel<K> {
    /// The entries of the first `i` leaves of the chain, one leaf after
    /// the other.
    pub open spec fn entries_upto(self, i: int) -> Seq<(K, ChunkHandler)>
        decreases i,
    {
        if i <= 0 {
            Seq::empty()
        } else {
            self.entries_upto(i - 1) + self.entries(self.chain[i - 1] as int)
        }
    }

    /// Every entry of the tree, as a walk along the chain of leaves meets
    /// them.
    pub open spec fn ordered(self) -> Seq<(K, ChunkHandler)> {
        self.entries_upto(self.chain.len() as int)
    }

    /// One of the first `i` leaves of the chain holds the pair `p`.
    pub open spec fn among(self, i: int, p: (K, ChunkHandler)) -> bool {
        exists|a: int, j: int| 0 <= a < i && #[trigger] self.holds(self.chain[a] as int, j, p)
    }
}

/// The entries of the first `i` leaves ascend strictly by key, stay below
/// the upper bound of leaf `i - 1`, and are the pairs that those leaves
/// hold.
pub proof fn lemma_upto<K: Ordered>(m: TreeModel<K>, i: int)
    requires
        m.base_ok(),
        0 <= i <= m.chain.len(),
    ensures
        sorted_entries(m.entries_upto(i)),
        i > 0 ==> forall|x: int|
            0 <= x < m.entries_upto(i).len() ==> lt_hi(
                (#[trigger] m.entries_upto(i)[x]).0,
                m.hi(m.chain[i - 1] as int),
            ),
        forall|p: (K, ChunkHandler)| m.entries_upto(i).contains(p) <==> m.among(i, p),
    decreases i,
{
    let s = m.entries_upto(i);
    if i == 0 {
        assert forall|p: (K, ChunkHandler)| s.contains(p) <==> m.among(i, p) by {}
    } else {
        lemma_upto(m, i - 1);
        let prev = m.entries_upto(i - 1);
        let n = m.chain[i - 1] as int;
        let e = m.entries(n);
        assert(m.chain_at_ok(i - 1));
        assert(m.local_ok(n));
        assert(s == prev + e);
        if i > 1 {
            assert(m.chain_at_ok(i - 2));
        }
        // Every earlier key lies below the lower bound of leaf `i - 1`.
        assert forall|x: int, y: int| 0 <= x < prev.len() && 0 <= y < e.len() implies (
        #[trigger] prev[x]).0.key_lt((#[trigger] e[y]).0) by {
            assert(m.in_range(n, e[y].0));
            let b = m.lo(n).unwrap();
            lemma_lt_le(prev[x].0, b, e[y].0);
        }
        assert forall|x: int, y: int| 0 <= x < y < s.len() implies #[trigger] s[x].0.key_lt(
            s[y].0,
        ) by {
            if y < prev.len() {
                assert(prev[x].0.key_lt(prev[y].0));
            } else if x >= prev.len() {
                assert(e[x - prev.len()].0.key_lt(e[y - prev.len()].0));
            } else {
                assert(prev[x].0.key_lt(e[y - prev.len()].0));
            }
        }
        assert forall|x: int| 0 <= x < s.len() implies lt_hi((#[trigger] s[x]).0, m.hi(n)) by {
            if x < prev.len() {
                if m.hi(n) is Some {
                    let b = m.lo(n).unwrap();
                    assert(lt_hi(prev[x].0, Some(b)));
                    lemma_lt_lt(prev[x].0, b, m.hi(n).unwrap());
                }
            } else {
                assert(m.in_range(n, e[x - prev.len()].0));
            }
        }
        assert forall|p: (K, ChunkHandler)| s.contains(p) <==> m.among(i, p) by {
            if s.contains(p) {
                let x = choose|x: int| 0 <= x < s.len() && s[x] == p;
                if x < prev.len() {
                    assert(prev[x] == p);
                    assert(prev.contains(p));
                    assert(m.among(i - 1, p));
                    let (a, j) = choose|a: int, j: int|
                        0 <= a < i - 1 && #[trigger] m.holds(m.chain[a] as int, j, p);
                    assert(m.holds(m.chain[a] as int, j, p));
                } else {
                    assert(m.holds(m.chain[i - 1] as int, x - prev.len(), p));
                }
            }
            if m.among(i, p) {
                let (a, j) = choose|a: int, j: int|
                    0 <= a < i && #[trigger] m.holds(m.chain[a] as int, j, p);
                if a < i - 1 {
                    assert(m.among(i - 1, p));
                    assert(prev.contains(p));
                    let x = choose|x: int| 0 <= x < prev.len() && prev[x] == p;
                    assert(s[x] == p);
                } else {
                    assert(s[prev.len() + j] == p);
                }
            }
        }
    }
}

/// The walk along the chain meets every pair of the map once, in
/// ascending order of the keys.
pub proof fn lemma_ordered<K: Ordered>(m: TreeModel<K>)
    requires
        m.base_ok(),
    ensures
        sorted_entries(m.ordered()),
        forall|p: (K, ChunkHandler)| m.ordered().contains(p) <==> m.pairs().contains(p),
        forall|x: int|
            0 <= x < m.ordered().len() ==> m.view_map().contains_key((#[trigger] m.ordered()[x]).0)
                && m.view_map()[m.ordered()[x].0] == m.ordered()[x].1,
        forall|k: K|
            m.view_map().contains_key(k) ==> exists|x: int|
                0 <= x < m.ordered().len() && (#[trigger] m.ordered()[x]).0 == k,
        m.view_map().dom().finite(),
        m.view_map().dom().len() == m.ordered().len(),
{
    let s = m.ordered();
    let n = m.chain.len() as int;
    lemma_upto(m, n);
    assert forall|p: (K, ChunkHandler)| s.contains(p) <==> m.pairs().contains(p) by {
        if s.contains(p) {
            assert(m.among(n, p));
            let (a, j) = choose|a: int, j: int|
                0 <= a < n && #[trigger] m.holds(m.chain[a] as int, j, p);
            assert(m.holds(m.chain[a] as int, j, p));
        }
        if m.pairs().contains(p) {
            let (l, j) = choose|l: int, j: int| #[trigger] m.holds(l, j, p);
            assert(m.leaf_in_chain(l));
            let a = choose|a: int| 0 <= a < m.chain.len() && #[trigger] m.chain[a] as int == l;
            assert(m.holds(m.chain[a] as int, j, p));
            assert(m.among(n, p));
        }
    }
    assert forall|x: int| 0 <= x < s.len() implies m.view_map().contains_key((#[trigger] s[x]).0)
        && m.view_map()[s[x].0] == s[x].1 by {
        let p = s[x];
        assert(s.contains(p));
        assert(m.pairs().contains((p.0, p.1)));
        let v = choose|v: ChunkHandler| m.pairs().contains((p.0, v));
        crate::model::lemma_pairs_functional(m, p.0, v, p.1);
    }
    assert forall|k: K| m.view_map().contains_key(k) implies exists|x: int|
        0 <= x < s.len() && (#[trigger] s[x]).0 == k by {
        let v = choose|v: ChunkHandler| m.pairs().contains((k, v));
        assert(s.contains((k, v)));
        let x = choose|x: int| 0 <= x < s.len() && s[x] == (k, v);
        assert(s[x].0 == k);
    }
    // Counting: the keys of the walk are distinct and are the domain.
    let ks = s.map_values(|p: (K, ChunkHandler)| p.0);
    assert(ks.no_duplicates()) by {
        assert forall|x: int, y: int| 0 <= x < ks.len() && 0 <= y < ks.len() && x != y implies ks[x]
            != ks[y] by {
            lemma_trichotomy(s[x].0, s[x].0);
            if x < y {
                assert(s[x].0.key_lt(s[y].0));
            } else {
                assert(s[y].0.key_lt(s[x].0));
            }
        }
    }
    assert(ks.to_set() =~= m.view_map().dom()) by {
        assert forall|k: K| ks.to_set().contains(k) <==> m.view_map().dom().contains(k) by {
            if ks.to_set().contains(k) {
                let x = choose|x: int| 0 <= x < ks.len() && ks[x] == k;
                assert(s[x].0 == k);
            }
            if m.view_map().dom().contains(k) {
                let x = choose|x: int| 0 <= x < s.len() && (#[trigger] s[x]).0 == k;
                assert(ks[x] == k);
            }
        }
    }
    ks.unique_seq_to_set();
    vstd::seq_lib::seq_to_set_is_finite(ks);
}

/// The entries of the first `a` leaves begin the entries of the first `b`
/// leaves, for `a <= b`.
pub proof fn lemma_upto_prefix<K: Ordered>(m: TreeModel<K>, a: int, b: int)
    requires
        0 <= a <= b,
    ensures
        m.entries_upto(a).len() <= m.entries_upto(b).len(),
        m.entries_upto(b).subrange(0, m.entries_upto(a).len() as int) == m.entries_upto(a),
    decreases b - a,
{
    if a < b {
        lemma_upto_prefix(m, a, b - 1);
        let prev = m.entries_upto(b - 1);
        let e = m.entries(m.chain[b - 1] as int);
        assert(m.entries_upto(b) == prev + e);
        assert(m.entries_upto(b).subrange(0, m.entries_upto(a).len() as int) =~= prev.subrange(
            0,
            m.entries_upto(a).len() as int,
        ));
    } else {
        assert(m.entries_upto(b).subrange(0, m.entries_upto(a).len() as int) =~= m.entries_upto(a));
    }
}

/// Entry `j` of leaf `a` of the chain is entry number `j` after the
/// entries of the leaves before it in the walk along the chain.
pub proof fn lemma_ordered_at<K: Ordered>(m: TreeModel<K>, a: int, j: int)
    requires
        0 <= a < m.chain.len(),
        0 <= j < m.entries(m.chain[a] as int).len(),
    ensures
        m.entries_upto(a).len() + j < m.ordered().len(),
        m.ordered()[m.entries_upto(a).len() + j] == m.entries(m.chain[a] as int)[j],
{
    let n = m.chain.len() as int;
    lemma_upto_prefix(m, a + 1, n);
    let e = m.entries(m.chain[a] as int);
    let next = m.entries_upto(a + 1);
    assert(next == m.entries_upto(a) + e);
    let x = m.entries_upto(a).len() + j;
    assert(next[x] == e[j]);
    assert(m.ordered().subrange(0, next.len() as int)[x] == m.ordered()[x]);
}

} // verus!
