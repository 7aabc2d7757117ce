use crate::chunk_pointer::ChunkHandler;
use crate::key::{lemma_lt_le, lemma_trichotomy, Ordered};
use crate::model::{lemma_tiles_ascend, NodeView, TreeModel};
use vstd::prelude::*;

verus! {

impl<K: Ordered> TreeModel<K> {
    /// The first key of leaf `n`.
    pub open spec fn first_key(self, n: int) -> K {
        self.entries(n)[0].0
    }

    /// The leaves `s` ascend strictly by their first keys.
    pub open spec fn sorted_by_first(self, s: Seq<usize>) -> bool {
        forall|a: int, b: int|
            0 <= a < b < s.len() ==> self.first_key(#[trigger] s[a] as int).key_lt(
                self.first_key(#[trigger] s[b] as int),
            )
    }

    /// `linked` is this tree with other links between the leaves and
    /// nothing else changed.
    pub open spec fn same_but_links(self, linked: Self) -> bool {
        &&& linked.nodes.len() == self.nodes.len()
        &&& linked.bounds == self.bounds
        &&& linked.chain == self.chain
        &&& linked.root == self.root
        &&& linked.t == self.t
        &&& forall|n: int|
            0 <= n < self.nodes.len() ==> match #[trigger] self.nodes[n] {
                NodeView::Internal { keys, children } => linked.nodes[n] == self.nodes[n],
                NodeView::Leaf { entries, next } => linked.nodes[n] is Leaf && linked.entries(n)
                    == entries,
            }
    }
}

/// Where no leaf is empty, the first keys of the leaves ascend along the
/// chain.
pub proof fn lemma_first_keys_ascend<K: Ordered>(m: TreeModel<K>, i: int, j: int)
    requires
        m.nodes_ok(),
        m.chain_shape(),
        0 <= i < j < m.chain.len(),
        m.entries(m.chain[i] as int).len() > 0,
        m.entries(m.chain[j] as int).len() > 0,
    ensures
        m.first_key(m.chain[i] as int).key_lt(m.first_key(m.chain[j] as int)),
{
    let a = m.chain[i] as int;
    let b = m.chain[j] as int;
    assert(m.tile_ok(i));
    assert(m.tile_ok(j));
    assert(m.local_ok(a));
    assert(m.local_ok(b));
    assert(m.in_range(a, m.entries(a)[0].0));
    assert(m.in_range(b, m.entries(b)[0].0));
    lemma_tiles_ascend(m, i, j);
    lemma_lt_le(m.first_key(a), m.hi(a).unwrap(), m.lo(b).unwrap());
    lemma_lt_le(m.first_key(a), m.lo(b).unwrap(), m.first_key(b));
}

/// Two rows of the same leaves that both ascend by first key are one row.
pub proof fn lemma_same_order<K: Ordered>(m: TreeModel<K>, a: Seq<usize>, b: Seq<usize>)
    requires
        m.sorted_by_first(a),
        m.sorted_by_first(b),
        forall|x: usize| a.contains(x) <==> b.contains(x),
    ensures
        a == b,
    decreases a.len(),
{
    if a.len() == 0 {
        if b.len() > 0 {
            assert(b.contains(b[0]));
        }
        assert(a =~= b);
    } else {
        assert(a.contains(a[0]));
        let j = choose|j: int| 0 <= j < b.len() && b[j] == a[0];
        assert(b.contains(b[0]));
        let i = choose|i: int| 0 <= i < a.len() && a[i] == b[0];
        lemma_trichotomy(m.first_key(a[0] as int), m.first_key(b[0] as int));
        if i > 0 {
            assert(m.first_key(a[0] as int).key_lt(m.first_key(a[i] as int)));
        }
        if j > 0 {
            assert(m.first_key(b[0] as int).key_lt(m.first_key(b[j] as int)));
        }
        assert(a[0] == b[0]);
        let a2 = a.skip(1);
        let b2 = b.skip(1);
        assert forall|x: usize| a2.contains(x) <==> b2.contains(x) by {
            lemma_trichotomy(m.first_key(x as int), m.first_key(x as int));
            if a2.contains(x) {
                let u = choose|u: int| 0 <= u < a2.len() && a2[u] == x;
                assert(a[u + 1] == x);
                assert(m.first_key(a[0] as int).key_lt(m.first_key(a[u + 1] as int)));
                assert(a.contains(x));
                let v = choose|v: int| 0 <= v < b.len() && b[v] == x;
                assert(v > 0);
                assert(b2[v - 1] == x);
            }
            if b2.contains(x) {
                let u = choose|u: int| 0 <= u < b2.len() && b2[u] == x;
                assert(b[u + 1] == x);
                assert(m.first_key(b[0] as int).key_lt(m.first_key(b[u + 1] as int)));
                assert(b.contains(x));
                let v = choose|v: int| 0 <= v < a.len() && a[v] == x;
                assert(v > 0);
                assert(a2[v - 1] == x);
            }
        }
        assert forall|u: int, v: int| 0 <= u < v < a2.len() implies m.first_key(
            #[trigger] a2[u] as int,
        ).key_lt(m.first_key(#[trigger] a2[v] as int)) by {
            assert(m.first_key(a[u + 1] as int).key_lt(m.first_key(a[v + 1] as int)));
        }
        assert forall|u: int, v: int| 0 <= u < v < b2.len() implies m.first_key(
            #[trigger] b2[u] as int,
        ).key_lt(m.first_key(#[trigger] b2[v] as int)) by {
            assert(m.first_key(b[u + 1] as int).key_lt(m.first_key(b[v + 1] as int)));
        }
        lemma_same_order(m, a2, b2);
        assert(a =~= seq![a[0]] + a2);
        assert(b =~= seq![b[0]] + b2);
    }
}

/// Linking the leaves of an unlinked tree along its chain makes it a tree
/// and keeps every pair.
pub proof fn lemma_relinked<K: Ordered>(m: TreeModel<K>, m2: TreeModel<K>)
    requires
        m.loose_inv(),
        m.same_but_links(m2),
        forall|i: int| 0 <= i < m2.chain.len() ==> #[trigger] m2.link_ok(i),
    ensures
        m2.inv(),
        m2.pairs() == m.pairs(),
{
    assert forall|n: int| 0 <= n < m2.nodes.len() implies #[trigger] m2.local_ok(n) by {
        assert(m.local_ok(n));
        assert(m2.nodes[n] == m2.nodes[n] && m.nodes[n] == #[trigger] m.nodes[n]);
    }
    assert forall|n: int| 0 <= n < m2.nodes.len() implies #[trigger] m2.size_ok(n) by {
        assert(m.size_ok(n));
        assert(m.nodes[n] == #[trigger] m.nodes[n]);
    }
    assert forall|n: int| 0 <= n < m2.nodes.len() implies #[trigger] m2.children_ok(n) by {
        assert(m.children_ok(n));
        assert(m.nodes[n] == #[trigger] m.nodes[n]);
        if m.nodes[n] is Internal {
            assert forall|j: int| 0 <= j < m2.children(n).len() implies #[trigger] m2.slot_ok(
                n,
                j,
            ) by {
                assert(m.slot_ok(n, j));
            }
        }
    }
    assert forall|i: int| 0 <= i < m2.chain.len() implies #[trigger] m2.chain_at_ok(i) by {
        assert(m.tile_ok(i));
        assert(m2.link_ok(i));
        let n = m.chain[i] as int;
        assert(m.nodes[n] == #[trigger] m.nodes[n]);
    }
    assert forall|n: int| 0 <= n < m2.nodes.len() implies #[trigger] m2.leaf_in_chain(n) by {
        assert(m.leaf_in_chain(n));
        assert(m.nodes[n] == #[trigger] m.nodes[n]);
    }
    assert forall|q: (K, ChunkHandler)| m2.pairs().contains(q) <==> m.pairs().contains(q) by {
        if m2.pairs().contains(q) {
            let (n1, j1) = choose|n1: int, j1: int| #[trigger] m2.holds(n1, j1, q);
            assert(m.nodes[n1] == #[trigger] m.nodes[n1]);
            assert(m.holds(n1, j1, q));
        }
        if m.pairs().contains(q) {
            let (n1, j1) = choose|n1: int, j1: int| #[trigger] m.holds(n1, j1, q);
            assert(m.nodes[n1] == #[trigger] m.nodes[n1]);
            assert(m2.holds(n1, j1, q));
        }
    }
    assert(m2.pairs() =~= m.pairs());
}

} // verus!
