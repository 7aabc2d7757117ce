use crate::chunk_pointer::ChunkHandler;
use crate::key::Ordered;
use crate::model::{lemma_leaf_unique, sorted_keys, TreeModel};
use crate::search::routes;
use vstd::prelude::*;

verus! {

/// The child slot that the sorted separators `s` give to `k`: the number
/// of separators that are at most `k`.
pub open spec fn slot_of<K: Ordered>(s: Seq<K>, k: K) -> int
    decreases s.len(),
{
    if s.len() == 0 {
        0
    } else if k.key_lt(s.last()) {
        slot_of(s.drop_last(), k)
    } else {
        s.len() as int
    }
}

/// Sorted separators route every key to a slot.
pub proof fn lemma_slot_of<K: Ordered>(s: Seq<K>, k: K)
    requires
        sorted_keys(s),
    ensures
        routes(s, slot_of(s, k), k),
    decreases s.len(),
{
    if s.len() > 0 && k.key_lt(s.last()) {
        let d = s.drop_last();
        assert forall|i: int, j: int| 0 <= i < j < d.len() implies #[trigger] d[i].key_lt(d[j]) by {
            assert(s[i].key_lt(s[j]));
        }
        lemma_slot_of(d, k);
    }
}

impl<K: Ordered> TreeModel<K> {
    /// A leaf below node `n`, which is `lvl` levels above the leaves,
    /// holds the pair `p`.
    pub open spec fn under(self, n: int, p: (K, ChunkHandler), lvl: nat) -> bool
        decreases lvl,
    {
        if lvl == 0 {
            exists|j: int| #[trigger] self.holds(n, j, p)
        } else {
            self.is_inner(n) && exists|j: int|
                0 <= j < self.children(n).len() && self.under(
                    (#[trigger] self.children(n)[j]) as int,
                    p,
                    (lvl - 1) as nat,
                )
        }
    }
}

/// A pair below a node is a pair of the tree.
pub proof fn lemma_under_is_pair<K: Ordered>(
    m: TreeModel<K>,
    n: int,
    p: (K, ChunkHandler),
    lvl: nat,
)
    requires
        m.under(n, p, lvl),
    ensures
        m.pairs().contains(p),
    decreases lvl,
{
    if lvl == 0 {
        let j = choose|j: int| #[trigger] m.holds(n, j, p);
        assert(m.holds(n, j, p));
    } else {
        let j = choose|j: int|
            0 <= j < m.children(n).len() && m.under(
                (#[trigger] m.children(n)[j]) as int,
                p,
                (lvl - 1) as nat,
            );
        lemma_under_is_pair(m, m.children(n)[j] as int, p, (lvl - 1) as nat);
    }
}

/// A pair of the tree lies below every node whose range holds its key.
pub proof fn lemma_pair_is_under<K: Ordered>(
    m: TreeModel<K>,
    n: int,
    p: (K, ChunkHandler),
)
    requires
        m.inv(),
        m.is_node(n),
        m.in_range(n, p.0),
        m.pairs().contains(p),
    ensures
        m.under(n, p, m.level(n)),
    decreases m.level(n),
{
    let (l, j) = choose|l: int, j: int| #[trigger] m.holds(l, j, p);
    assert(m.local_ok(n));
    assert(m.local_ok(l));
    assert(m.in_range(l, m.entries(l)[j].0));
    if m.level(n) == 0 {
        lemma_leaf_unique(m, n, l, p.0);
        assert(m.holds(n, j, p));
    } else {
        let ks = m.keys(n);
        let slot = slot_of(ks, p.0);
        lemma_slot_of(ks, p.0);
        assert(m.children_ok(n));
        assert(m.slot_ok(n, slot));
        let c = m.children(n)[slot] as int;
        lemma_pair_is_under(m, c, p);
        assert(m.under(m.children(n)[slot] as int, p, (m.level(n) - 1) as nat));
    }
}

} // verus!
