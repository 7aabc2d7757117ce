use crate::chunk_pointer::ChunkHandler;
use crate::key::{lemma_le_lt, lemma_lt_le, lemma_trichotomy, Ordered};
use vstd::prelude::*;

verus! {

/// `lo <= k`, where no bound stands for minus infinity.
pub open spec fn lo_le<K: Ordered>(lo: Option<K>, k: K) -> bool {
    match lo {
        Some(l) => !k.key_lt(l),
        None => true,
    }
}

/// `lo < k`, where no bound stands for minus infinity.
pub open spec fn lo_lt<K: Ordered>(lo: Option<K>, k: K) -> bool {
    match lo {
        Some(l) => l.key_lt(k),
        None => true,
    }
}

/// `k < hi`, where no bound stands for plus infinity.
pub open spec fn lt_hi<K: Ordered>(k: K, hi: Option<K>) -> bool {
    match hi {
        Some(h) => k.key_lt(h),
        None => true,
    }
}

/// The half-open range from `lo` to `hi` holds at least `lo`.
pub open spec fn range_ok<K: Ordered>(lo: Option<K>, hi: Option<K>) -> bool {
    match (lo, hi) {
        (Some(l), Some(h)) => l.key_lt(h),
        _ => true,
    }
}

/// The keys ascend strictly.
pub open spec fn sorted_keys<K: Ordered>(s: Seq<K>) -> bool {
    forall|i: int, j: int| 0 <= i < j < s.len() ==> #[trigger] s[i].key_lt(s[j])
}

/// The entries' keys ascend strictly.
pub open spec fn sorted_entries<K: Ordered>(s: Seq<(K, ChunkHandler)>) -> bool {
    forall|i: int, j: int| 0 <= i < j < s.len() ==> #[trigger] s[i].0.key_lt(s[j].0)
}

/// The map that a set of pairs stands for. Where the set holds one value
/// for each key, the map gives that value.
pub open spec fn map_of<K>(pairs: Set<(K, ChunkHandler)>) -> Map<K, ChunkHandler> {
    Map::new(
        |k: K| exists|v: ChunkHandler| pairs.contains((k, v)),
        |k: K| choose|v: ChunkHandler| pairs.contains((k, v)),
    )
}

/// What a node holds, as mathematical sequences. Links are positions in the
/// sequence of all nodes.
pub enum NodeView<K> {
    Internal { keys: Seq<K>, children: Seq<usize> },
    Leaf { entries: Seq<(K, ChunkHandler)>, next: Option<usize> },
}

/// What the proofs record of a node beside its content: its height above
/// the leaves, the half-open range of keys that may lie below it, and the
/// node that lists it as a child.
pub struct Bounds<K> {
    pub level: nat,
    pub lo: Option<K>,
    pub hi: Option<K>,
    pub parent: int,
}

/// The tree as the proofs see it: every node, the bounds of every node, the
/// leaves in key order, the root and the branching parameter.
pub struct TreeModel<K> {
    pub nodes: Seq<NodeView<K>>,
    pub bounds: Seq<Bounds<K>>,
    pub chain: Seq<usize>,
    pub root: usize,
    pub t: usize,
}

impl<K: Ordered> TreeModel<K> {
    pub open spec fn is_node(self, n: int) -> bool {
        0 <= n < self.nodes.len()
    }

    pub open spec fn is_leaf(self, n: int) -> bool {
        self.is_node(n) && self.nodes[n] is Leaf
    }

    pub open spec fn is_inner(self, n: int) -> bool {
        self.is_node(n) && self.nodes[n] is Internal
    }

    pub open spec fn entries(self, n: int) -> Seq<(K, ChunkHandler)> {
        self.nodes[n]->entries
    }

    pub open spec fn next(self, n: int) -> Option<usize> {
        self.nodes[n]->next
    }

    pub open spec fn keys(self, n: int) -> Seq<K> {
        self.nodes[n]->keys
    }

    pub open spec fn children(self, n: int) -> Seq<usize> {
        self.nodes[n]->children
    }

    pub open spec fn level(self, n: int) -> nat {
        self.bounds[n].level
    }

    pub open spec fn lo(self, n: int) -> Option<K> {
        self.bounds[n].lo
    }

    pub open spec fn hi(self, n: int) -> Option<K> {
        self.bounds[n].hi
    }

    pub open spec fn parent(self, n: int) -> int {
        self.bounds[n].parent
    }

    /// `k` may lie below node `n`.
    pub open spec fn in_range(self, n: int, k: K) -> bool {
        lo_le(self.lo(n), k) && lt_hi(k, self.hi(n))
    }

    /// Key ordering within node `n`: its keys ascend strictly and lie in its
    /// range; an internal node has one child more than keys; leaves, and
    /// only leaves, are at level 0.
    pub open spec fn local_ok(self, n: int) -> bool {
        &&& range_ok(self.lo(n), self.hi(n))
        &&& match self.nodes[n] {
            NodeView::Leaf { entries, next } => {
                &&& self.level(n) == 0
                &&& sorted_entries(entries)
                &&& forall|j: int|
                    0 <= j < entries.len() ==> self.in_range(n, (#[trigger] entries[j]).0)
            },
            NodeView::Internal { keys, children } => {
                &&& self.level(n) > 0
                &&& sorted_keys(keys)
                &&& children.len() == keys.len() + 1
                &&& forall|j: int|
                    0 <= j < keys.len() ==> lo_lt(self.lo(n), #[trigger] keys[j]) && lt_hi(
                        keys[j],
                        self.hi(n),
                    )
            },
        }
    }

    /// The lower bound of child `j` of internal node `n`.
    pub open spec fn slot_lo(self, n: int, j: int) -> Option<K> {
        if j == 0 {
            self.lo(n)
        } else {
            Some(self.keys(n)[j - 1])
        }
    }

    /// The upper bound of child `j` of internal node `n`.
    pub open spec fn slot_hi(self, n: int, j: int) -> Option<K> {
        if j == self.keys(n).len() {
            self.hi(n)
        } else {
            Some(self.keys(n)[j])
        }
    }

    /// Child `j` of internal node `n` is a node one level below `n` that
    /// no other node lists, and its range is the gap between the
    /// separators on its two sides.
    pub open spec fn slot_ok(self, n: int, j: int) -> bool {
        let c = self.children(n)[j] as int;
        &&& self.is_node(c)
        &&& self.parent(c) == n
        &&& self.level(c) + 1 == self.level(n)
        &&& self.lo(c) == self.slot_lo(n, j)
        &&& self.hi(c) == self.slot_hi(n, j)
    }

    pub open spec fn children_ok(self, n: int) -> bool {
        self.nodes[n] is Internal ==> forall|j: int|
            0 <= j < self.children(n).len() ==> #[trigger] self.slot_ok(n, j)
    }

    /// Fanout bounds of a node that is not the root.
    pub open spec fn inner_size_ok(self, n: int) -> bool {
        match self.nodes[n] {
            NodeView::Leaf { entries, next } => self.t <= entries.len() <= 2 * self.t - 1,
            NodeView::Internal { keys, children } => self.t - 1 <= keys.len() <= 2 * self.t - 2,
        }
    }

    /// Fanout bounds: a node holds at most `2t - 1` entries (leaf) or
    /// `2t - 2` keys (internal) between operations; one that is not the
    /// root holds at least `t` entries or `t - 1` keys; an internal root
    /// holds at least one key.
    pub open spec fn size_ok(self, n: int) -> bool {
        if n == self.root {
            match self.nodes[n] {
                NodeView::Leaf { entries, next } => entries.len() <= 2 * self.t - 1,
                NodeView::Internal { keys, children } => 1 <= keys.len() <= 2 * self.t - 2,
            }
        } else {
            self.inner_size_ok(n)
        }
    }

    /// Position `i` of the chain is a leaf whose range ends where the range
    /// of the leaf at the following position, if there is one, begins.
    pub open spec fn tile_ok(self, i: int) -> bool {
        let n = self.chain[i] as int;
        &&& self.is_leaf(n)
        &&& i + 1 < self.chain.len() ==> self.hi(n) is Some && self.hi(n) == self.lo(
            self.chain[i + 1] as int,
        )
    }

    /// The `next` of the leaf at position `i` of the chain is the leaf at
    /// the following position, and none at the last position.
    pub open spec fn link_ok(self, i: int) -> bool {
        self.next(self.chain[i] as int) == (if i + 1 < self.chain.len() {
            Some(self.chain[i + 1])
        } else {
            None
        })
    }

    /// Position `i` of the chain is a leaf whose `next` is the leaf at the
    /// following position, if there is one, and whose range ends where
    /// that leaf's range begins.
    pub open spec fn chain_at_ok(self, i: int) -> bool {
        self.tile_ok(i) && self.link_ok(i)
    }

    /// Node `n`, if it is a leaf, is in the chain.
    pub open spec fn leaf_in_chain(self, n: int) -> bool {
        self.nodes[n] is Leaf ==> exists|i: int|
            0 <= i < self.chain.len() && #[trigger] self.chain[i] as int == n
    }

    /// Leaf linkage: `chain` lists every leaf once, each leaf's `next` is
    /// the leaf after it and the last has none, and the ranges of the
    /// leaves tile the keys in that order.
    pub open spec fn chain_ok(self) -> bool {
        &&& self.chain.len() >= 1
        &&& self.chain.no_duplicates()
        &&& forall|i: int| 0 <= i < self.chain.len() ==> #[trigger] self.chain_at_ok(i)
        &&& forall|n: int| 0 <= n < self.nodes.len() ==> #[trigger] self.leaf_in_chain(n)
        &&& self.lo(self.chain[0] as int) is None
        &&& self.hi(self.chain.last() as int) is None
    }

    /// The chain lists every leaf once, and the ranges of the leaves tile
    /// the keys in its order. Nothing is said of the links.
    pub open spec fn chain_shape(self) -> bool {
        &&& self.chain.len() >= 1
        &&& self.chain.no_duplicates()
        &&& forall|i: int| 0 <= i < self.chain.len() ==> #[trigger] self.tile_ok(i)
        &&& forall|n: int| 0 <= n < self.nodes.len() ==> #[trigger] self.leaf_in_chain(n)
        &&& self.lo(self.chain[0] as int) is None
        &&& self.hi(self.chain.last() as int) is None
    }

    /// What holds of the nodes one by one at every moment.
    pub open spec fn nodes_ok(self) -> bool {
        &&& self.t >= 2
        &&& 2 * self.t <= usize::MAX
        &&& self.nodes.len() == self.bounds.len()
        &&& self.nodes.len() <= usize::MAX
        &&& self.root < self.nodes.len()
        &&& forall|n: int| 0 <= n < self.nodes.len() ==> #[trigger] self.local_ok(n)
    }

    /// What holds of the tree at every moment, also in the middle of an
    /// insertion.
    pub open spec fn base_ok(self) -> bool {
        &&& self.nodes_ok()
        &&& self.chain_ok()
    }

    /// What holds of a tree whose leaves have not been linked: all that
    /// holds between operations, but that every leaf's `next` is none.
    pub open spec fn loose_inv(self) -> bool {
        &&& self.nodes_ok()
        &&& self.chain_shape()
        &&& self.lo(self.root as int) is None
        &&& self.hi(self.root as int) is None
        &&& forall|n: int| 0 <= n < self.nodes.len() ==> #[trigger] self.size_ok(n)
        &&& forall|n: int| 0 <= n < self.nodes.len() ==> #[trigger] self.children_ok(n)
        &&& forall|n: int|
            0 <= n < self.nodes.len() && self.nodes[n] is Leaf ==> (#[trigger] self.next(n)) is None
    }

    /// What holds of the tree between operations: key ordering, arity,
    /// fanout bounds, uniform depth and leaf linkage.
    pub open spec fn inv(self) -> bool {
        &&& self.base_ok()
        &&& self.lo(self.root as int) is None
        &&& self.hi(self.root as int) is None
        &&& forall|n: int| 0 <= n < self.nodes.len() ==> #[trigger] self.size_ok(n)
        &&& forall|n: int| 0 <= n < self.nodes.len() ==> #[trigger] self.children_ok(n)
    }

    /// Position `j` of leaf `n` holds the pair `p`.
    pub open spec fn holds(self, n: int, j: int, p: (K, ChunkHandler)) -> bool {
        self.is_leaf(n) && 0 <= j < self.entries(n).len() && self.entries(n)[j] == p
    }

    /// Every pair that some leaf holds.
    pub open spec fn pairs(self) -> Set<(K, ChunkHandler)> {
        Set::new(|p: (K, ChunkHandler)| exists|n: int, j: int| #[trigger] self.holds(n, j, p))
    }

    /// The map from keys to handles that the leaves hold.
    pub open spec fn view_map(self) -> Map<K, ChunkHandler> {
        map_of(self.pairs())
    }
}

/// Of two leaves in chain order, the range of the first ends no later than
/// that of the second begins.
pub proof fn lemma_tiles_ascend<K: Ordered>(m: TreeModel<K>, i: int, j: int)
    requires
        m.nodes_ok(),
        m.chain_shape(),
        0 <= i < j < m.chain.len(),
    ensures
        m.hi(m.chain[i] as int) is Some,
        m.lo(m.chain[j] as int) is Some,
        !m.lo(m.chain[j] as int).unwrap().key_lt(m.hi(m.chain[i] as int).unwrap()),
    decreases j - i,
{
    assert(m.tile_ok(i));
    if j == i + 1 {
        lemma_trichotomy(m.hi(m.chain[i] as int).unwrap(), m.hi(m.chain[i] as int).unwrap());
    } else {
        lemma_tiles_ascend(m, i, j - 1);
        let a = m.chain[j - 1] as int;
        assert(m.tile_ok(j - 1));
        assert(m.local_ok(a));
        let h = m.hi(m.chain[i] as int).unwrap();
        lemma_le_lt(h, m.lo(a).unwrap(), m.hi(a).unwrap());
        lemma_trichotomy(h, m.hi(a).unwrap());
    }
}

/// The chain of a tree has the shape of a chain.
pub proof fn lemma_chain_shape<K: Ordered>(m: TreeModel<K>)
    requires
        m.chain_ok(),
    ensures
        m.chain_shape(),
{
    assert forall|i: int| 0 <= i < m.chain.len() implies #[trigger] m.tile_ok(i) by {
        assert(m.chain_at_ok(i));
    }
}

/// Of two leaves in chain order, the range of the first ends no later than
/// that of the second begins.
pub proof fn lemma_chain_order<K: Ordered>(m: TreeModel<K>, i: int, j: int)
    requires
        m.base_ok(),
        0 <= i < j < m.chain.len(),
    ensures
        m.hi(m.chain[i] as int) is Some,
        m.lo(m.chain[j] as int) is Some,
        !m.lo(m.chain[j] as int).unwrap().key_lt(m.hi(m.chain[i] as int).unwrap()),
{
    lemma_chain_shape(m);
    lemma_tiles_ascend(m, i, j);
}

/// No key lies in the range of two leaves.
pub proof fn lemma_leaf_unique<K: Ordered>(m: TreeModel<K>, a: int, b: int, k: K)
    requires
        m.base_ok(),
        m.is_leaf(a),
        m.is_leaf(b),
        m.in_range(a, k),
        m.in_range(b, k),
    ensures
        a == b,
{
    assert(m.leaf_in_chain(a));
    assert(m.leaf_in_chain(b));
    let i = choose|i: int| 0 <= i < m.chain.len() && #[trigger] m.chain[i] as int == a;
    let j = choose|j: int| 0 <= j < m.chain.len() && #[trigger] m.chain[j] as int == b;
    if i < j {
        lemma_chain_order(m, i, j);
        lemma_lt_le(k, m.hi(a).unwrap(), m.lo(b).unwrap());
    } else if j < i {
        lemma_chain_order(m, j, i);
        lemma_lt_le(k, m.hi(b).unwrap(), m.lo(a).unwrap());
    }
}

/// The leaves hold at most one pair for a key.
pub proof fn lemma_pairs_functional<K: Ordered>(
    m: TreeModel<K>,
    k: K,
    v1: ChunkHandler,
    v2: ChunkHandler,
)
    requires
        m.base_ok(),
        m.pairs().contains((k, v1)),
        m.pairs().contains((k, v2)),
    ensures
        v1 == v2,
{
    let (n1, j1) = choose|n: int, j: int| #[trigger] m.holds(n, j, (k, v1));
    let (n2, j2) = choose|n: int, j: int| #[trigger] m.holds(n, j, (k, v2));
    assert(m.local_ok(n1));
    assert(m.local_ok(n2));
    assert(m.in_range(n1, m.entries(n1)[j1].0));
    assert(m.in_range(n2, m.entries(n2)[j2].0));
    lemma_leaf_unique(m, n1, n2, k);
    lemma_trichotomy(k, k);
    if j1 < j2 {
        assert(m.entries(n1)[j1].0.key_lt(m.entries(n1)[j2].0));
    } else if j2 < j1 {
        assert(m.entries(n1)[j2].0.key_lt(m.entries(n1)[j1].0));
    }
}

/// A pair that a leaf holds is a pair of the map.
pub proof fn lemma_view_at<K: Ordered>(m: TreeModel<K>, n: int, j: int)
    requires
        m.base_ok(),
        m.is_leaf(n),
        0 <= j < m.entries(n).len(),
    ensures
        m.view_map().contains_key(m.entries(n)[j].0),
        m.view_map()[m.entries(n)[j].0] == m.entries(n)[j].1,
{
    let p = m.entries(n)[j];
    assert(m.holds(n, j, p));
    assert(m.pairs().contains((p.0, p.1)));
    let v = choose|v: ChunkHandler| m.pairs().contains((p.0, v));
    lemma_pairs_functional(m, p.0, v, p.1);
}

/// A key that is missing from the one leaf whose range holds it is missing
/// from the map.
pub proof fn lemma_view_absent<K: Ordered>(m: TreeModel<K>, n: int, k: K)
    requires
        m.base_ok(),
        m.is_leaf(n),
        m.in_range(n, k),
        forall|j: int| 0 <= j < m.entries(n).len() ==> (#[trigger] m.entries(n)[j]).0 != k,
    ensures
        !m.view_map().contains_key(k),
{
    if m.view_map().contains_key(k) {
        let v = choose|v: ChunkHandler| m.pairs().contains((k, v));
        let (n1, j1) = choose|n: int, j: int| #[trigger] m.holds(n, j, (k, v));
        assert(m.local_ok(n1));
        assert(m.in_range(n1, m.entries(n1)[j1].0));
        lemma_leaf_unique(m, n1, n, k);
    }
}

} // verus!
