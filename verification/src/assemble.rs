use crate::chunk_pointer::ChunkHandler;
use crate::key::Ordered;
use crate::model::{lo_le, lo_lt, lt_hi, range_ok, sorted_entries, sorted_keys, Bounds, NodeView, TreeModel};
use vstd::prelude::*;

verus! {

/// The lower bound of child `j` of a node with the separators `keys` and
/// the lower bound `lo`.
pub open spec fn bound_lo<K>(keys: Seq<K>, lo: Option<K>, j: int) -> Option<K> {
    if j == 0 {
        lo
    } else {
        Some(keys[j - 1])
    }
}

/// The upper bound of child `j` of a node with the separators `keys` and
/// the upper bound `hi`.
pub open spec fn bound_hi<K>(keys: Seq<K>, hi: Option<K>, j: int) -> Option<K> {
    if j == keys.len() {
        hi
    } else {
        Some(keys[j])
    }
}

impl<K: Ordered> TreeModel<K> {
    /// Fanout bounds of the root.
    pub open spec fn root_size_ok(self, n: int) -> bool {
        match self.nodes[n] {
            NodeView::Leaf { entries, next } => entries.len() <= 2 * self.t - 1,
            NodeView::Internal { keys, children } => 1 <= keys.len() <= 2 * self.t - 2,
        }
    }

    /// What holds of the nodes while a tree is put together from the
    /// bottom up, left to right: every node is in order, every node but
    /// `top` meets the fanout bounds of a node that is not the root, no
    /// leaf is linked, and the leaves so far tile the keys from minus
    /// infinity on.
    pub open spec fn partial(self, top: int) -> bool {
        &&& self.t >= 2
        &&& 2 * self.t <= usize::MAX
        &&& self.nodes.len() == self.bounds.len()
        &&& self.nodes.len() <= usize::MAX
        &&& forall|n: int| 0 <= n < self.nodes.len() ==> #[trigger] self.local_ok(n)
        &&& forall|n: int| 0 <= n < self.nodes.len() ==> #[trigger] self.children_ok(n)
        &&& forall|n: int|
            0 <= n < self.nodes.len() && n != top ==> #[trigger] self.inner_size_ok(n)
        &&& 0 <= top < self.nodes.len() ==> self.root_size_ok(top)
        &&& forall|n: int|
            0 <= n < self.nodes.len() && self.nodes[n] is Leaf ==> (#[trigger] self.next(n)) is None
        &&& self.chain.no_duplicates()
        &&& forall|i: int| 0 <= i < self.chain.len() ==> #[trigger] self.tile_ok(i)
        &&& forall|n: int| 0 <= n < self.nodes.len() ==> #[trigger] self.leaf_in_chain(n)
        &&& self.chain.len() > 0 ==> self.lo(self.chain[0] as int) is None
    }

    /// The next leaf may begin at `lo`: at minus infinity where there is
    /// no leaf yet, else where the last leaf ends.
    pub open spec fn continues_at(self, lo: Option<K>) -> bool {
        if self.chain.len() == 0 {
            lo is None
        } else {
            lo is Some && self.hi(self.chain.last() as int) == lo
        }
    }

    /// `later` has every node of `self` unchanged, and more.
    pub open spec fn extended_by(self, later: Self) -> bool {
        &&& later.t == self.t
        &&& later.nodes.len() > self.nodes.len()
        &&& later.bounds.len() == later.nodes.len()
        &&& forall|n: int|
            0 <= n < self.nodes.len() ==> later.nodes[n] == #[trigger] self.nodes[n]
        &&& forall|n: int|
            0 <= n < self.bounds.len() ==> later.bounds[n] == #[trigger] self.bounds[n]
        &&& later.chain.len() > self.chain.len()
        &&& later.chain.subrange(0, self.chain.len() as int) == self.chain
    }

    /// The tree with one more leaf, which is unlinked and comes last in the
    /// chain.
    pub open spec fn push_leaf(self, e: Seq<(K, ChunkHandler)>, lo: Option<K>, hi: Option<K>) -> Self {
        TreeModel {
            nodes: self.nodes.push(NodeView::Leaf { entries: e, next: None }),
            bounds: self.bounds.push(Bounds { level: 0, lo, hi, parent: -1 }),
            chain: self.chain.push(self.nodes.len() as usize),
            ..self
        }
    }

    /// The tree with one more internal node, whose children are nodes that
    /// had no parent.
    pub open spec fn push_inner(
        self,
        ks: Seq<K>,
        cs: Seq<usize>,
        lo: Option<K>,
        hi: Option<K>,
        lvl: nat,
    ) -> Self {
        let top = self.nodes.len() as int;
        TreeModel {
            nodes: self.nodes.push(NodeView::Internal { keys: ks, children: cs }),
            bounds: Seq::new(
                self.bounds.len() + 1,
                |x: int|
                    if x == top {
                        Bounds { level: lvl, lo, hi, parent: -1 }
                    } else if cs.contains(x as usize) {
                        Bounds {
                            level: self.level(x),
                            lo: self.lo(x),
                            hi: self.hi(x),
                            parent: top,
                        }
                    } else {
                        self.bounds[x]
                    },
            ),
            ..self
        }
    }

    /// Some node from position `from` on holds the pair `p`.
    pub open spec fn holds_from(self, from: int, p: (K, ChunkHandler)) -> bool {
        exists|n: int, j: int| from <= n && #[trigger] self.holds(n, j, p)
    }

    /// The tree with `root` as its root.
    pub open spec fn rooted_at(self, root: usize) -> Self {
        TreeModel { root, ..self }
    }
}

/// One more leaf keeps the nodes in order.
pub proof fn lemma_push_leaf<K: Ordered>(
    m: TreeModel<K>,
    e: Seq<(K, ChunkHandler)>,
    lo: Option<K>,
    hi: Option<K>,
    is_root: bool,
)
    requires
        m.partial(-1),
        m.nodes.len() < usize::MAX,
        m.continues_at(lo),
        range_ok(lo, hi),
        sorted_entries(e),
        forall|j: int| 0 <= j < e.len() ==> lo_le(lo, (#[trigger] e[j]).0) && lt_hi(e[j].0, hi),
        e.len() <= 2 * m.t - 1,
        !is_root ==> e.len() >= m.t,
    ensures
        m.push_leaf(e, lo, hi).partial(
            if is_root {
                m.nodes.len() as int
            } else {
                -1
            },
        ),
        m.extended_by(m.push_leaf(e, lo, hi)),
        m.push_leaf(e, lo, hi).chain.last() == m.nodes.len(),
        m.push_leaf(e, lo, hi).chain[m.chain.len() as int] == m.nodes.len(),
{
    let m2 = m.push_leaf(e, lo, hi);
    let idx = m.nodes.len() as int;
    let top = if is_root {
        idx
    } else {
        -1
    };
    assert forall|n: int| 0 <= n < m2.nodes.len() implies #[trigger] m2.local_ok(n) by {
        if n < idx {
            assert(m.local_ok(n));
        }
    }
    assert forall|n: int| 0 <= n < m2.nodes.len() implies #[trigger] m2.children_ok(n) by {
        if n < idx {
            assert(m.children_ok(n));
            if m.nodes[n] is Internal {
                assert forall|j: int| 0 <= j < m2.children(n).len() implies #[trigger] m2.slot_ok(
                    n,
                    j,
                ) by {
                    assert(m.slot_ok(n, j));
                }
            }
        }
    }
    assert forall|n: int| 0 <= n < m2.nodes.len() && n != top implies #[trigger] m2.inner_size_ok(
        n,
    ) by {
        if n < idx {
            assert(m.inner_size_ok(n));
        }
    }
    assert forall|n: int| 0 <= n < m2.nodes.len() && m2.nodes[n] is Leaf implies (
    #[trigger] m2.next(n)) is None by {
        if n < idx {
            assert(m.next(n) is None);
        }
    }
    assert forall|i: int| 0 <= i < m.chain.len() implies (#[trigger] m.chain[i]) as int != idx by {
        assert(m.tile_ok(i));
    }
    assert forall|i: int| 0 <= i < m2.chain.len() implies #[trigger] m2.tile_ok(i) by {
        if i < m.chain.len() {
            assert(m.tile_ok(i));
            if i + 1 < m.chain.len() {
                assert(m.tile_ok(i + 1));
            }
        }
    }
    assert forall|n: int| 0 <= n < m2.nodes.len() implies #[trigger] m2.leaf_in_chain(n) by {
        if n < idx {
            assert(m.leaf_in_chain(n));
            if m.nodes[n] is Leaf {
                let a = choose|a: int| 0 <= a < m.chain.len() && #[trigger] m.chain[a] as int == n;
                assert(m2.chain[a] as int == n);
            }
        } else {
            assert(m2.chain[m.chain.len() as int] as int == n);
        }
    }
    if m.chain.len() > 0 {
        assert(m.tile_ok(0));
    }
    assert(m2.chain.subrange(0, m.chain.len() as int) =~= m.chain);
}

/// One more internal node above nodes that had no parent keeps the nodes
/// in order.
pub proof fn lemma_push_inner<K: Ordered>(
    m: TreeModel<K>,
    ks: Seq<K>,
    cs: Seq<usize>,
    lo: Option<K>,
    hi: Option<K>,
    lvl: nat,
    is_root: bool,
)
    requires
        m.partial(-1),
        m.nodes.len() < usize::MAX,
        range_ok(lo, hi),
        sorted_keys(ks),
        cs.len() == ks.len() + 1,
        forall|j: int| 0 <= j < ks.len() ==> lo_lt(lo, #[trigger] ks[j]) && lt_hi(ks[j], hi),
        1 <= ks.len() <= 2 * m.t - 2,
        !is_root ==> ks.len() >= m.t - 1,
        lvl > 0,
        forall|j: int|
            0 <= j < cs.len() ==> {
                let c = (#[trigger] cs[j]) as int;
                &&& m.is_node(c)
                &&& m.parent(c) == -1
                &&& m.level(c) + 1 == lvl
                &&& m.lo(c) == bound_lo(ks, lo, j)
                &&& m.hi(c) == bound_hi(ks, hi, j)
            },
    ensures
        m.push_inner(ks, cs, lo, hi, lvl).partial(
            if is_root {
                m.nodes.len() as int
            } else {
                -1
            },
        ),
        forall|n: int|
            0 <= n < m.nodes.len() ==> m.push_inner(ks, cs, lo, hi, lvl).nodes[n]
                == #[trigger] m.nodes[n],
        forall|n: int|
            0 <= n < m.nodes.len() ==> {
                &&& m.push_inner(ks, cs, lo, hi, lvl).level(n) == #[trigger] m.level(n)
                &&& m.push_inner(ks, cs, lo, hi, lvl).lo(n) == m.lo(n)
                &&& m.push_inner(ks, cs, lo, hi, lvl).hi(n) == m.hi(n)
            },
{
    let m2 = m.push_inner(ks, cs, lo, hi, lvl);
    let idx = m.nodes.len() as int;
    let top = if is_root {
        idx
    } else {
        -1
    };
    assert forall|n: int| 0 <= n < m.nodes.len() implies m2.level(n) == #[trigger] m.level(n)
        && m2.lo(n) == m.lo(n) && m2.hi(n) == m.hi(n) by {}
    assert forall|n: int| 0 <= n < m2.nodes.len() implies #[trigger] m2.local_ok(n) by {
        if n < idx {
            assert(m.local_ok(n));
            assert(m2.level(n) == m.level(n));
        }
    }
    assert forall|n: int| 0 <= n < m2.nodes.len() implies #[trigger] m2.children_ok(n) by {
        if n < idx {
            assert(m.children_ok(n));
            assert(m2.level(n) == m.level(n));
            if m.nodes[n] is Internal {
                assert forall|j: int| 0 <= j < m2.children(n).len() implies #[trigger] m2.slot_ok(
                    n,
                    j,
                ) by {
                    assert(m.slot_ok(n, j));
                    let c = m.children(n)[j] as int;
                    assert(m2.level(c) == m.level(c));
                    if cs.contains(c as usize) {
                        let a = choose|a: int| 0 <= a < cs.len() && cs[a] == c as usize;
                        assert(m.parent(cs[a] as int) == -1);
                    }
                }
            }
        } else {
            assert forall|j: int| 0 <= j < cs.len() implies #[trigger] m2.slot_ok(idx, j) by {
                let c = cs[j] as int;
                assert(cs.contains(c as usize));
                assert(m2.level(c) == m.level(c));
            }
        }
    }
    assert forall|n: int| 0 <= n < m2.nodes.len() && n != top implies #[trigger] m2.inner_size_ok(
        n,
    ) by {
        if n < idx {
            assert(m.inner_size_ok(n));
        }
    }
    assert forall|n: int| 0 <= n < m2.nodes.len() && m2.nodes[n] is Leaf implies (
    #[trigger] m2.next(n)) is None by {
        if n < idx {
            assert(m.next(n) is None);
        }
    }
    assert forall|i: int| 0 <= i < m2.chain.len() implies #[trigger] m2.tile_ok(i) by {
        assert(m.tile_ok(i));
        assert(m2.level(m.chain[i] as int) == m.level(m.chain[i] as int));
        if i + 1 < m.chain.len() {
            assert(m.tile_ok(i + 1));
            assert(m2.level(m.chain[i + 1] as int) == m.level(m.chain[i + 1] as int));
        }
    }
    assert forall|n: int| 0 <= n < m2.nodes.len() implies #[trigger] m2.leaf_in_chain(n) by {
        if n < idx {
            assert(m.leaf_in_chain(n));
        }
    }
    if m.chain.len() > 0 {
        assert(m.tile_ok(0));
        assert(m2.level(m.chain[0] as int) == m.level(m.chain[0] as int));
    }
}

/// A tree put together up to its root is a tree but for the links between
/// its leaves.
pub proof fn lemma_built<K: Ordered>(m: TreeModel<K>, root: usize)
    requires
        m.partial(root as int),
        root < m.nodes.len(),
        m.lo(root as int) is None,
        m.hi(root as int) is None,
        m.chain.len() > 0,
        m.hi(m.chain.last() as int) is None,
    ensures
        m.rooted_at(root).loose_inv(),
        m.rooted_at(root).pairs() == m.pairs(),
{
    let m2 = m.rooted_at(root);
    assert forall|n: int| 0 <= n < m2.nodes.len() implies #[trigger] m2.local_ok(n) by {
        assert(m.local_ok(n));
    }
    assert forall|n: int| 0 <= n < m2.nodes.len() implies #[trigger] m2.children_ok(n) by {
        assert(m.children_ok(n));
        if m.nodes[n] is Internal {
            assert forall|j: int| 0 <= j < m2.children(n).len() implies #[trigger] m2.slot_ok(
                n,
                j,
            ) by {
                assert(m.slot_ok(n, j));
            }
        }
    }
    assert forall|n: int| 0 <= n < m2.nodes.len() implies #[trigger] m2.size_ok(n) by {
        if n != root {
            assert(m.inner_size_ok(n));
        }
    }
    assert forall|i: int| 0 <= i < m2.chain.len() implies #[trigger] m2.tile_ok(i) by {
        assert(m.tile_ok(i));
    }
    assert forall|n: int| 0 <= n < m2.nodes.len() implies #[trigger] m2.leaf_in_chain(n) by {
        assert(m.leaf_in_chain(n));
    }
    assert forall|n: int| 0 <= n < m2.nodes.len() && m2.nodes[n] is Leaf implies (
    #[trigger] m2.next(n)) is None by {
        assert(m.next(n) is None);
    }
    assert forall|q: (K, ChunkHandler)| m2.pairs().contains(q) <==> m.pairs().contains(q) by {
        if m2.pairs().contains(q) {
            let (n1, j1) = choose|n1: int, j1: int| #[trigger] m2.holds(n1, j1, q);
            assert(m.holds(n1, j1, q));
        }
        if m.pairs().contains(q) {
            let (n1, j1) = choose|n1: int, j1: int| #[trigger] m.holds(n1, j1, q);
            assert(m2.holds(n1, j1, q));
        }
    }
    assert(m2.pairs() =~= m.pairs());
}

} // verus!
