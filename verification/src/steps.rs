use crate::chunk_pointer::ChunkHandler;
use crate::key::{lemma_le_lt, lemma_lt_lt, lemma_trichotomy, Ordered};
use crate::model::{lemma_view_at, sorted_entries, lo_lt, lt_hi, Bounds, NodeView, TreeModel};
use vstd::prelude::*;

verus! {

/// `j` is the place of `k` among sorted entries: every entry before `j`
/// sorts before `k`, and none from `j` on does.
pub open spec fn entry_place<K: Ordered>(e: Seq<(K, ChunkHandler)>, j: int, k: K) -> bool {
    &&& 0 <= j <= e.len()
    &&& forall|i: int| 0 <= i < j ==> (#[trigger] e[i]).0.key_lt(k)
    &&& forall|i: int| j <= i < e.len() ==> !(#[trigger] e[i]).0.key_lt(k)
}

/// `j` is the place of `k` among sorted keys.
pub open spec fn key_place<K: Ordered>(s: Seq<K>, j: int, k: K) -> bool {
    &&& 0 <= j <= s.len()
    &&& forall|i: int| 0 <= i < j ==> (#[trigger] s[i]).key_lt(k)
    &&& forall|i: int| j <= i < s.len() ==> !(#[trigger] s[i]).key_lt(k)
}

/// The entries with `(k, v)` put at the place `j` of `k`: over the entry
/// with that key if there is one, else between its neighbours.
pub open spec fn put_at<K: Ordered>(e: Seq<(K, ChunkHandler)>, j: int, k: K, v: ChunkHandler) -> Seq<
    (K, ChunkHandler),
> {
    if j < e.len() && e[j].0 == k {
        e.update(j, (k, v))
    } else {
        e.insert(j, (k, v))
    }
}

impl<K: Ordered> TreeModel<K> {
    /// The tree with the entries of leaf `n` replaced.
    pub open spec fn with_entries(self, n: int, e: Seq<(K, ChunkHandler)>) -> Self {
        TreeModel {
            nodes: self.nodes.update(n, NodeView::Leaf { entries: e, next: self.next(n) }),
            ..self
        }
    }

    /// `later` is this tree with other entries in leaf `n` and nothing
    /// else changed: no node was added, and every other node, the link
    /// from leaf `n` to the next leaf and the chain of leaves are as they
    /// were.
    pub open spec fn same_but_leaf(self, later: Self, n: int) -> bool {
        &&& later.nodes.len() == self.nodes.len()
        &&& later.bounds == self.bounds
        &&& later.chain == self.chain
        &&& later.root == self.root
        &&& later.t == self.t
        &&& later.nodes[n] is Leaf
        &&& later.next(n) == self.next(n)
        &&& forall|x: int| 0 <= x < self.nodes.len() && x != n ==> later.nodes[x] == self.nodes[x]
    }

    /// Between operations but that node `x` holds one key too many.
    pub open spec fn overfull(self, x: int) -> bool {
        &&& self.base_ok()
        &&& self.is_node(x)
        &&& self.lo(self.root as int) is None
        &&& self.hi(self.root as int) is None
        &&& forall|n: int| 0 <= n < self.nodes.len() && n != x ==> #[trigger] self.size_ok(n)
        &&& match self.nodes[x] {
            NodeView::Leaf { entries, next } => entries.len() == 2 * self.t,
            NodeView::Internal { keys, children } => keys.len() == 2 * self.t - 1,
        }
        &&& forall|n: int| 0 <= n < self.nodes.len() ==> #[trigger] self.children_ok(n)
    }

    /// Node `c` is child `pos` of node `p` where `at` is `(p, pos)`, and
    /// the root where `at` is nothing.
    pub open spec fn attached(self, c: int, at: Option<(int, int)>) -> bool {
        match at {
            Some((p, pos)) => self.is_inner(p) && 0 <= pos < self.children(p).len()
                && self.children(p)[pos] as int == c,
            None => c == self.root,
        }
    }

    /// Where leaf `c` stands in the chain.
    pub open spec fn chain_index(self, c: int) -> int {
        choose|i: int| 0 <= i < self.chain.len() && #[trigger] self.chain[i] as int == c
    }

    /// The node that will list the two halves of `c` once `c` is split:
    /// its parent, or the root that is about to be made above it.
    pub open spec fn parent_after_split(self, c: int) -> int {
        if c == self.root {
            self.nodes.len() as int + 1
        } else {
            self.parent(c)
        }
    }

    /// The tree after leaf `c`, which holds `2t` entries, has handed its
    /// upper `t` entries to a new leaf that follows it in the chain.
    pub open spec fn split_leaf(self, c: int) -> Self {
        let e = self.entries(c);
        let r = self.nodes.len() as usize;
        let t = self.t as int;
        let med = e[t].0;
        let par = self.parent_after_split(c);
        TreeModel {
            nodes: self.nodes.update(
                c,
                NodeView::Leaf { entries: e.subrange(0, t), next: Some(r) },
            ).push(NodeView::Leaf { entries: e.subrange(t, e.len() as int), next: self.next(c) }),
            bounds: self.bounds.update(
                c,
                Bounds { level: self.level(c), lo: self.lo(c), hi: Some(med), parent: par },
            ).push(Bounds { level: 0, lo: Some(med), hi: self.hi(c), parent: par }),
            chain: self.chain.insert(self.chain_index(c) + 1, r),
            ..self
        }
    }

    /// The tree after internal node `p` has taken the separator `med` at
    /// key position `pos` and the node `r` as the child right of it.
    pub open spec fn with_child(self, p: int, pos: int, med: K, r: int) -> Self {
        TreeModel {
            nodes: self.nodes.update(
                p,
                NodeView::Internal {
                    keys: self.keys(p).insert(pos, med),
                    children: self.children(p).insert(pos + 1, r as usize),
                },
            ),
            ..self
        }
    }

    /// Node `x` is a child of `p` whose range begins at `med` or later.
    pub open spec fn right_of(self, p: int, med: K, x: int) -> bool {
        self.parent(x) == p && match self.lo(x) {
            Some(l) => !l.key_lt(med),
            None => false,
        }
    }

    /// The tree after internal node `p`, which holds `2t - 1` keys, has
    /// handed its upper `t - 1` keys and `t` children to a new node and
    /// given up the key between the halves.
    pub open spec fn split_inner(self, p: int) -> Self {
        let ks = self.keys(p);
        let cs = self.children(p);
        let r = self.nodes.len() as int;
        let t = self.t as int;
        let med = ks[t - 1];
        let par = self.parent_after_split(p);
        TreeModel {
            nodes: self.nodes.update(
                p,
                NodeView::Internal { keys: ks.subrange(0, t - 1), children: cs.subrange(0, t) },
            ).push(
                NodeView::Internal {
                    keys: ks.subrange(t, ks.len() as int),
                    children: cs.subrange(t, cs.len() as int),
                },
            ),
            bounds: Seq::new(
                self.bounds.len() + 1,
                |x: int|
                    if x == r {
                        Bounds { level: self.level(p), lo: Some(med), hi: self.hi(p), parent: par }
                    } else if x == p {
                        Bounds {
                            level: self.level(p),
                            lo: self.lo(p),
                            hi: Some(med),
                            parent: par,
                        }
                    } else if self.right_of(p, med, x) {
                        Bounds {
                            level: self.level(x),
                            lo: self.lo(x),
                            hi: self.hi(x),
                            parent: r,
                        }
                    } else {
                        self.bounds[x]
                    },
            ),
            ..self
        }
    }

    /// The tree after a new root has been put above the old root `c` and
    /// its new right sibling `r`, with `med` as its one key.
    pub open spec fn grow(self, c: int, r: int, med: K) -> Self {
        TreeModel {
            nodes: self.nodes.push(
                NodeView::Internal { keys: seq![med], children: seq![c as usize, r as usize] },
            ),
            bounds: self.bounds.push(
                Bounds { level: self.level(c) + 1, lo: None, hi: None, parent: -1 },
            ),
            root: self.nodes.len() as usize,
            ..self
        }
    }

    /// In the middle of an insertion: node `c` has been split, its new
    /// right sibling `r` and the separator `med` between them are not yet
    /// known to the node above, which is child-slot `at` or, where `c` is
    /// the root, is still to be made.
    pub open spec fn pending(self, c: int, r: int, med: K, at: Option<(int, int)>) -> bool {
        &&& self.base_ok()
        &&& self.is_node(c)
        &&& self.is_node(r)
        &&& c != r
        &&& r != self.root
        &&& self.level(c) == self.level(r)
        &&& self.hi(c) == Some(med)
        &&& self.lo(r) == Some(med)
        &&& self.inner_size_ok(c)
        &&& forall|n: int| 0 <= n < self.nodes.len() && n != c ==> #[trigger] self.size_ok(n)
        &&& match at {
            Some((p, pos)) => {
                &&& self.is_inner(p)
                &&& 0 <= pos < self.children(p).len()
                &&& self.children(p)[pos] as int == c
                &&& self.lo(self.root as int) is None
                &&& self.hi(self.root as int) is None
                &&& self.parent(c) == p
                &&& self.parent(r) == p
                &&& self.level(c) + 1 == self.level(p)
                &&& self.lo(c) == self.slot_lo(p, pos)
                &&& self.hi(r) == self.slot_hi(p, pos)
                &&& forall|j: int|
                    0 <= j < self.children(p).len() && j != pos ==> #[trigger] self.slot_ok(p, j)
                &&& forall|n: int|
                    0 <= n < self.nodes.len() && n != p ==> #[trigger] self.children_ok(n)
            },
            None => {
                &&& c == self.root
                &&& self.lo(c) is None
                &&& self.hi(r) is None
                &&& self.parent(c) == self.nodes.len()
                &&& self.parent(r) == self.nodes.len()
                &&& forall|n: int| 0 <= n < self.nodes.len() ==> #[trigger] self.children_ok(n)
            },
        }
    }
}

/// Two child slots of a node with the same upper bound are one slot.
pub proof fn lemma_slot_unique<K: Ordered>(m: TreeModel<K>, p: int, j1: int, j2: int)
    requires
        m.is_inner(p),
        m.local_ok(p),
        0 <= j1 < m.children(p).len(),
        0 <= j2 < m.children(p).len(),
        m.slot_hi(p, j1) == m.slot_hi(p, j2),
    ensures
        j1 == j2,
{
    let ks = m.keys(p);
    if j1 < j2 {
        lemma_trichotomy(ks[j1], ks[j1]);
        if j2 < ks.len() {
            assert(ks[j1].key_lt(ks[j2]));
        }
    } else if j2 < j1 {
        lemma_trichotomy(ks[j2], ks[j2]);
        if j1 < ks.len() {
            assert(ks[j2].key_lt(ks[j1]));
        }
    }
}

/// A node is the child of one node only, in one slot only.
pub proof fn lemma_one_parent<K: Ordered>(m: TreeModel<K>, p: int, pos: int, n: int, j: int)
    requires
        m.is_inner(p),
        m.is_inner(n),
        m.local_ok(p),
        0 <= pos < m.children(p).len(),
        0 <= j < m.children(n).len(),
        m.children(p)[pos] == m.children(n)[j],
        m.slot_ok(p, pos),
        m.slot_ok(n, j),
    ensures
        n == p,
        j == pos,
{
    lemma_slot_unique(m, p, pos, j);
}

/// The root is no node's child.
pub proof fn lemma_root_unlisted<K: Ordered>(m: TreeModel<K>, n: int, j: int)
    requires
        m.is_inner(n),
        m.keys(n).len() >= 1,
        m.children(n).len() == m.keys(n).len() + 1,
        0 <= j < m.children(n).len(),
        m.slot_ok(n, j),
        m.lo(m.root as int) is None,
        m.hi(m.root as int) is None,
    ensures
        m.children(n)[j] != m.root,
{
}

/// Putting a pair into the entries at its place keeps them sorted.
pub proof fn lemma_put_sorted<K: Ordered>(e: Seq<(K, ChunkHandler)>, j: int, k: K, v: ChunkHandler)
    requires
        sorted_entries(e),
        entry_place(e, j, k),
    ensures
        sorted_entries(put_at(e, j, k, v)),
        j < e.len() && e[j].0 == k ==> put_at(e, j, k, v).len() == e.len(),
        !(j < e.len() && e[j].0 == k) ==> put_at(e, j, k, v).len() == e.len() + 1,
        forall|i: int| j <= i < e.len() && e[i].0 != k ==> k.key_lt((#[trigger] e[i]).0),
        forall|i: int| j < i < e.len() ==> (#[trigger] e[i]).0 != k,
{
    let e2 = put_at(e, j, k, v);
    assert forall|i: int| j <= i < e.len() && e[i].0 != k implies k.key_lt((#[trigger] e[i]).0) by {
        lemma_trichotomy(k, e[i].0);
    }
    assert forall|i: int| j < i < e.len() implies (#[trigger] e[i]).0 != k by {
        assert(e[j].0.key_lt(e[i].0));
        assert(!e[j].0.key_lt(k));
    }
    assert forall|a: int, b: int| 0 <= a < b < e2.len() implies #[trigger] e2[a].0.key_lt(
        e2[b].0,
    ) by {
        if j < e.len() && e[j].0 == k {
            assert(e[a].0.key_lt(e[b].0));
        } else {
            if b < j {
                assert(e[a].0.key_lt(e[b].0));
            } else if b == j {
                assert(e[a].0.key_lt(k));
            } else if a == j {
                assert(k.key_lt(e[b - 1].0));
            } else if a < j {
                assert(e[a].0.key_lt(e[b - 1].0));
            } else {
                assert(e[a - 1].0.key_lt(e[b - 1].0));
            }
        }
    }
}

/// Putting a pair into a leaf at its place changes the map by that pair
/// and nothing else, and keeps the tree's shape; the leaf may then hold
/// one entry too many.
pub proof fn lemma_leaf_put<K: Ordered>(m: TreeModel<K>, n: int, j: int, k: K, v: ChunkHandler)
    requires
        m.inv(),
        m.is_leaf(n),
        m.in_range(n, k),
        entry_place(m.entries(n), j, k),
    ensures
        ({
            let m2 = m.with_entries(n, put_at(m.entries(n), j, k, v));
            &&& m2.base_ok()
            &&& m2.view_map() == m.view_map().insert(k, v)
            &&& m2.entries(n).len() <= 2 * m.t - 1 ==> m2.inv()
            &&& m2.entries(n).len() > 2 * m.t - 1 ==> m2.overfull(n)
        }),
{
    let e = m.entries(n);
    let e2 = put_at(e, j, k, v);
    let m2 = m.with_entries(n, e2);
    let found = j < e.len() && e[j].0 == k;
    assert(m.local_ok(n));
    assert(m.size_ok(n));
    lemma_put_sorted(e, j, k, v);
    assert forall|x: int| 0 <= x < m2.nodes.len() implies #[trigger] m2.local_ok(x) by {
        assert(m.local_ok(x));
        if x == n {
            assert forall|i: int| 0 <= i < e2.len() implies m2.in_range(n, (#[trigger] e2[i]).0) by {
                if found {
                    assert(m.in_range(n, e[i].0));
                } else if i < j {
                    assert(m.in_range(n, e[i].0));
                } else if i > j {
                    assert(m.in_range(n, e[i - 1].0));
                }
            }
        }
    }
    assert forall|i: int| 0 <= i < m2.chain.len() implies #[trigger] m2.chain_at_ok(i) by {
        assert(m.chain_at_ok(i));
    }
    assert forall|x: int| 0 <= x < m2.nodes.len() implies #[trigger] m2.leaf_in_chain(x) by {
        assert(m.leaf_in_chain(x));
    }
    assert(m2.base_ok());
    assert forall|x: int| 0 <= x < m2.nodes.len() implies #[trigger] m2.children_ok(x) by {
        assert(m.children_ok(x));
        if m2.nodes[x] is Internal {
            assert forall|i: int| 0 <= i < m2.children(x).len() implies #[trigger] m2.slot_ok(
                x,
                i,
            ) by {
                assert(m.slot_ok(x, i));
            }
        }
    }
    assert forall|x: int| 0 <= x < m2.nodes.len() && x != n implies #[trigger] m2.size_ok(x) by {
        assert(m.size_ok(x));
    }
    // The map.
    let want = m.view_map().insert(k, v);
    assert forall|x: K| #[trigger] m2.view_map().contains_key(x) <==> want.contains_key(x) by {
        if x == k {
            assert(m2.holds(n, j, (k, v)));
            lemma_view_at(m2, n, j);
        } else {
            if m2.view_map().contains_key(x) {
                let w = choose|w: ChunkHandler| m2.pairs().contains((x, w));
                let (n1, j1) = choose|n1: int, j1: int| #[trigger] m2.holds(n1, j1, (x, w));
                if n1 == n {
                    if found {
                        assert(m.holds(n, j1, (x, w)));
                    } else if j1 < j {
                        assert(m.holds(n, j1, (x, w)));
                    } else {
                        assert(m.holds(n, j1 - 1, (x, w)));
                    }
                } else {
                    assert(m.holds(n1, j1, (x, w)));
                }
                assert(m.pairs().contains((x, w)));
            }
            if m.view_map().contains_key(x) {
                let w = choose|w: ChunkHandler| m.pairs().contains((x, w));
                let (n1, j1) = choose|n1: int, j1: int| #[trigger] m.holds(n1, j1, (x, w));
                if n1 == n {
                    if found {
                        assert(m2.holds(n, j1, (x, w)));
                    } else if j1 < j {
                        assert(m2.holds(n, j1, (x, w)));
                    } else {
                        assert(m2.holds(n, j1 + 1, (x, w)));
                    }
                } else {
                    assert(m2.holds(n1, j1, (x, w)));
                }
                assert(m2.pairs().contains((x, w)));
            }
        }
    }
    assert forall|x: K| #[trigger] want.contains_key(x) implies m2.view_map()[x] == want[x] by {
        if x == k {
            assert(m2.holds(n, j, (k, v)));
            lemma_view_at(m2, n, j);
        } else {
            let w = choose|w: ChunkHandler| m.pairs().contains((x, w));
            let (n1, j1) = choose|n1: int, j1: int| #[trigger] m.holds(n1, j1, (x, w));
            lemma_view_at(m, n1, j1);
            if n1 == n {
                if found {
                    assert(m2.holds(n, j1, (x, w)));
                    lemma_view_at(m2, n, j1);
                } else if j1 < j {
                    assert(m2.holds(n, j1, (x, w)));
                    lemma_view_at(m2, n, j1);
                } else {
                    assert(m2.holds(n, j1 + 1, (x, w)));
                    lemma_view_at(m2, n, j1 + 1);
                }
            } else {
                assert(m2.holds(n1, j1, (x, w)));
                lemma_view_at(m2, n1, j1);
            }
        }
    }
    assert(m2.view_map() =~= want);
}

/// Splitting an overfull leaf keeps every pair and leaves the tree with
/// one pending separator for the node above.
pub proof fn lemma_split_leaf<K: Ordered>(m: TreeModel<K>, c: int, at: Option<(int, int)>)
    requires
        m.overfull(c),
        m.nodes.len() < usize::MAX,
        m.is_leaf(c),
        m.attached(c, at),
    ensures
        m.split_leaf(c).pending(c, m.nodes.len() as int, m.entries(c)[m.t as int].0, at),
        m.split_leaf(c).pairs() == m.pairs(),
{
    let m2 = m.split_leaf(c);
    let e = m.entries(c);
    let t = m.t as int;
    let r = m.nodes.len() as int;
    let med = e[t].0;
    let i = m.chain_index(c);
    let el = e.subrange(0, t);
    let er = e.subrange(t, e.len() as int);
    assert(e.len() == 2 * t);
    assert(el.len() == t);
    assert(er.len() == t);
    assert(m.local_ok(c));
    assert(m.leaf_in_chain(c));
    assert(0 <= i < m.chain.len() && m.chain[i] as int == c);
    assert(m.chain_at_ok(i));
    assert(m.in_range(c, e[0].0));
    assert(m.in_range(c, e[t].0));
    assert(e[0].0.key_lt(e[t].0));
    lemma_trichotomy(med, med);
    // The node above, if any, differs from `c`, and `c` is then no root.
    match at {
        Some((p, pos)) => {
            assert(m.children_ok(p));
            assert(m.slot_ok(p, pos));
            assert(m.local_ok(p));
            if p != m.root {
                assert(m.size_ok(p));
            } else {
                assert(m.size_ok(p));
            }
            lemma_root_unlisted(m, p, pos);
        },
        None => {},
    }
    // Key ordering in every node.
    assert forall|x: int| 0 <= x < m2.nodes.len() implies #[trigger] m2.local_ok(x) by {
        if x == c {
            if m.lo(c) is Some {
                lemma_le_lt(m.lo(c).unwrap(), e[0].0, med);
            }
            assert forall|a: int, b: int| 0 <= a < b < el.len() implies #[trigger] el[a].0.key_lt(
                el[b].0,
            ) by {
                assert(e[a].0.key_lt(e[b].0));
            }
            assert forall|a: int| 0 <= a < el.len() implies m2.in_range(c, (#[trigger] el[a]).0) by {
                assert(m.in_range(c, e[a].0));
                assert(e[a].0.key_lt(e[t].0));
            }
        } else if x == r {
            assert forall|a: int, b: int| 0 <= a < b < er.len() implies #[trigger] er[a].0.key_lt(
                er[b].0,
            ) by {
                assert(e[a + t].0.key_lt(e[b + t].0));
            }
            assert forall|a: int| 0 <= a < er.len() implies m2.in_range(r, (#[trigger] er[a]).0) by {
                assert(m.in_range(c, e[a + t].0));
                if a > 0 {
                    assert(e[t].0.key_lt(e[a + t].0));
                    lemma_trichotomy(med, e[a + t].0);
                }
            }
        } else {
            assert(m.local_ok(x));
        }
    }
    // The chain.
    let ch = m.chain;
    let ch2 = m2.chain;
    assert(ch2.len() == ch.len() + 1);
    assert forall|a: int| 0 <= a < ch2.len() implies ch2[a] == (if a <= i {
        ch[a]
    } else if a == i + 1 {
        r as usize
    } else {
        ch[a - 1]
    }) by {}
    assert forall|a: int| 0 <= a < ch.len() implies (#[trigger] ch[a]) as int != r by {
        assert(m.chain_at_ok(a));
    }
    assert forall|a: int, b: int| 0 <= a < ch2.len() && 0 <= b < ch2.len() && a != b implies ch2[a]
        != ch2[b] by {
        let a0 = if a <= i { a } else { a - 1 };
        let b0 = if b <= i { b } else { b - 1 };
        if a != i + 1 && b != i + 1 {
            assert(ch[a0] != ch[b0]);
        }
    }
    assert forall|a: int| 0 <= a < ch2.len() implies #[trigger] m2.chain_at_ok(a) by {
        let n = ch2[a] as int;
        if a < i {
            assert(m.chain_at_ok(a));
            assert(ch[a] != ch[i]);
            assert(n == ch[a] as int);
            assert(n != c && n != r);
            assert(m2.nodes[n] == m.nodes[n]);
            assert(m2.bounds[n] == m.bounds[n]);
            assert(ch2[a + 1] == ch[a + 1]);
            assert(m.chain_at_ok(a + 1));
            assert(m2.lo(ch2[a + 1] as int) == m.lo(ch[a + 1] as int));
            assert(m2.is_leaf(n));
        } else if a == i {
            assert(n == c);
            assert(ch2[a + 1] as int == r);
            assert(m2.is_leaf(n));
        } else if a == i + 1 {
            assert(n == r);
            if i + 1 < ch.len() {
                assert(ch[i + 1] != ch[i]);
                assert(m.chain_at_ok(i + 1));
                assert(ch2[a + 1] == ch[i + 1]);
                assert(m2.lo(ch2[a + 1] as int) == m.lo(ch[i + 1] as int));
            }
            assert(m2.is_leaf(n));
        } else {
            assert(m.chain_at_ok(a - 1));
            assert(ch[a - 1] != ch[i]);
            assert(n == ch[a - 1] as int);
            assert(n != c && n != r);
            assert(m2.nodes[n] == m.nodes[n]);
            assert(m2.bounds[n] == m.bounds[n]);
            if a < ch.len() {
                assert(ch[a] != ch[i]);
                assert(m.chain_at_ok(a));
                assert(ch2[a + 1] == ch[a]);
                assert(m2.lo(ch2[a + 1] as int) == m.lo(ch[a] as int));
            }
            assert(m2.is_leaf(n));
        }
    }
    assert forall|x: int| 0 <= x < m2.nodes.len() implies #[trigger] m2.leaf_in_chain(x) by {
        if x == r {
            assert(ch2[i + 1] as int == r);
        } else {
            assert(m.leaf_in_chain(x));
            if m.nodes[x] is Leaf {
                let a = choose|a: int| 0 <= a < ch.len() && #[trigger] ch[a] as int == x;
                if a <= i {
                    assert(ch2[a] as int == x);
                } else {
                    assert(ch2[a + 1] as int == x);
                }
            }
        }
    }
    assert(m.chain_at_ok(0));
    assert(m.chain_at_ok(ch.len() - 1));
    assert(ch2[0] == ch[0]);
    assert(m2.lo(ch2[0] as int) is None);
    if i + 1 < ch.len() {
        assert(ch[ch.len() - 1] != ch[i]);
        assert(ch2.last() == ch[ch.len() - 1]);
    } else {
        assert(ch2.last() as int == r);
    }
    assert(m2.hi(ch2.last() as int) is None);
    assert(ch2.no_duplicates());
    assert(m2.chain_ok());
    assert(m2.base_ok());
    // Sizes.
    assert forall|x: int| 0 <= x < m2.nodes.len() && x != c implies #[trigger] m2.size_ok(x) by {
        if x != r {
            assert(m.size_ok(x));
        }
    }
    // Children.
    assert forall|x: int|
        0 <= x < m2.nodes.len() && (at is Some ==> x != at.unwrap().0) implies #[trigger] m2.children_ok(
        x,
    ) by {
        if x != r && x != c {
            assert(m.children_ok(x));
            assert(m.local_ok(x));
            assert(m.size_ok(x));
            if m2.nodes[x] is Internal {
                assert forall|j: int| 0 <= j < m2.children(x).len() implies #[trigger] m2.slot_ok(
                    x,
                    j,
                ) by {
                    assert(m.slot_ok(x, j));
                    if m.children(x)[j] as int == c {
                        match at {
                            Some((p, pos)) => {
                                lemma_one_parent(m, p, pos, x, j);
                            },
                            None => {
                                lemma_root_unlisted(m, x, j);
                            },
                        }
                    }
                }
            }
        }
    }
    match at {
        Some((p, pos)) => {
            assert forall|j: int| 0 <= j < m2.children(p).len() && j != pos implies #[trigger] m2.slot_ok(
                p,
                j,
            ) by {
                assert(m.slot_ok(p, j));
                if m.children(p)[j] as int == c {
                    lemma_one_parent(m, p, pos, p, j);
                }
            }
        },
        None => {},
    }
    assert(m2.pending(c, r, med, at));
    // The pairs.
    assert forall|q: (K, ChunkHandler)| m2.pairs().contains(q) <==> m.pairs().contains(q) by {
        if m2.pairs().contains(q) {
            let (n1, j1) = choose|n1: int, j1: int| #[trigger] m2.holds(n1, j1, q);
            if n1 == c {
                assert(m.holds(c, j1, q));
            } else if n1 == r {
                assert(m.holds(c, j1 + t, q));
            } else {
                assert(m.holds(n1, j1, q));
            }
        }
        if m.pairs().contains(q) {
            let (n1, j1) = choose|n1: int, j1: int| #[trigger] m.holds(n1, j1, q);
            if n1 == c {
                if j1 < t {
                    assert(m2.holds(c, j1, q));
                } else {
                    assert(m2.holds(r, j1 - t, q));
                }
            } else {
                assert(m2.holds(n1, j1, q));
            }
        }
    }
    assert(m2.pairs() =~= m.pairs());
}

/// Handing a pending separator and sibling to the node above keeps every
/// pair and completes the tree, unless that node now holds one key too
/// many.
pub proof fn lemma_add_child<K: Ordered>(
    m: TreeModel<K>,
    c: int,
    r: int,
    med: K,
    p: int,
    pos: int,
)
    requires
        m.pending(c, r, med, Some((p, pos))),
    ensures
        m.with_child(p, pos, med, r).pairs() == m.pairs(),
        m.keys(p).len() + 1 <= 2 * m.t - 2 ==> m.with_child(p, pos, med, r).inv(),
        m.keys(p).len() + 1 > 2 * m.t - 2 ==> m.with_child(p, pos, med, r).overfull(p),
{
    let m2 = m.with_child(p, pos, med, r);
    let ks = m.keys(p);
    let cs = m.children(p);
    let k2 = ks.insert(pos, med);
    let c2 = cs.insert(pos + 1, r as usize);
    assert(m.local_ok(p));
    assert(m.local_ok(c));
    assert(m.local_ok(r));
    assert(m.size_ok(p));
    assert(k2.len() == ks.len() + 1);
    assert(c2.len() == cs.len() + 1);
    assert forall|a: int| 0 <= a < k2.len() implies k2[a] == (if a < pos {
        ks[a]
    } else if a == pos {
        med
    } else {
        ks[a - 1]
    }) by {}
    assert forall|a: int| 0 <= a < c2.len() implies c2[a] == (if a <= pos {
        cs[a]
    } else if a == pos + 1 {
        r as usize
    } else {
        cs[a - 1]
    }) by {}
    // The separator lies strictly between its new neighbours.
    assert forall|a: int| 0 <= a < pos implies (#[trigger] ks[a]).key_lt(med) by {
        if a < pos - 1 {
            assert(ks[a].key_lt(ks[pos - 1]));
            lemma_lt_lt(ks[a], ks[pos - 1], med);
        }
    }
    assert forall|a: int| pos <= a < ks.len() implies med.key_lt(#[trigger] ks[a]) by {
        if a > pos {
            assert(ks[pos].key_lt(ks[a]));
            lemma_lt_lt(med, ks[pos], ks[a]);
        }
    }
    assert(lo_lt(m.lo(p), med)) by {
        if pos > 0 && m.lo(p) is Some {
            lemma_lt_lt(m.lo(p).unwrap(), ks[pos - 1], med);
        }
    }
    assert(lt_hi(med, m.hi(p))) by {
        if pos < ks.len() && m.hi(p) is Some {
            lemma_lt_lt(med, ks[pos], m.hi(p).unwrap());
        }
    }
    assert forall|a: int, b: int| 0 <= a < b < k2.len() implies #[trigger] k2[a].key_lt(k2[b]) by {
        if b < pos {
            assert(ks[a].key_lt(ks[b]));
        } else if b == pos {
            assert(ks[a].key_lt(med));
        } else if a == pos {
            assert(med.key_lt(ks[b - 1]));
        } else if a < pos {
            assert(ks[a].key_lt(ks[b - 1]));
        } else {
            assert(ks[a - 1].key_lt(ks[b - 1]));
        }
    }
    assert forall|x: int| 0 <= x < m2.nodes.len() implies #[trigger] m2.local_ok(x) by {
        assert(m.local_ok(x));
        if x == p {
            assert forall|a: int| 0 <= a < k2.len() implies lo_lt(m2.lo(p), #[trigger] k2[a])
                && lt_hi(k2[a], m2.hi(p)) by {
                if a < pos {
                    assert(lo_lt(m.lo(p), ks[a]) && lt_hi(ks[a], m.hi(p)));
                } else if a > pos {
                    assert(lo_lt(m.lo(p), ks[a - 1]) && lt_hi(ks[a - 1], m.hi(p)));
                }
            }
        }
    }
    assert forall|i: int| 0 <= i < m2.chain.len() implies #[trigger] m2.chain_at_ok(i) by {
        assert(m.chain_at_ok(i));
    }
    assert forall|x: int| 0 <= x < m2.nodes.len() implies #[trigger] m2.leaf_in_chain(x) by {
        assert(m.leaf_in_chain(x));
    }
    assert(m2.base_ok());
    assert forall|x: int| 0 <= x < m2.nodes.len() implies #[trigger] m2.children_ok(x) by {
        if x == p {
            assert forall|j: int| 0 <= j < c2.len() implies #[trigger] m2.slot_ok(p, j) by {
                if j < pos {
                    assert(m.slot_ok(p, j));
                } else if j == pos {
                } else if j == pos + 1 {
                } else {
                    assert(m.slot_ok(p, j - 1));
                }
            }
        } else {
            assert(m.children_ok(x));
            if m2.nodes[x] is Internal {
                assert forall|j: int| 0 <= j < m2.children(x).len() implies #[trigger] m2.slot_ok(
                    x,
                    j,
                ) by {
                    assert(m.slot_ok(x, j));
                }
            }
        }
    }
    assert forall|x: int| 0 <= x < m2.nodes.len() && x != p implies #[trigger] m2.size_ok(x) by {
        if x != c {
            assert(m.size_ok(x));
        }
    }
    assert forall|q: (K, ChunkHandler)| m2.pairs().contains(q) <==> m.pairs().contains(q) by {
        if m2.pairs().contains(q) {
            let (n1, j1) = choose|n1: int, j1: int| #[trigger] m2.holds(n1, j1, q);
            assert(m.holds(n1, j1, q));
        }
        if m.pairs().contains(q) {
            let (n1, j1) = choose|n1: int, j1: int| #[trigger] m.holds(n1, j1, q);
            assert(m2.holds(n1, j1, q));
        }
    }
    assert(m2.pairs() =~= m.pairs());
}

/// Putting a new root above a split root keeps every pair and completes
/// the tree.
pub proof fn lemma_grow<K: Ordered>(m: TreeModel<K>, c: int, r: int, med: K)
    requires
        m.pending(c, r, med, None),
        m.nodes.len() < usize::MAX,
    ensures
        m.grow(c, r, med).inv(),
        m.grow(c, r, med).pairs() == m.pairs(),
{
    let m2 = m.grow(c, r, med);
    let top = m.nodes.len() as int;
    assert(m.local_ok(c));
    assert(m.local_ok(r));
    assert(m2.keys(top) =~= seq![med]);
    assert(m2.children(top) =~= seq![c as usize, r as usize]);
    assert forall|x: int| 0 <= x < m2.nodes.len() implies #[trigger] m2.local_ok(x) by {
        if x != top {
            assert(m.local_ok(x));
        }
    }
    assert forall|i: int| 0 <= i < m2.chain.len() implies #[trigger] m2.chain_at_ok(i) by {
        assert(m.chain_at_ok(i));
        if i + 1 < m.chain.len() {
            assert(m.chain_at_ok(i + 1));
        }
    }
    assert forall|x: int| 0 <= x < m2.nodes.len() implies #[trigger] m2.leaf_in_chain(x) by {
        if x != top {
            assert(m.leaf_in_chain(x));
        }
    }
    assert(m.chain_at_ok(0));
    assert(m.chain_at_ok(m.chain.len() - 1));
    assert(m2.base_ok());
    assert forall|x: int| 0 <= x < m2.nodes.len() implies #[trigger] m2.children_ok(x) by {
        if x == top {
            assert forall|j: int| 0 <= j < m2.children(top).len() implies #[trigger] m2.slot_ok(
                top,
                j,
            ) by {}
        } else {
            assert(m.children_ok(x));
            if m2.nodes[x] is Internal {
                assert forall|j: int| 0 <= j < m2.children(x).len() implies #[trigger] m2.slot_ok(
                    x,
                    j,
                ) by {
                    assert(m.slot_ok(x, j));
                }
            }
        }
    }
    assert forall|x: int| 0 <= x < m2.nodes.len() implies #[trigger] m2.size_ok(x) by {
        if x != top && x != c {
            assert(m.size_ok(x));
        }
    }
    assert forall|q: (K, ChunkHandler)| m2.pairs().contains(q) <==> m.pairs().contains(q) by {
        if m2.pairs().contains(q) {
            let (n1, j1) = choose|n1: int, j1: int| #[trigger] m2.holds(n1, j1, q);
            assert(m.holds(n1, j1, q));
        }
        if m.pairs().contains(q) {
            let (n1, j1) = choose|n1: int, j1: int| #[trigger] m.holds(n1, j1, q);
            assert(m2.holds(n1, j1, q));
        }
    }
    assert(m2.pairs() =~= m.pairs());
}

/// Splitting an overfull internal node keeps every pair and leaves the
/// tree with one pending separator for the node above.
pub proof fn lemma_split_inner<K: Ordered>(m: TreeModel<K>, p: int, at: Option<(int, int)>)
    requires
        m.overfull(p),
        m.nodes.len() < usize::MAX,
        m.is_inner(p),
        m.attached(p, at),
    ensures
        m.split_inner(p).pending(p, m.nodes.len() as int, m.keys(p)[m.t - 1], at),
        m.split_inner(p).pairs() == m.pairs(),
{
    let m2 = m.split_inner(p);
    let ks = m.keys(p);
    let cs = m.children(p);
    let t = m.t as int;
    let r = m.nodes.len() as int;
    let med = ks[t - 1];
    let kl = ks.subrange(0, t - 1);
    let kr = ks.subrange(t, ks.len() as int);
    let cl = cs.subrange(0, t);
    let cr = cs.subrange(t, cs.len() as int);
    assert(m.local_ok(p));
    assert(m.children_ok(p));
    assert(ks.len() == 2 * t - 1);
    assert(cs.len() == 2 * t);
    assert(kl.len() == t - 1 && kr.len() == t - 1 && cl.len() == t && cr.len() == t);
    lemma_trichotomy(med, med);
    assert(lo_lt(m.lo(p), ks[t - 1]) && lt_hi(ks[t - 1], m.hi(p)));
    match at {
        Some((pp, pos)) => {
            assert(m.children_ok(pp));
            assert(m.slot_ok(pp, pos));
            assert(m.local_ok(pp));
            assert(pp != p);
            assert(m.size_ok(pp));
            lemma_root_unlisted(m, pp, pos);
        },
        None => {},
    }
    // Which children go to the new node.
    assert forall|j: int| 0 <= j < cs.len() implies (m.right_of(p, med, #[trigger] cs[j] as int)
        <==> j >= t) && cs[j] as int != p && cs[j] as int != r && m.is_node(cs[j] as int) by {
        assert(m.slot_ok(p, j));
        if j == 0 {
            if m.lo(p) is Some {
                lemma_trichotomy(m.lo(p).unwrap(), med);
            }
        } else if j - 1 < t - 1 {
            assert(ks[j - 1].key_lt(ks[t - 1]));
        } else if j - 1 > t - 1 {
            assert(ks[t - 1].key_lt(ks[j - 1]));
            lemma_trichotomy(ks[j - 1], med);
        }
    }
    // Key ordering in every node.
    assert forall|x: int| 0 <= x < m2.nodes.len() implies #[trigger] m2.local_ok(x) by {
        if x == p {
            assert forall|a: int, b: int| 0 <= a < b < kl.len() implies #[trigger] kl[a].key_lt(
                kl[b],
            ) by {
                assert(ks[a].key_lt(ks[b]));
            }
            assert forall|a: int| 0 <= a < kl.len() implies lo_lt(m2.lo(p), #[trigger] kl[a])
                && lt_hi(kl[a], m2.hi(p)) by {
                assert(lo_lt(m.lo(p), ks[a]));
                assert(ks[a].key_lt(ks[t - 1]));
            }
        } else if x == r {
            assert forall|a: int, b: int| 0 <= a < b < kr.len() implies #[trigger] kr[a].key_lt(
                kr[b],
            ) by {
                assert(ks[a + t].key_lt(ks[b + t]));
            }
            assert forall|a: int| 0 <= a < kr.len() implies lo_lt(m2.lo(r), #[trigger] kr[a])
                && lt_hi(kr[a], m2.hi(r)) by {
                assert(lt_hi(ks[a + t], m.hi(p)));
                assert(ks[t - 1].key_lt(ks[a + t]));
            }
        } else {
            assert(m.local_ok(x));
        }
    }
    assert forall|i: int| 0 <= i < m2.chain.len() implies #[trigger] m2.chain_at_ok(i) by {
        assert(m.chain_at_ok(i));
        if i + 1 < m.chain.len() {
            assert(m.chain_at_ok(i + 1));
        }
    }
    assert forall|x: int| 0 <= x < m2.nodes.len() implies #[trigger] m2.leaf_in_chain(x) by {
        if x != r {
            assert(m.leaf_in_chain(x));
        }
    }
    assert(m.chain_at_ok(0));
    assert(m.chain_at_ok(m.chain.len() - 1));
    assert(m2.base_ok());
    assert forall|x: int| 0 <= x < m2.nodes.len() && x != p implies #[trigger] m2.size_ok(x) by {
        if x != r {
            assert(m.size_ok(x));
        }
    }
    // Children of the two halves.
    assert forall|j: int| 0 <= j < cl.len() implies #[trigger] m2.slot_ok(p, j) by {
        assert(m.slot_ok(p, j));
        assert(cl[j] == cs[j]);
    }
    assert forall|j: int| 0 <= j < cr.len() implies #[trigger] m2.slot_ok(r, j) by {
        assert(m.slot_ok(p, j + t));
        assert(cr[j] == cs[j + t]);
    }
    // Children of every other node.
    assert forall|x: int|
        0 <= x < m2.nodes.len() && (at is Some ==> x != at.unwrap().0) implies #[trigger] m2.children_ok(
        x,
    ) by {
        if x != r && x != p {
            assert(m.children_ok(x));
            assert(m.local_ok(x));
            assert(m.size_ok(x));
            if m2.nodes[x] is Internal {
                assert forall|j: int| 0 <= j < m2.children(x).len() implies #[trigger] m2.slot_ok(
                    x,
                    j,
                ) by {
                    assert(m.slot_ok(x, j));
                    if m.children(x)[j] as int == p {
                        match at {
                            Some((pp, pos)) => {
                                lemma_one_parent(m, pp, pos, x, j);
                            },
                            None => {
                                lemma_root_unlisted(m, x, j);
                            },
                        }
                    }
                }
            }
        }
    }
    match at {
        Some((pp, pos)) => {
            assert forall|j: int|
                0 <= j < m2.children(pp).len() && j != pos implies #[trigger] m2.slot_ok(pp, j) by {
                assert(m.slot_ok(pp, j));
                if m.children(pp)[j] as int == p {
                    lemma_one_parent(m, pp, pos, pp, j);
                }
            }
        },
        None => {},
    }
    assert(m2.pending(p, r, med, at));
    assert forall|q: (K, ChunkHandler)| m2.pairs().contains(q) <==> m.pairs().contains(q) by {
        if m2.pairs().contains(q) {
            let (n1, j1) = choose|n1: int, j1: int| #[trigger] m2.holds(n1, j1, q);
            assert(m.holds(n1, j1, q));
        }
        if m.pairs().contains(q) {
            let (n1, j1) = choose|n1: int, j1: int| #[trigger] m.holds(n1, j1, q);
            assert(m2.holds(n1, j1, q));
        }
    }
    assert(m2.pairs() =~= m.pairs());
}

} // verus!
