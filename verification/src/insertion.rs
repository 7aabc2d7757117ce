use crate::chunk_pointer::ChunkHandler;
use crate::key::Ordered;
use crate::model::{sorted_entries, TreeModel};
use crate::reach::{lemma_slot_of, slot_of};
use crate::search::{lemma_routes_unique, routes};
use crate::steps::{entry_place, put_at};
use vstd::prelude::*;

verus! {

/// The place of `k` among sorted entries: the number of entries whose
/// keys sort before `k`.
pub open spec fn place_of<K: Ordered>(e: Seq<(K, ChunkHandler)>, k: K) -> int
    decreases e.len(),
{
    if e.len() == 0 {
        0
    } else if e.last().0.key_lt(k) {
        e.len() as int
    } else {
        place_of(e.drop_last(), k)
    }
}

/// `place_of` gives the place of a key among sorted entries, and no other
/// position is its place.
pub proof fn lemma_place_of<K: Ordered>(e: Seq<(K, ChunkHandler)>, j: int, k: K)
    requires
        sorted_entries(e),
        entry_place(e, j, k),
    ensures
        j == place_of(e, k),
    decreases e.len(),
{
    if e.len() > 0 {
        if e.last().0.key_lt(k) {
            if j < e.len() {
                assert(!e[e.len() - 1].0.key_lt(k));
            }
        } else {
            let d = e.drop_last();
            if j == e.len() {
                assert(e[j - 1].0.key_lt(k));
            }
            assert forall|a: int, b: int| 0 <= a < b < d.len() implies #[trigger] d[a].0.key_lt(
                d[b].0,
            ) by {
                assert(e[a].0.key_lt(e[b].0));
            }
            assert forall|i: int| 0 <= i < j implies (#[trigger] d[i]).0.key_lt(k) by {
                assert(e[i].0.key_lt(k));
            }
            assert forall|i: int| j <= i < d.len() implies !(#[trigger] d[i]).0.key_lt(k) by {
                assert(!e[i].0.key_lt(k));
            }
            lemma_place_of(d, j, k);
        }
    }
}

impl<K: Ordered> TreeModel<K> {
    /// The leaf in whose range `key` lies.
    pub open spec fn leaf_for(self, key: K) -> int {
        choose|n: int| self.is_leaf(n) && self.in_range(n, key)
    }

    /// The way from node `n` down to the leaf for `key`: each internal
    /// node that is passed, with the child slot that is taken there.
    /// Equal keys route right.
    pub open spec fn way_down(self, n: int, key: K) -> Seq<(usize, usize)>
        decreases self.level(n),
    {
        if self.is_inner(n) {
            let pos = slot_of(self.keys(n), key);
            let c = self.children(n)[pos] as int;
            if 0 <= pos < self.children(n).len() && self.level(c) < self.level(n) {
                seq![(n as usize, pos as usize)] + self.way_down(c, key)
            } else {
                Seq::empty()
            }
        } else {
            Seq::empty()
        }
    }

    /// The tree after node `c`, which holds one key too many, has been
    /// split at `t`.
    pub open spec fn split_node(self, c: int) -> Self {
        if self.nodes[c] is Leaf {
            self.split_leaf(c)
        } else {
            self.split_inner(c)
        }
    }

    /// The key that parts the two halves when node `c` is split: the
    /// first key of the right half of a leaf, which stays there, and the
    /// key between the halves of an internal node, which leaves it.
    pub open spec fn median(self, c: int) -> K {
        if self.nodes[c] is Leaf {
            self.entries(c)[self.t as int].0
        } else {
            self.keys(c)[self.t - 1]
        }
    }

    /// The tree after the separator `med` and the new sibling `r` of the
    /// split node `c` have been carried up the path: the node above takes
    /// them at the slot the path went through, and is split in turn if
    /// that gives it `2t - 1` keys; above the root a new root is made.
    pub open spec fn carried_up(self, c: int, r: int, med: K, path: Seq<(usize, usize)>) -> Self
        decreases path.len(),
    {
        if path.len() == 0 {
            self.grow(c, r, med)
        } else {
            let p = path.last().0 as int;
            let pos = path.last().1 as int;
            let put = self.with_child(p, pos, med, r);
            if put.keys(p).len() <= 2 * self.t - 2 {
                put
            } else {
                put.split_node(p).carried_up(
                    p,
                    put.nodes.len() as int,
                    put.median(p),
                    path.drop_last(),
                )
            }
        }
    }

    /// The tree after `value` has been inserted under `key`: the pair is
    /// put into the leaf for `key` at its place, over the entry with that
    /// key if there is one; a leaf that then holds `2t` entries is split,
    /// and the split is carried up the way that leads to it.
    pub open spec fn after_insert(self, key: K, value: ChunkHandler) -> Self {
        let leaf = self.leaf_for(key);
        let e = self.entries(leaf);
        let put = self.with_entries(leaf, put_at(e, place_of(e, key), key, value));
        if put.entries(leaf).len() <= 2 * self.t - 1 {
            put
        } else {
            put.split_node(leaf).carried_up(
                leaf,
                put.nodes.len() as int,
                put.median(leaf),
                self.way_down(self.root as int, key),
            )
        }
    }

    /// The tree after the pairs have been inserted one after the other.
    pub open spec fn after_inserts(self, pairs: Seq<(K, ChunkHandler)>) -> Self
        decreases pairs.len(),
    {
        if pairs.len() == 0 {
            self
        } else {
            self.after_inserts(pairs.drop_last()).after_insert(pairs.last().0, pairs.last().1)
        }
    }
}

/// A step of the way down: from an internal node the way goes through the
/// one slot that routes the key.
pub proof fn lemma_way_step<K: Ordered>(m: TreeModel<K>, n: int, pos: int, key: K)
    requires
        m.is_inner(n),
        m.local_ok(n),
        m.children_ok(n),
        routes(m.keys(n), pos, key),
    ensures
        m.way_down(n, key) == seq![(n as usize, pos as usize)] + m.way_down(
            m.children(n)[pos] as int,
            key,
        ),
{
    lemma_slot_of(m.keys(n), key);
    lemma_routes_unique(m.keys(n), pos, slot_of(m.keys(n), key), key);
    assert(m.slot_ok(n, pos));
}

} // verus!
