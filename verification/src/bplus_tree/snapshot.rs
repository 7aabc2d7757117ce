use crate::bplus_tree::{BPlus, InternalNode, Leaf, Node};
use crate::assemble::{bound_hi, bound_lo, lemma_built, lemma_push_inner, lemma_push_leaf};
use crate::chunk_pointer::ChunkHandler;
use crate::error::StoreError;
use crate::key::{ids, lemma_lt_lt, lemma_trichotomy, BPlusKey, KeyOrder, Ordered};
use crate::search::entry_ids;
use crate::model::{lo_le, lo_lt, lt_hi, map_of, range_ok, sorted_entries, sorted_keys, TreeModel};
use crate::relink::{lemma_first_keys_ascend, lemma_relinked, lemma_same_order};
use crate::reach::{lemma_pair_is_under, lemma_under_is_pair};
use crate::steps::lemma_root_unlisted;
use vstd::prelude::*;

verus! {

/// Leaf of a snapshot: the entries, without the link to the next leaf.
#[derive(Debug, PartialEq, Eq)]
pub struct SerializableLeaf<K> {
    pub entries: Vec<(K, ChunkHandler)>,
}

/// Internal node of a snapshot: the separator keys, and the children
/// themselves in place of links to them.
#[derive(Debug, PartialEq, Eq)]
pub struct SerializableInternalNode<K> {
    pub keys: Vec<K>,
    pub children: Vec<SerializableNode<K>>,
}

/// A node of a snapshot.
#[derive(Debug, PartialEq, Eq)]
pub enum SerializableNode<K> {
    Internal(SerializableInternalNode<K>),
    Leaf(SerializableLeaf<K>),
}

/// Snapshot of a tree: what is written to the snapshot file. It holds the
/// branching parameter, the data directory, the write position and the
/// nodes as one nested value. It holds the places of the chunks, not their
/// bytes.
#[derive(Debug, PartialEq, Eq)]
pub struct SerializableBPlus<K> {
    pub t: usize,
    pub path: String,
    pub file_number: usize,
    pub offset: u64,
    pub max_file_size: u64,
    pub root: SerializableNode<K>,
}

impl<K: BPlusKey> SerializableNode<K> {
    /// The number of levels between the node and the leaves below its
    /// first child.
    pub open spec fn depth(self) -> nat
        decreases self,
    {
        match self {
            SerializableNode::Leaf(leaf) => 0,
            SerializableNode::Internal(inner) => if inner.children@.len() == 0 {
                1
            } else {
                1 + inner.children@[0].depth()
            },
        }
    }

    /// The node is the root of a well-formed subtree for the keys from
    /// `lo` up to `hi`: keys ascend strictly and lie in that range, an
    /// internal node has one child more than keys and each child is
    /// well formed for the gap between the separators on its two sides,
    /// the fanout bounds for `t` hold, and every leaf is equally deep.
    pub open spec fn valid(
        self,
        t: usize,
        lo: Option<K::Id>,
        hi: Option<K::Id>,
        is_root: bool,
    ) -> bool
        decreases self,
    {
        match self {
            SerializableNode::Leaf(leaf) => {
                let e = entry_ids(leaf.entries@);
                &&& sorted_entries(e)
                &&& forall|j: int|
                    0 <= j < e.len() ==> lo_le(lo, (#[trigger] e[j]).0) && lt_hi(e[j].0, hi)
                &&& e.len() <= 2 * t - 1
                &&& !is_root ==> e.len() >= t
            },
            SerializableNode::Internal(inner) => {
                let ks = ids(inner.keys@);
                let cs = inner.children@;
                &&& sorted_keys(ks)
                &&& cs.len() == ks.len() + 1
                &&& forall|j: int|
                    0 <= j < ks.len() ==> lo_lt(lo, #[trigger] ks[j]) && lt_hi(ks[j], hi)
                &&& 1 <= ks.len() <= 2 * t - 2
                &&& !is_root ==> ks.len() >= t - 1
                &&& forall|j: int|
                    0 <= j < cs.len() ==> (#[trigger] cs[j]).valid(
                        t,
                        bound_lo(ks, lo, j),
                        bound_hi(ks, hi, j),
                        false,
                    ) && cs[j].depth() + 1 == self.depth()
            },
        }
    }

    /// The subtree is node `n` of the tree `m` with all below it: the same
    /// keys and entries in nodes of the same kind, child by child. The
    /// links between the leaves are not part of it.
    pub open spec fn mirrors(self, m: TreeModel<K::Id>, n: int) -> bool
        decreases self,
    {
        match self {
            SerializableNode::Leaf(leaf) => m.is_leaf(n) && m.entries(n) == entry_ids(
                leaf.entries@,
            ),
            SerializableNode::Internal(inner) => {
                &&& m.is_inner(n)
                &&& m.keys(n) == ids(inner.keys@)
                &&& m.children(n).len() == inner.children@.len()
                &&& forall|j: int|
                    0 <= j < inner.children@.len() ==> (#[trigger] inner.children@[j]).mirrors(
                        m,
                        m.children(n)[j] as int,
                    )
            },
        }
    }

    /// A leaf of the subtree holds the pair `p`.
    pub open spec fn has_pair(self, p: (K::Id, ChunkHandler)) -> bool
        decreases self,
    {
        match self {
            SerializableNode::Leaf(leaf) => entry_ids(leaf.entries@).contains(p),
            SerializableNode::Internal(inner) => exists|j: int|
                0 <= j < inner.children@.len() && (#[trigger] inner.children@[j]).has_pair(p),
        }
    }
}

impl<K: BPlusKey> View for SerializableBPlus<K> {
    type V = Map<K::Id, ChunkHandler>;

    /// The map from keys to handles that the snapshot holds.
    open spec fn view(&self) -> Map<K::Id, ChunkHandler> {
        map_of(Set::new(|p: (K::Id, ChunkHandler)| self.root.has_pair(p)))
    }
}

impl<K: BPlusKey> SerializableBPlus<K> {
    /// The snapshot describes a well-formed tree.
    pub open spec fn valid(&self) -> bool {
        &&& self.t >= 2
        &&& 2 * self.t <= usize::MAX
        &&& self.root.valid(self.t, None, None, true)
    }

    /// The snapshot holds what `tree` holds: the same map, branching
    /// parameter, data directory and write position.
    pub open spec fn snapshot_of(&self, tree: &BPlus<K>) -> bool {
        &&& self.valid()
        &&& self.root.mirrors(tree.model(), tree.model().root as int)
        &&& self@ == tree@
        &&& self.t == tree.spec_t()
        &&& self.path@ == tree.spec_path()
        &&& self.file_number == tree.spec_file_number()
        &&& self.offset == tree.spec_offset()
        &&& self.max_file_size == tree.spec_max_file_size()
    }
}

/// A subtree that is a node of a tree is that node of every tree that
/// has the same nodes and more.
pub proof fn lemma_mirrors_kept<K: BPlusKey>(
    node: SerializableNode<K>,
    m: TreeModel<K::Id>,
    m2: TreeModel<K::Id>,
    n: int,
)
    requires
        node.mirrors(m, n),
        m2.nodes.len() >= m.nodes.len(),
        forall|x: int| 0 <= x < m.nodes.len() ==> m2.nodes[x] == #[trigger] m.nodes[x],
    ensures
        node.mirrors(m2, n),
    decreases node,
{
    assert(m2.nodes[n] == m.nodes[n]);
    match node {
        SerializableNode::Leaf(leaf) => {},
        SerializableNode::Internal(inner) => {
            assert forall|j: int| 0 <= j < inner.children@.len() implies (
            #[trigger] inner.children@[j]).mirrors(m2, m2.children(n)[j] as int) by {
                lemma_mirrors_kept(inner.children@[j], m, m2, m.children(n)[j] as int);
            }
        },
    }
}

/// A subtree that is a node of a tree is that node of the tree with other
/// links between its leaves.
pub proof fn lemma_mirrors_relinked<K: BPlusKey>(
    node: SerializableNode<K>,
    m: TreeModel<K::Id>,
    m2: TreeModel<K::Id>,
    n: int,
)
    requires
        node.mirrors(m, n),
        m.same_but_links(m2),
    ensures
        node.mirrors(m2, n),
    decreases node,
{
    assert(m.nodes[n] == #[trigger] m.nodes[n]);
    match node {
        SerializableNode::Leaf(leaf) => {},
        SerializableNode::Internal(inner) => {
            assert forall|j: int| 0 <= j < inner.children@.len() implies (
            #[trigger] inner.children@[j]).mirrors(m2, m2.children(n)[j] as int) by {
                lemma_mirrors_relinked(inner.children@[j], m, m2, m.children(n)[j] as int);
            }
        },
    }
}

/// Equal keys, one for one.
pub fn copy_keys<K: BPlusKey>(keys: &Vec<K>) -> (copy: Vec<K>)
    ensures
        ids(copy@) == ids(keys@),
{
    let mut copy: Vec<K> = Vec::new();
    let mut i: usize = 0;
    while i < keys.len()
        invariant
            0 <= i <= keys@.len(),
            ids(copy@) == ids(keys@).subrange(0, i as int),
        decreases keys@.len() - i,
    {
        let ghost so_far = copy@;
        copy.push(keys[i].duplicate());
        proof {
            assert(ids(copy@) =~= ids(so_far).push(ids(keys@)[i as int]));
            assert(ids(copy@) =~= ids(keys@).subrange(0, i + 1));
        }
        i = i + 1;
    }
    proof {
        assert(ids(keys@).subrange(0, i as int) =~= ids(keys@));
    }
    copy
}

/// Equal entries, one for one.
pub fn copy_entries<K: BPlusKey>(entries: &Vec<(K, ChunkHandler)>) -> (copy: Vec<(K, ChunkHandler)>)
    ensures
        entry_ids(copy@) == entry_ids(entries@),
{
    let mut copy: Vec<(K, ChunkHandler)> = Vec::new();
    let mut i: usize = 0;
    while i < entries.len()
        invariant
            0 <= i <= entries@.len(),
            entry_ids(copy@) == entry_ids(entries@).subrange(0, i as int),
        decreases entries@.len() - i,
    {
        let ghost so_far = copy@;
        copy.push((entries[i].0.duplicate(), entries[i].1.clone()));
        proof {
            assert(entry_ids(copy@) =~= entry_ids(so_far).push(entry_ids(entries@)[i as int]));
            assert(entry_ids(copy@) =~= entry_ids(entries@).subrange(0, i + 1));
        }
        i = i + 1;
    }
    proof {
        assert(entry_ids(entries@).subrange(0, i as int) =~= entry_ids(entries@));
    }
    copy
}

impl<K: BPlusKey> BPlus<K> {
    /// The subtree below `node` as a nested value.
    fn serialize_node(&self, node: usize) -> (r: SerializableNode<K>)
        requires
            self.wf(),
            self.model().is_node(node as int),
        ensures
            r.valid(
                self.t,
                self.model().lo(node as int),
                self.model().hi(node as int),
                node == self.root,
            ),
            r.depth() == self.model().level(node as int),
            r.mirrors(self.model(), node as int),
            forall|p: (K::Id, ChunkHandler)|
                r.has_pair(p) <==> self.model().under(
                    node as int,
                    p,
                    self.model().level(node as int),
                ),
        decreases self.model().level(node as int),
    {
        let ghost m = self.model();
        let ghost n = node as int;
        proof {
            assert(m.local_ok(n));
            assert(m.size_ok(n));
            assert(m.children_ok(n));
        }
        match &self.nodes[node] {
            Node::Leaf(leaf) => {
                let entries = copy_entries(&leaf.entries);
                let r = SerializableNode::Leaf(SerializableLeaf { entries });
                proof {
                    assert forall|p: (K::Id, ChunkHandler)| r.has_pair(p) <==> m.under(n, p, 0) by {
                        if r.has_pair(p) {
                            let j = choose|j: int|
                                0 <= j < entry_ids(entries@).len() && entry_ids(entries@)[j] == p;
                            assert(m.holds(n, j, p));
                        }
                        if m.under(n, p, 0) {
                            let j = choose|j: int| #[trigger] m.holds(n, j, p);
                            assert(entry_ids(entries@)[j] == p);
                        }
                    }
                }
                r
            },
            Node::Internal(internal) => {
                let keys = copy_keys(&internal.keys);
                let ghost ks = ids(internal.keys@);
                let ghost cs = internal.children@;
                let ghost lvl = m.level(n);
                let mut children: Vec<SerializableNode<K>> = Vec::new();
                let mut j: usize = 0;
                while j < internal.children.len()
                    invariant
                        self.wf(),
                        m == self.model(),
                        m.is_inner(n),
                        m.local_ok(n),
                        m.size_ok(n),
                        m.children_ok(n),
                        n == node,
                        lvl == m.level(n),
                        ks == m.keys(n),
                        cs == m.children(n),
                        cs == internal.children@,
                        0 <= j <= cs.len(),
                        children@.len() == j,
                        forall|i: int|
                            0 <= i < j ==> (#[trigger] children@[i]).valid(
                                self.t,
                                bound_lo(ks, m.lo(n), i),
                                bound_hi(ks, m.hi(n), i),
                                false,
                            ) && children@[i].depth() + 1 == lvl && children@[i].mirrors(
                                m,
                                cs[i] as int,
                            ),
                        forall|i: int, p: (K::Id, ChunkHandler)|
                            0 <= i < j ==> (#[trigger] children@[i].has_pair(p) <==> m.under(
                                cs[i] as int,
                                p,
                                (lvl - 1) as nat,
                            )),
                    decreases cs.len() - j,
                {
                    proof {
                        assert(m.slot_ok(n, j as int));
                        lemma_root_unlisted(m, n, j as int);
                    }
                    let child = self.serialize_node(internal.children[j]);
                    let ghost before = children@;
                    children.push(child);
                    proof {
                        assert forall|i: int| 0 <= i < j + 1 implies (#[trigger] children@[i]).valid(
                            self.t,
                            bound_lo(ks, m.lo(n), i),
                            bound_hi(ks, m.hi(n), i),
                            false,
                        ) && children@[i].depth() + 1 == lvl && children@[i].mirrors(
                            m,
                            cs[i] as int,
                        ) by {
                            if i < j {
                                assert(children@[i] == before[i]);
                            }
                        }
                        assert forall|i: int, p: (K::Id, ChunkHandler)| 0 <= i < j + 1 implies (
                        #[trigger] children@[i].has_pair(p) <==> m.under(
                            cs[i] as int,
                            p,
                            (lvl - 1) as nat,
                        )) by {
                            if i < j {
                                assert(children@[i] == before[i]);
                            }
                        }
                    }
                    j = j + 1;
                }
                let r = SerializableNode::Internal(SerializableInternalNode { keys, children });
                proof {
                    assert(children@[0].depth() + 1 == lvl);
                    assert(r.depth() == lvl);
                    assert forall|p: (K::Id, ChunkHandler)| r.has_pair(p) <==> m.under(n, p, lvl) by {
                        if r.has_pair(p) {
                            let i = choose|i: int|
                                0 <= i < children@.len() && (#[trigger] children@[i]).has_pair(p);
                            assert(m.under((#[trigger] m.children(n)[i]) as int, p, (lvl - 1) as nat));
                        }
                        if m.under(n, p, lvl) {
                            let i = choose|i: int|
                                0 <= i < m.children(n).len() && m.under(
                                    (#[trigger] m.children(n)[i]) as int,
                                    p,
                                    (lvl - 1) as nat,
                                );
                            assert(children@[i].has_pair(p));
                        }
                    }
                }
                r
            },
        }
    }

    /// The snapshot of the tree.
    pub fn serialize(&self) -> (snapshot: SerializableBPlus<K>)
        requires
            self.wf(),
        ensures
            snapshot.snapshot_of(self),
    {
        let root = self.serialize_node(self.root);
        let snapshot = SerializableBPlus {
            t: self.t,
            path: self.path.clone(),
            file_number: self.file_number,
            offset: self.offset,
            max_file_size: self.max_file_size,
            root,
        };
        proof {
            let m = self.model();
            let held = Set::new(|p: (K::Id, ChunkHandler)| snapshot.root.has_pair(p));
            assert forall|p: (K::Id, ChunkHandler)| held.contains(p) <==> m.pairs().contains(p) by {
                if held.contains(p) {
                    lemma_under_is_pair(m, m.root as int, p, m.level(m.root as int));
                }
                if m.pairs().contains(p) {
                    lemma_pair_is_under(m, m.root as int, p);
                }
            }
            assert(held =~= m.pairs());
        }
        snapshot
    }

    /// The snapshot that is to be written to the snapshot file.
    pub fn save(&self) -> (snapshot: SerializableBPlus<K>)
        requires
            self.wf(),
        ensures
            snapshot.snapshot_of(self),
    {
        self.serialize()
    }
}

/// The key behind an optional reference.
pub open spec fn key_of<K: BPlusKey>(bound: Option<&K>) -> Option<K::Id> {
    match bound {
        Some(k) => Some(k.id()),
        None => None,
    }
}

/// Whether the keys ascend strictly and lie strictly between `lo` and
/// `hi`.
pub fn check_keys<K: BPlusKey>(keys: &Vec<K>, lo: Option<&K>, hi: Option<&K>) -> (ok: bool)
    ensures
        ok == (sorted_keys(ids(keys@)) && forall|j: int|
            0 <= j < ids(keys@).len() ==> lo_lt(key_of(lo), #[trigger] ids(keys@)[j]) && lt_hi(
                ids(keys@)[j],
                key_of(hi),
            )),
{
    let ghost s = ids(keys@);
    let n = keys.len();
    if n == 0 {
        return true;
    }
    let mut i: usize = 0;
    while i + 1 < n
        invariant
            s == ids(keys@),
            n == s.len(),
            0 <= i < n,
            forall|a: int, b: int| 0 <= a < b <= i ==> #[trigger] s[a].key_lt(s[b]),
        decreases n - i,
    {
        proof {
            assert(s[i as int] == keys@[i as int].id() && s[i + 1] == keys@[i + 1].id());
        }
        match keys[i].compare(&keys[i + 1]) {
            KeyOrder::Less => {},
            _ => {
                assert(!s[i as int].key_lt(s[i + 1]));
                return false;
            },
        }
        proof {
            assert forall|a: int, b: int| 0 <= a < b <= i + 1 implies #[trigger] s[a].key_lt(
                s[b],
            ) by {
                if b == i + 1 && a < i {
                    assert(s[a].key_lt(s[i as int]));
                    lemma_lt_lt(s[a], s[i as int], s[i + 1]);
                }
            }
        }
        i = i + 1;
    }
    proof {
        assert(s[0] == keys@[0].id() && s[n - 1] == keys@[n - 1].id());
    }
    match lo {
        Some(l) => {
            match l.compare(&keys[0]) {
                KeyOrder::Less => {},
                _ => {
                    assert(!lo_lt(key_of(lo), s[0]));
                    return false;
                },
            }
        },
        None => {},
    }
    match hi {
        Some(h) => {
            match keys[n - 1].compare(h) {
                KeyOrder::Less => {},
                _ => {
                    assert(!lt_hi(s[n - 1], key_of(hi)));
                    return false;
                },
            }
        },
        None => {},
    }
    proof {
        assert forall|j: int| 0 <= j < s.len() implies lo_lt(key_of(lo), #[trigger] s[j])
            && lt_hi(s[j], key_of(hi)) by {
            if lo is Some && j > 0 {
                assert(s[0].key_lt(s[j]));
                lemma_lt_lt(lo.unwrap().id(), s[0], s[j]);
            }
            if hi is Some && j < n - 1 {
                assert(s[j].key_lt(s[n - 1]));
                lemma_lt_lt(s[j], s[n - 1], hi.unwrap().id());
            }
        }
    }
    true
}

/// Whether the entries ascend strictly by key and their keys lie from
/// `lo` up to, not including, `hi`.
pub fn check_entries<K: BPlusKey>(
    entries: &Vec<(K, ChunkHandler)>,
    lo: Option<&K>,
    hi: Option<&K>,
) -> (ok: bool)
    ensures
        ok == (sorted_entries(entry_ids(entries@)) && forall|j: int|
            0 <= j < entry_ids(entries@).len() ==> lo_le(key_of(lo), (#[trigger] entry_ids(entries@)[j]).0) && lt_hi(
                entry_ids(entries@)[j].0,
                key_of(hi),
            )),
{
    let ghost s = entry_ids(entries@);
    let n = entries.len();
    if n == 0 {
        return true;
    }
    let mut i: usize = 0;
    while i + 1 < n
        invariant
            s == entry_ids(entries@),
            n == s.len(),
            0 <= i < n,
            forall|a: int, b: int| 0 <= a < b <= i ==> #[trigger] s[a].0.key_lt(s[b].0),
        decreases n - i,
    {
        proof {
            assert(s[i as int].0 == entries@[i as int].0.id() && s[i + 1].0 == entries@[i + 1].0.id());
        }
        match entries[i].0.compare(&entries[i + 1].0) {
            KeyOrder::Less => {},
            _ => {
                assert(!s[i as int].0.key_lt(s[i + 1].0));
                return false;
            },
        }
        proof {
            assert forall|a: int, b: int| 0 <= a < b <= i + 1 implies #[trigger] s[a].0.key_lt(
                s[b].0,
            ) by {
                if b == i + 1 && a < i {
                    assert(s[a].0.key_lt(s[i as int].0));
                    lemma_lt_lt(s[a].0, s[i as int].0, s[i + 1].0);
                }
            }
        }
        i = i + 1;
    }
    proof {
        assert(s[0].0 == entries@[0].0.id() && s[n - 1].0 == entries@[n - 1].0.id());
    }
    match lo {
        Some(l) => {
            match entries[0].0.compare(l) {
                KeyOrder::Less => {
                    assert(!lo_le(key_of(lo), s[0].0));
                    return false;
                },
                _ => {},
            }
        },
        None => {},
    }
    match hi {
        Some(h) => {
            match entries[n - 1].0.compare(h) {
                KeyOrder::Less => {},
                _ => {
                    assert(!lt_hi(s[n - 1].0, key_of(hi)));
                    return false;
                },
            }
        },
        None => {},
    }
    proof {
        assert forall|j: int| 0 <= j < s.len() implies lo_le(
            key_of(lo),
            (#[trigger] s[j]).0,
        ) && lt_hi(s[j].0, key_of(hi)) by {
            if lo is Some && j > 0 {
                assert(s[0].0.key_lt(s[j].0));
                if s[j].0.key_lt(lo.unwrap().id()) {
                    lemma_lt_lt(s[0].0, s[j].0, lo.unwrap().id());
                }
            }
            if hi is Some && j < n - 1 {
                assert(s[j].0.key_lt(s[n - 1].0));
                lemma_lt_lt(s[j].0, s[n - 1].0, hi.unwrap().id());
            }
        }
    }
    true
}

impl<K: BPlusKey> BPlus<K> {
    /// Adds the subtree `node` to the nodes, children before parents and
    /// left before right, and returns the position and the level of its
    /// root; the leaves are left unlinked. Fails with *Corruption* where
    /// the subtree is not well formed for the keys from `lo` up to `hi`.
    fn build(
        &mut self,
        node: &SerializableNode<K>,
        lo: Option<&K>,
        hi: Option<&K>,
        is_root: bool,
    ) -> (r: Result<(usize, usize), StoreError>)
        requires
            old(self).model().partial(-1),
            old(self).model().continues_at(key_of(lo)),
            range_ok(key_of(lo), key_of(hi)),
        ensures
            r is Ok <==> node.valid(old(self).t, key_of(lo), key_of(hi), is_root),
            r is Err ==> r->Err_0 == StoreError::Corruption,
            match r {
                Ok((idx, lvl)) => {
                    let m0 = old(self).model();
                    let m1 = final(self).model();
                    &&& m1.partial(
                        if is_root {
                            idx as int
                        } else {
                            -1
                        },
                    )
                    &&& m0.extended_by(m1)
                    &&& idx == m1.nodes.len() - 1
                    &&& lvl < m1.nodes.len()
                    &&& m1.level(idx as int) == lvl
                    &&& node.depth() == lvl
                    &&& node.mirrors(m1, idx as int)
                    &&& m1.lo(idx as int) == key_of(lo)
                    &&& m1.hi(idx as int) == key_of(hi)
                    &&& m1.parent(idx as int) == -1
                    &&& m1.hi(m1.chain.last() as int) == key_of(hi)
                    &&& m1.lo(m1.chain[m0.chain.len() as int] as int) == key_of(lo)
                    &&& forall|p: (K::Id, ChunkHandler)|
                        node.has_pair(p) <==> m1.holds_from(m0.nodes.len() as int, p)
                    &&& final(self).same_config(old(self))
                },
                Err(_) => true,
            },
        decreases node,
    {
        let ghost m0 = self.model();
        let t = self.t;
        match node {
            SerializableNode::Leaf(leaf) => {
                let n = leaf.entries.len();
                if !check_entries(&leaf.entries, lo, hi) {
                    return Err(StoreError::Corruption);
                }
                if n > 2 * t - 1 || (!is_root && n < t) {
                    return Err(StoreError::Corruption);
                }
                let idx = self.nodes.len();
                let entries = copy_entries(&leaf.entries);
                self.nodes.push(Node::Leaf(Leaf { entries, next: None }));
                let count = self.nodes.len();
                let ghost m1 = m0.push_leaf(entry_ids(leaf.entries@), key_of(lo), key_of(hi));
                self.bounds = Ghost(m1.bounds);
                self.chain = Ghost(m1.chain);
                proof {
                    assert(count == idx + 1);
                    assert(self.model().nodes =~= m1.nodes);
                    assert(self.model() == m1);
                    lemma_push_leaf(m0, entry_ids(leaf.entries@), key_of(lo), key_of(hi), is_root);
                    assert forall|p: (K::Id, ChunkHandler)| node.has_pair(p) <==> m1.holds_from(
                        m0.nodes.len() as int,
                        p,
                    ) by {
                        if node.has_pair(p) {
                            let j = choose|j: int|
                                0 <= j < entry_ids(leaf.entries@).len() && entry_ids(
                                    leaf.entries@,
                                )[j] == p;
                            assert(m1.holds(idx as int, j, p));
                        }
                        if m1.holds_from(m0.nodes.len() as int, p) {
                            let (x, j) = choose|x: int, j: int|
                                m0.nodes.len() <= x && #[trigger] m1.holds(x, j, p);
                            assert(entry_ids(leaf.entries@)[j] == p);
                        }
                    }
                }
                Ok((idx, 0))
            },
            SerializableNode::Internal(inner) => {
                let nk = inner.keys.len();
                let nc = inner.children.len();
                if nc == 0 || nc - 1 != nk {
                    return Err(StoreError::Corruption);
                }
                if !check_keys(&inner.keys, lo, hi) {
                    return Err(StoreError::Corruption);
                }
                if nk < 1 || nk > 2 * t - 2 || (!is_root && nk < t - 1) {
                    return Err(StoreError::Corruption);
                }
                let ghost ks = ids(inner.keys@);
                let ghost cs = inner.children@;
                let ghost glo = key_of(lo);
                let ghost ghi = key_of(hi);
                let mut kids: Vec<usize> = Vec::new();
                let mut level: usize = 0;
                let mut j: usize = 0;
                while j < nc
                    invariant
                        *node == SerializableNode::Internal(*inner),
                        nc == cs.len(),
                        nk == ks.len(),
                        nc == nk + 1,
                        ks == ids(inner.keys@),
                        cs == inner.children@,
                        glo == key_of(lo),
                        ghi == key_of(hi),
                        t == self.t,
                        t == m0.t,
                        self.same_config(old(self)),
                        sorted_keys(ks),
                        forall|i: int|
                            0 <= i < ks.len() ==> lo_lt(glo, #[trigger] ks[i]) && lt_hi(ks[i], ghi),
                        range_ok(glo, ghi),
                        m0.partial(-1),
                        m0.continues_at(glo),
                        0 <= j <= nc,
                        self.model().partial(-1),
                        j == 0 ==> self.model() == m0,
                        j > 0 ==> {
                            let mc = self.model();
                            &&& m0.extended_by(mc)
                            &&& mc.hi(mc.chain.last() as int) == bound_hi(ks, ghi, j - 1)
                            &&& mc.lo(mc.chain[m0.chain.len() as int] as int) == glo
                            &&& level < mc.nodes.len()
                        },
                        kids@.len() == j,
                        forall|i: int|
                            0 <= i < j ==> {
                                let c = (#[trigger] kids@[i]) as int;
                                let mc = self.model();
                                &&& m0.nodes.len() <= c < mc.nodes.len()
                                &&& mc.parent(c) == -1
                                &&& mc.level(c) == level
                                &&& mc.lo(c) == bound_lo(ks, glo, i)
                                &&& mc.hi(c) == bound_hi(ks, ghi, i)
                            },
                        forall|i: int|
                            0 <= i < j ==> (#[trigger] cs[i]).valid(
                                t,
                                bound_lo(ks, glo, i),
                                bound_hi(ks, ghi, i),
                                false,
                            ) && cs[i].depth() == level && cs[i].mirrors(
                                self.model(),
                                kids@[i] as int,
                            ),
                        forall|p: (K::Id, ChunkHandler)|
                            (exists|i: int| 0 <= i < j && (#[trigger] cs[i]).has_pair(p))
                                <==> self.model().holds_from(m0.nodes.len() as int, p),
                    decreases nc - j,
                {
                    let ghost mc = self.model();
                    let clo = if j == 0 {
                        lo
                    } else {
                        Some(&inner.keys[j - 1])
                    };
                    let chi = if j == nk {
                        hi
                    } else {
                        Some(&inner.keys[j])
                    };
                    proof {
                        assert(key_of(clo) == bound_lo(ks, glo, j as int));
                        assert(key_of(chi) == bound_hi(ks, ghi, j as int));
                        if j > 0 && j < nk {
                            assert(ks[j - 1].key_lt(ks[j as int]));
                        }
                        if j > 0 {
                            assert(lt_hi(ks[j - 1], ghi));
                        }
                        if j < nk {
                            assert(lo_lt(glo, ks[j as int]));
                        }
                    }
                    let child = &inner.children[j];
                    proof {
                        assert(*child == cs[j as int]);
                        assert(node->Internal_0 == *inner);
                        assert(decreases_to!(*node => (node->Internal_0).children@[j as int]));
                    }
                    match self.build(child, clo, chi, false) {
                        Err(e) => {
                            proof {
                                assert(!cs[j as int].valid(
                                    t,
                                    bound_lo(ks, glo, j as int),
                                    bound_hi(ks, ghi, j as int),
                                    false,
                                ));
                            }
                            return Err(StoreError::Corruption);
                        },
                        Ok((c, lvl)) => {
                            if j == 0 {
                                level = lvl;
                            } else if lvl != level {
                                proof {
                                    assert(cs[0].depth() == level);
                                    assert(cs[j as int].depth() == lvl);
                                    assert(node.depth() == 1 + cs[0].depth());
                                }
                                return Err(StoreError::Corruption);
                            }
                            let ghost before = kids@;
                            kids.push(c);
                            proof {
                                let mn = self.model();
                                assert(mc.extended_by(mn));
                                assert forall|i: int| 0 <= i < j + 1 implies (#[trigger] cs[i]).mirrors(
                                    mn,
                                    kids@[i] as int,
                                ) by {
                                    if i < j {
                                        assert(kids@[i] == before[i]);
                                        lemma_mirrors_kept(cs[i], mc, mn, before[i] as int);
                                    }
                                }
                                assert(m0.extended_by(mn)) by {
                                    assert(mn.chain.subrange(0, m0.chain.len() as int)
                                        =~= mc.chain.subrange(0, m0.chain.len() as int));
                                    assert forall|x: int| 0 <= x < m0.nodes.len() implies mn.nodes[x]
                                        == #[trigger] m0.nodes[x] by {
                                        assert(mc.nodes[x] == mc.nodes[x]);
                                        assert(mn.nodes[x] == mc.nodes[x]);
                                    }
                                    assert forall|x: int| 0 <= x < m0.bounds.len() implies mn.bounds[x]
                                        == #[trigger] m0.bounds[x] by {
                                        assert(mn.bounds[x] == mc.bounds[x]);
                                    }
                                }
                                if j > 0 {
                                    assert(mn.chain[m0.chain.len() as int] == mn.chain.subrange(
                                        0,
                                        mc.chain.len() as int,
                                    )[m0.chain.len() as int]);
                                    let first = mc.chain[m0.chain.len() as int] as int;
                                    assert(mc.tile_ok(m0.chain.len() as int));
                                    assert(mn.bounds[first] == mc.bounds[first]);
                                    assert(mn.lo(mn.chain[m0.chain.len() as int] as int) == glo);
                                } else {
                                    assert(mn.lo(mn.chain[m0.chain.len() as int] as int) == glo);
                                }
                                assert(mn.hi(mn.chain.last() as int) == bound_hi(ks, ghi, j as int));
                                assert(level < mn.nodes.len());
                                assert forall|i: int| 0 <= i < j + 1 implies {
                                    let c2 = (#[trigger] kids@[i]) as int;
                                    &&& m0.nodes.len() <= c2 < mn.nodes.len()
                                    &&& mn.parent(c2) == -1
                                    &&& mn.level(c2) == level
                                    &&& mn.lo(c2) == bound_lo(ks, glo, i)
                                    &&& mn.hi(c2) == bound_hi(ks, ghi, i)
                                } by {
                                    if i < j {
                                        let c2 = before[i] as int;
                                        assert(kids@[i] == before[i]);
                                        assert(mn.bounds[c2] == mc.bounds[c2]);
                                    }
                                }
                                assert forall|p: (K::Id, ChunkHandler)|
                                    (exists|i: int| 0 <= i < j + 1 && (#[trigger] cs[i]).has_pair(p))
                                        <==> mn.holds_from(m0.nodes.len() as int, p) by {
                                    if exists|i: int| 0 <= i < j + 1 && (#[trigger] cs[i]).has_pair(p) {
                                        let i = choose|i: int|
                                            0 <= i < j + 1 && (#[trigger] cs[i]).has_pair(p);
                                        if i < j {
                                            assert(exists|i: int|
                                                0 <= i < j && (#[trigger] cs[i]).has_pair(p));
                                            assert(mc.holds_from(m0.nodes.len() as int, p));
                                            let (x, e) = choose|x: int, e: int|
                                                m0.nodes.len() <= x && #[trigger] mc.holds(x, e, p);
                                            assert(mn.nodes[x] == mc.nodes[x]);
                                            assert(mn.holds(x, e, p));
                                        } else {
                                            assert(mn.holds_from(mc.nodes.len() as int, p));
                                            let (x, e) = choose|x: int, e: int|
                                                mc.nodes.len() <= x && #[trigger] mn.holds(x, e, p);
                                            assert(mn.holds(x, e, p));
                                        }
                                    }
                                    if mn.holds_from(m0.nodes.len() as int, p) {
                                        let (x, e) = choose|x: int, e: int|
                                            m0.nodes.len() <= x && #[trigger] mn.holds(x, e, p);
                                        if x < mc.nodes.len() {
                                            assert(mn.nodes[x] == mc.nodes[x]);
                                            assert(mc.holds(x, e, p));
                                            assert(mc.holds_from(m0.nodes.len() as int, p));
                                            let i = choose|i: int|
                                                0 <= i < j && (#[trigger] cs[i]).has_pair(p);
                                            assert(cs[i].has_pair(p));
                                        } else {
                                            assert(mn.holds(x, e, p));
                                            assert(mn.holds_from(mc.nodes.len() as int, p));
                                            assert(cs[j as int].has_pair(p));
                                        }
                                    }
                                }
                            }
                        },
                    }
                    j = j + 1;
                }
                let ghost mc = self.model();
                let idx = self.nodes.len();
                let keys = copy_keys(&inner.keys);
                let ghost lvl = (level + 1) as nat;
                let ghost m1 = mc.push_inner(ks, kids@, glo, ghi, lvl);
                self.nodes.push(Node::Internal(InternalNode { children: kids, keys }));
                let count = self.nodes.len();
                self.bounds = Ghost(m1.bounds);
                proof {
                    assert(count == idx + 1);
                    assert(self.model().nodes =~= m1.nodes);
                    assert(self.model() == m1);
                    lemma_push_inner(mc, ks, kids@, glo, ghi, lvl, is_root);
                    assert(m1.bounds[idx as int].parent == -1);
                    assert forall|i: int| 0 <= i < cs.len() implies (#[trigger] cs[i]).mirrors(
                        m1,
                        m1.children(idx as int)[i] as int,
                    ) by {
                        lemma_mirrors_kept(cs[i], mc, m1, kids@[i] as int);
                    }
                    assert(m0.extended_by(m1)) by {
                        assert forall|x: int| 0 <= x < m0.nodes.len() implies m1.nodes[x]
                            == #[trigger] m0.nodes[x] by {
                            assert(mc.nodes[x] == m0.nodes[x]);
                        }
                        assert forall|x: int| 0 <= x < m0.bounds.len() implies m1.bounds[x]
                            == #[trigger] m0.bounds[x] by {
                            assert(mc.bounds[x] == m0.bounds[x]);
                            if kids@.contains(x as usize) {
                                let a = choose|a: int| 0 <= a < kids@.len() && kids@[a] == x as usize;
                                assert(m0.nodes.len() <= kids@[a]);
                            }
                        }
                    }
                    let last = mc.chain.last() as int;
                    assert(mc.tile_ok(mc.chain.len() - 1));
                    assert(m1.hi(last) == mc.hi(last)) by {
                        assert(mc.level(last) == mc.level(last));
                    }
                    let first = mc.chain[m0.chain.len() as int] as int;
                    assert(mc.tile_ok(m0.chain.len() as int));
                    assert(m1.lo(first) == mc.lo(first)) by {
                        assert(mc.level(first) == mc.level(first));
                    }
                    assert(cs[0].depth() == level);
                    assert forall|p: (K::Id, ChunkHandler)| node.has_pair(p) <==> m1.holds_from(
                        m0.nodes.len() as int,
                        p,
                    ) by {
                        if node.has_pair(p) {
                            let i = choose|i: int| 0 <= i < cs.len() && (#[trigger] cs[i]).has_pair(p);
                            assert(mc.holds_from(m0.nodes.len() as int, p));
                            let (x, e) = choose|x: int, e: int|
                                m0.nodes.len() <= x && #[trigger] mc.holds(x, e, p);
                            assert(m1.holds(x, e, p));
                        }
                        if m1.holds_from(m0.nodes.len() as int, p) {
                            let (x, e) = choose|x: int, e: int|
                                m0.nodes.len() <= x && #[trigger] m1.holds(x, e, p);
                            assert(mc.holds(x, e, p));
                            assert(mc.holds_from(m0.nodes.len() as int, p));
                            let i = choose|i: int| 0 <= i < nc && (#[trigger] cs[i]).has_pair(p);
                            assert(cs[i].has_pair(p));
                        }
                    }
                }
                Ok((idx, level + 1))
            },
        }
    }

    /// The first key of leaf `leaf`.
    fn first_key(&self, leaf: usize) -> (key: &K)
        requires
            self.model().is_leaf(leaf as int),
            self.model().entries(leaf as int).len() > 0,
        ensures
            key.id() == self.model().first_key(leaf as int),
    {
        match &self.nodes[leaf] {
            Node::Leaf(l) => &l.entries[0].0,
            Node::Internal(internal) => &internal.keys[0],
        }
    }

    /// Every leaf among the nodes, each once.
    fn collect_leaves(&self) -> (leaves: Vec<usize>)
        ensures
            leaves@.no_duplicates(),
            forall|x: usize| leaves@.contains(x) <==> self.model().is_leaf(x as int),
    {
        let ghost m = self.model();
        let mut leaves: Vec<usize> = Vec::new();
        let mut n: usize = 0;
        while n < self.nodes.len()
            invariant
                m == self.model(),
                0 <= n <= m.nodes.len(),
                forall|a: int| 0 <= a < leaves@.len() ==> (#[trigger] leaves@[a]) < n,
                leaves@.no_duplicates(),
                forall|x: usize| leaves@.contains(x) <==> x < n && m.is_leaf(x as int),
            decreases m.nodes.len() - n,
        {
            let ghost before = leaves@;
            if let Node::Leaf(_) = &self.nodes[n] {
                leaves.push(n);
                proof {
                    assert forall|x: usize| leaves@.contains(x) <==> x < n + 1 && m.is_leaf(
                        x as int,
                    ) by {
                        if leaves@.contains(x) {
                            let a = choose|a: int| 0 <= a < leaves@.len() && leaves@[a] == x;
                            if a < before.len() {
                                assert(before.contains(x));
                            }
                        }
                        if x < n + 1 && m.is_leaf(x as int) {
                            if x < n {
                                assert(before.contains(x));
                                let a = choose|a: int| 0 <= a < before.len() && before[a] == x;
                                assert(leaves@[a] == x);
                            } else {
                                assert(leaves@[before.len() as int] == x);
                            }
                        }
                    }
                }
            }
            n = n + 1;
        }
        leaves
    }

    /// The leaves in ascending order of their first keys.
    fn sort_by_first_key(&self, leaves: &Vec<usize>) -> (sorted: Vec<usize>)
        requires
            self.model().loose_inv(),
            self.model().is_inner(self.model().root as int),
            leaves@.no_duplicates(),
            forall|a: int| 0 <= a < leaves@.len() ==> self.model().is_leaf(#[trigger] leaves@[a] as int),
        ensures
            self.model().sorted_by_first(sorted@),
            forall|x: usize| sorted@.contains(x) <==> leaves@.contains(x),
    {
        let ghost m = self.model();
        let mut sorted: Vec<usize> = Vec::new();
        let mut k: usize = 0;
        while k < leaves.len()
            invariant
                m == self.model(),
                m.loose_inv(),
                m.is_inner(m.root as int),
                leaves@.no_duplicates(),
                forall|a: int| 0 <= a < leaves@.len() ==> m.is_leaf(#[trigger] leaves@[a] as int),
                0 <= k <= leaves@.len(),
                m.sorted_by_first(sorted@),
                forall|x: usize|
                    sorted@.contains(x) <==> exists|a: int| 0 <= a < k && #[trigger] leaves@[a] == x,
            decreases leaves@.len() - k,
        {
            let leaf = leaves[k];
            let ghost before = sorted@;
            proof {
                Self::lemma_leaf_not_empty(m, leaf as int);
                assert forall|b: int| 0 <= b < before.len() implies m.is_leaf(
                    #[trigger] before[b] as int,
                ) && m.entries(before[b] as int).len() > 0 && before[b] != leaf by {
                    assert(before.contains(before[b]));
                    let a = choose|a: int| 0 <= a < k && #[trigger] leaves@[a] == before[b];
                    Self::lemma_leaf_not_empty(m, before[b] as int);
                }
            }
            let mut pos: usize = sorted.len();
            while pos > 0
                invariant
                    m == self.model(),
                    m.is_leaf(leaf as int),
                    m.entries(leaf as int).len() > 0,
                    sorted@ == before,
                    forall|b: int|
                        0 <= b < before.len() ==> m.is_leaf(#[trigger] before[b] as int)
                            && m.entries(before[b] as int).len() > 0,
                    0 <= pos <= before.len(),
                    forall|b: int|
                        pos <= b < before.len() ==> m.first_key(leaf as int).key_lt(
                            m.first_key(#[trigger] before[b] as int),
                        ),
                ensures
                    pos > 0 ==> !m.first_key(leaf as int).key_lt(m.first_key(before[pos - 1] as int)),
                decreases pos,
            {
                match self.first_key(leaf).compare(self.first_key(sorted[pos - 1])) {
                    KeyOrder::Less => {
                        pos = pos - 1;
                    },
                    _ => {
                        break ;
                    },
                }
            }
            sorted.insert(pos, leaf);
            proof {
                let after = sorted@;
                assert forall|b: int| 0 <= b < after.len() implies after[b] == (if b < pos {
                    before[b]
                } else if b == pos {
                    leaf
                } else {
                    before[b - 1]
                }) by {}
                // The new leaf sorts after every leaf before its place.
                assert forall|b: int| 0 <= b < pos implies m.first_key(
                    #[trigger] before[b] as int,
                ).key_lt(m.first_key(leaf as int)) by {
                    let last = before[pos - 1];
                    Self::lemma_first_keys_differ(m, last as int, leaf as int);
                    lemma_trichotomy(m.first_key(last as int), m.first_key(leaf as int));
                    if b < pos - 1 {
                        assert(m.first_key(before[b] as int).key_lt(m.first_key(before[pos - 1] as int)));
                        lemma_lt_lt(
                            m.first_key(before[b] as int),
                            m.first_key(last as int),
                            m.first_key(leaf as int),
                        );
                    }
                }
                assert forall|a: int, b: int| 0 <= a < b < after.len() implies m.first_key(
                    #[trigger] after[a] as int,
                ).key_lt(m.first_key(#[trigger] after[b] as int)) by {
                    if b < pos {
                        assert(m.first_key(before[a] as int).key_lt(m.first_key(before[b] as int)));
                    } else if b == pos {
                        assert(m.first_key(before[a] as int).key_lt(m.first_key(leaf as int)));
                    } else if a == pos {
                        assert(m.first_key(leaf as int).key_lt(m.first_key(before[b - 1] as int)));
                    } else if a < pos {
                        assert(m.first_key(before[a] as int).key_lt(
                            m.first_key(before[b - 1] as int),
                        ));
                    } else {
                        assert(m.first_key(before[a - 1] as int).key_lt(
                            m.first_key(before[b - 1] as int),
                        ));
                    }
                }
                assert forall|x: usize| after.contains(x) <==> exists|a: int|
                    0 <= a < k + 1 && #[trigger] leaves@[a] == x by {
                    if after.contains(x) {
                        let b = choose|b: int| 0 <= b < after.len() && after[b] == x;
                        if b == pos {
                            assert(leaves@[k as int] == x);
                        } else {
                            let b0 = if b < pos {
                                b
                            } else {
                                b - 1
                            };
                            assert(before[b0] == x);
                            assert(before.contains(x));
                            let a = choose|a: int| 0 <= a < k && #[trigger] leaves@[a] == x;
                            assert(leaves@[a] == x);
                        }
                    }
                    if exists|a: int| 0 <= a < k + 1 && #[trigger] leaves@[a] == x {
                        let a = choose|a: int| 0 <= a < k + 1 && #[trigger] leaves@[a] == x;
                        if a == k {
                            assert(after[pos as int] == x);
                        } else {
                            assert(before.contains(x));
                            let b = choose|b: int| 0 <= b < before.len() && before[b] == x;
                            if b < pos {
                                assert(after[b] == x);
                            } else {
                                assert(after[b + 1] == x);
                            }
                        }
                    }
                }
            }
            k = k + 1;
        }
        proof {
            assert forall|x: usize| sorted@.contains(x) <==> leaves@.contains(x) by {
                if sorted@.contains(x) {
                    let a = choose|a: int| 0 <= a < k && #[trigger] leaves@[a] == x;
                    assert(leaves@[a] == x);
                }
                if leaves@.contains(x) {
                    let a = choose|a: int| 0 <= a < leaves@.len() && leaves@[a] == x;
                    assert(leaves@[a] == x);
                }
            }
        }
        sorted
    }

    /// A leaf below an internal root holds an entry.
    proof fn lemma_leaf_not_empty(m: TreeModel<K::Id>, leaf: int)
        requires
            m.loose_inv(),
            m.is_inner(m.root as int),
            m.is_leaf(leaf),
        ensures
            m.entries(leaf).len() > 0,
    {
        assert(m.size_ok(leaf));
    }

    /// Two leaves below an internal root begin with different keys.
    proof fn lemma_first_keys_differ(m: TreeModel<K::Id>, a: int, b: int)
        requires
            m.loose_inv(),
            m.is_inner(m.root as int),
            m.is_leaf(a),
            m.is_leaf(b),
            a != b,
        ensures
            m.first_key(a) != m.first_key(b),
    {
        Self::lemma_leaf_not_empty(m, a);
        Self::lemma_leaf_not_empty(m, b);
        assert(m.leaf_in_chain(a));
        assert(m.leaf_in_chain(b));
        let i = choose|i: int| 0 <= i < m.chain.len() && #[trigger] m.chain[i] as int == a;
        let j = choose|j: int| 0 <= j < m.chain.len() && #[trigger] m.chain[j] as int == b;
        lemma_trichotomy(m.first_key(a), m.first_key(a));
        if i < j {
            lemma_first_keys_ascend(m, i, j);
        } else {
            lemma_first_keys_ascend(m, j, i);
        }
    }

    /// Rebuilds the links between the leaves of a tree whose leaves are
    /// not linked: gathers the leaves, sorts them by their first keys and
    /// makes each the `next` of the one before it. Where the root is a
    /// leaf there is nothing to link.
    fn rebuild_links(&mut self)
        requires
            old(self).model().loose_inv(),
        ensures
            final(self).wf(),
            old(self).model().same_but_links(final(self).model()),
            final(self).model().pairs() == old(self).model().pairs(),
            final(self).same_config(old(self)),
    {
        let ghost m = self.model();
        if let Node::Leaf(_) = &self.nodes[self.root] {
            proof {
                let r = m.root as int;
                assert(m.leaf_in_chain(r));
                let a = choose|a: int| 0 <= a < m.chain.len() && #[trigger] m.chain[a] as int == r;
                assert(m.tile_ok(a));
                if a > 0 {
                    assert(m.tile_ok(a - 1));
                }
                assert(m.chain.len() == 1);
                assert(m.link_ok(0));
                lemma_relinked(m, m);
            }
            return ;
        }
        let leaves = self.collect_leaves();
        proof {
            assert forall|a: int| 0 <= a < leaves@.len() implies m.is_leaf(
                #[trigger] leaves@[a] as int,
            ) by {
                assert(leaves@.contains(leaves@[a]));
            }
        }
        let sorted_leaves = self.sort_by_first_key(&leaves);
        proof {
            assert forall|a: int| 0 <= a < m.chain.len() implies m.next(
                #[trigger] m.chain[a] as int,
            ) is None by {
                assert(m.tile_ok(a));
            }
            assert forall|i: int, j: int| 0 <= i < j < m.chain.len() implies m.first_key(
                #[trigger] m.chain[i] as int,
            ).key_lt(m.first_key(#[trigger] m.chain[j] as int)) by {
                assert(m.tile_ok(i));
                assert(m.tile_ok(j));
                Self::lemma_leaf_not_empty(m, m.chain[i] as int);
                Self::lemma_leaf_not_empty(m, m.chain[j] as int);
                lemma_first_keys_ascend(m, i, j);
            }
            assert forall|x: usize| sorted_leaves@.contains(x) <==> m.chain.contains(x) by {
                if sorted_leaves@.contains(x) {
                    assert(leaves@.contains(x));
                    assert(m.leaf_in_chain(x as int));
                    let a = choose|a: int|
                        0 <= a < m.chain.len() && #[trigger] m.chain[a] as int == x as int;
                    assert(m.chain[a] == x);
                }
                if m.chain.contains(x) {
                    let a = choose|a: int| 0 <= a < m.chain.len() && m.chain[a] == x;
                    assert(m.tile_ok(a));
                    assert(leaves@.contains(x));
                }
            }
            lemma_same_order(m, sorted_leaves@, m.chain);
        }
        let count = sorted_leaves.len();
        let mut i: usize = 0;
        while i + 1 < count
            invariant
                count == sorted_leaves@.len(),
                i < count,
                sorted_leaves@ == m.chain,
                m.loose_inv(),
                m.same_but_links(self.model()),
                self.same_config(old(self)),
                0 <= i < m.chain.len(),
                forall|a: int| 0 <= a < i ==> #[trigger] self.model().link_ok(a),
                forall|a: int|
                    i <= a < m.chain.len() ==> self.model().next(#[trigger] m.chain[a] as int) is None,
            decreases m.chain.len() - i,
        {
            let ghost mc = self.model();
            let current = sorted_leaves[i];
            let next = sorted_leaves[i + 1];
            proof {
                assert(m.tile_ok(i as int));
                assert(m.nodes[current as int] == m.nodes[current as int]);
            }
            match &mut self.nodes[current] {
                Node::Leaf(leaf) => {
                    leaf.next = Some(next);
                },
                Node::Internal(_) => {},
            }
            proof {
                let mn = self.model();
                assert(mn.nodes =~= mc.nodes.update(
                    current as int,
                    crate::model::NodeView::Leaf {
                        entries: mc.entries(current as int),
                        next: Some(next),
                    },
                ));
                assert forall|n: int| 0 <= n < m.nodes.len() implies match #[trigger] m.nodes[n] {
                    crate::model::NodeView::Internal { keys, children } => mn.nodes[n] == m.nodes[n],
                    crate::model::NodeView::Leaf { entries, next } => mn.nodes[n] is Leaf
                        && mn.entries(n) == entries,
                } by {
                    assert(mc.nodes[n] == mc.nodes[n]);
                }
                assert forall|a: int| 0 <= a < i + 1 implies #[trigger] mn.link_ok(a) by {
                    if a < i {
                        assert(mc.link_ok(a));
                        assert(m.chain[a] != m.chain[i as int]);
                        assert(m.tile_ok(a));
                    }
                }
                assert forall|a: int| i + 1 <= a < m.chain.len() implies mn.next(
                    #[trigger] m.chain[a] as int,
                ) is None by {
                    assert(m.chain[a] != m.chain[i as int]);
                    assert(m.tile_ok(a));
                }
            }
            i = i + 1;
        }
        proof {
            let mn = self.model();
            assert forall|a: int| 0 <= a < mn.chain.len() implies #[trigger] mn.link_ok(a) by {
                if a == m.chain.len() - 1 {
                    assert(mn.next(m.chain[a] as int) is None);
                }
            }
            lemma_relinked(m, mn);
        }
    }

    /// What `load` gives for `snapshot`: a tree where the snapshot is
    /// valid, else *Corruption*; and the tree is well formed and holds
    /// what the snapshot holds.
    pub open spec fn loads_as(snapshot: &SerializableBPlus<K>, r: Result<BPlus<K>, StoreError>) -> bool {
        &&& r is Ok <==> snapshot.valid()
        &&& match r {
            Ok(tree) => {
                &&& tree.wf()
                &&& snapshot.root.mirrors(tree.model(), tree.model().root as int)
                &&& tree@ == snapshot@
                &&& tree.spec_t() == snapshot.t
                &&& tree.spec_path() == snapshot.path@
                &&& tree.spec_file_number() == snapshot.file_number
                &&& tree.spec_offset() == snapshot.offset
                &&& tree.spec_max_file_size() == snapshot.max_file_size
            },
            Err(e) => e == StoreError::Corruption,
        }
    }

    /// The tree that a snapshot describes, with the links between its
    /// leaves rebuilt. Fails with *Corruption* where the snapshot does not
    /// describe a well-formed tree; no tree is then made.
    pub fn load(snapshot: SerializableBPlus<K>) -> (r: Result<Self, StoreError>)
        ensures
            Self::loads_as(&snapshot, r),
    {
        snapshot.deserialize()
    }

    /// Saving a tree and loading what was saved gives a well-formed tree
    /// with the same map from keys to handles, branching parameter, data
    /// directory and write position.
    pub proof fn lemma_save_load(
        &self,
        snapshot: &SerializableBPlus<K>,
        r: Result<BPlus<K>, StoreError>,
    )
        requires
            snapshot.snapshot_of(self),
            Self::loads_as(snapshot, r),
        ensures
            r is Ok,
            r->Ok_0.wf(),
            r->Ok_0@ == self@,
            r->Ok_0.spec_t() == self.spec_t(),
            r->Ok_0.spec_path() == self.spec_path(),
            r->Ok_0.spec_file_number() == self.spec_file_number(),
            r->Ok_0.spec_offset() == self.spec_offset(),
            r->Ok_0.spec_max_file_size() == self.spec_max_file_size(),
    {
    }
}

impl<K: BPlusKey> SerializableBPlus<K> {
    /// The tree that the snapshot describes, with the links between its
    /// leaves rebuilt. Fails with *Corruption* where the snapshot does not
    /// describe a well-formed tree.
    pub fn deserialize(self) -> (r: Result<BPlus<K>, StoreError>)
        ensures
            BPlus::loads_as(&self, r),
    {
        if self.t < 2 || self.t > usize::MAX / 2 {
            return Err(StoreError::Corruption);
        }
        let ghost bounds = Seq::<crate::model::Bounds<K::Id>>::empty();
        let ghost chain = Seq::<usize>::empty();
        let mut tree = BPlus {
            nodes: Vec::new(),
            root: 0,
            t: self.t,
            path: self.path.clone(),
            file_number: self.file_number,
            offset: self.offset,
            max_file_size: self.max_file_size,
            bounds: Ghost(bounds),
            chain: Ghost(chain),
        };
        let ghost m0 = tree.model();
        proof {
            assert(m0.nodes.len() == 0);
            assert(m0.partial(-1));
        }
        match tree.build(&self.root, None, None, true) {
            Err(e) => Err(StoreError::Corruption),
            Ok((root, _)) => {
                let ghost m1 = tree.model();
                tree.root = root;
                proof {
                    lemma_built(m1, root);
                    assert(tree.model() == m1.rooted_at(root));
                }
                let ghost m2 = tree.model();
                tree.rebuild_links();
                proof {
                    lemma_mirrors_kept(self.root, m1, m2, root as int);
                    lemma_mirrors_relinked(self.root, m2, tree.model(), root as int);
                    let held = Set::new(|p: (K::Id, ChunkHandler)| self.root.has_pair(p));
                    assert forall|p: (K::Id, ChunkHandler)| held.contains(p) <==> m1.pairs().contains(
                        p,
                    ) by {
                        if held.contains(p) {
                            assert(m1.holds_from(0, p));
                            let (x, e) = choose|x: int, e: int| 0 <= x && #[trigger] m1.holds(x, e, p);
                            assert(m1.holds(x, e, p));
                        }
                        if m1.pairs().contains(p) {
                            let (x, e) = choose|x: int, e: int| #[trigger] m1.holds(x, e, p);
                            assert(m1.holds_from(0, p));
                        }
                    }
                    assert(held =~= m1.pairs());
                }
                Ok(tree)
            },
        }
    }
}

} // verus!
