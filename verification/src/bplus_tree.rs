pub use crate::chunk_pointer::ChunkHandler;
use crate::descent::{
    above, frame_ok, holds_enough, kept_above, lemma_path_pop, lemma_path_same, path_ok,
};
use crate::error::StoreError;
use crate::history::inserted;
use crate::insertion::{lemma_place_of, lemma_way_step, place_of};
use crate::key::{ids, BPlusKey};
use crate::model::{
    lemma_leaf_unique, lemma_view_absent, lemma_view_at, sorted_entries, Bounds, NodeView, TreeModel,
};
use crate::order::{lemma_ordered, lemma_ordered_at, lemma_upto_prefix};
use crate::search::{child_slot, entry_ids, search_entries};
use crate::segment::{segment_path, segment_path_text};
use crate::steps::{
    lemma_add_child, lemma_grow, lemma_leaf_put, lemma_split_inner, lemma_split_leaf, put_at,
};
use vstd::prelude::*;

pub mod snapshot;

verus! {

/// The size at which a segment file is closed and the next one begun,
/// unless another is chosen: 2 MiB.
pub const DEFAULT_MAX_FILE_SIZE: u64 = 2097152;

/// Internal node of the tree: separator keys, and one child more than keys.
#[derive(Debug, PartialEq, Eq)]
pub struct InternalNode<K> {
    /// Children of the node, as positions among the tree's nodes.
    pub children: Vec<usize>,
    /// Separator keys of the node.
    pub keys: Vec<K>,
}

/// Leaf of the tree.
#[derive(Debug, PartialEq, Eq)]
pub struct Leaf<K> {
    /// The entries of the leaf, sorted by key.
    pub entries: Vec<(K, ChunkHandler)>,
    /// The next leaf in key order, as a position among the tree's nodes;
    /// none after the last leaf.
    pub next: Option<usize>,
}

/// A node of the tree. All data lies in the leaves; internal nodes route.
#[derive(Debug, PartialEq, Eq)]
pub enum Node<K> {
    Internal(InternalNode<K>),
    Leaf(Leaf<K>),
}

impl<K: BPlusKey> View for Node<K> {
    type V = NodeView<K::Id>;

    /// What the node holds, with every key taken by its identity.
    open spec fn view(&self) -> NodeView<K::Id> {
        match *self {
            Node::Internal(inner) => NodeView::Internal {
                keys: ids(inner.keys@),
                children: inner.children@,
            },
            Node::Leaf(leaf) => NodeView::Leaf {
                entries: entry_ids(leaf.entries@),
                next: leaf.next,
            },
        }
    }
}

impl<K: BPlusKey> Node<K> {
    /// Splits the node at `t` and returns the new right sibling with the
    /// key that separates the two.
    ///
    /// A leaf keeps its first `t` entries and hands on the rest; the
    /// separator is a copy of the first key handed on. The new leaf takes
    /// over the old leaf's `next`, and the old leaf's `next` becomes
    /// `link`, the position the new leaf is to have. An internal node keeps
    /// its first `t - 1` keys and `t` children, gives up the key after
    /// them as the separator and hands on the rest.
    pub fn split(&mut self, t: usize, link: usize) -> (r: (Node<K>, K))
        requires
            t >= 1,
            match old(self)@ {
                NodeView::Leaf { entries, next } => entries.len() > t,
                NodeView::Internal { keys, children } => keys.len() >= t && children.len() >= t,
            },
        ensures
            match old(self)@ {
                NodeView::Leaf { entries, next } => {
                    &&& final(self)@ == NodeView::Leaf {
                        entries: entries.subrange(0, t as int),
                        next: Some(link),
                    }
                    &&& r.0@ == NodeView::Leaf {
                        entries: entries.subrange(t as int, entries.len() as int),
                        next,
                    }
                    &&& r.1.id() == entries[t as int].0
                },
                NodeView::Internal { keys, children } => {
                    &&& final(self)@ == NodeView::Internal {
                        keys: keys.subrange(0, t - 1),
                        children: children.subrange(0, t as int),
                    }
                    &&& r.0@ == NodeView::Internal {
                        keys: keys.subrange(t as int, keys.len() as int),
                        children: children.subrange(t as int, children.len() as int),
                    }
                    &&& r.1.id() == keys[t - 1]
                },
            },
    {
        match self {
            Node::Leaf(leaf) => {
                let ghost entries = leaf.entries@;
                let new_leaf_entries = leaf.entries.split_off(t);
                let middle_key = new_leaf_entries[0].0.duplicate();
                proof {
                    assert(entry_ids(leaf.entries@) =~= entry_ids(entries).subrange(0, t as int));
                    assert(entry_ids(new_leaf_entries@) =~= entry_ids(entries).subrange(
                        t as int,
                        entries.len() as int,
                    ));
                }
                let new_leaf = Node::Leaf(Leaf { entries: new_leaf_entries, next: leaf.next });
                leaf.next = Some(link);
                (new_leaf, middle_key)
            },
            Node::Internal(internal_node) => {
                let ghost keys = internal_node.keys@;
                let mut new_node_keys = internal_node.keys.split_off(t - 1);
                let middle_key = new_node_keys.remove(0);
                let new_node_children = internal_node.children.split_off(t);
                proof {
                    assert(new_node_keys@ =~= keys.subrange(t as int, keys.len() as int));
                    assert(ids(internal_node.keys@) =~= ids(keys).subrange(0, t - 1));
                    assert(ids(new_node_keys@) =~= ids(keys).subrange(t as int, keys.len() as int));
                }
                let new_node = Node::Internal(
                    InternalNode { children: new_node_children, keys: new_node_keys },
                );
                (new_node, middle_key)
            },
        }
    }
}

/// A way down the tree for an insertion.
#[derive(Debug, PartialEq, Eq)]
pub struct Descent {
    /// The internal nodes that were passed, from the root down, each with
    /// the child slot that was taken.
    pub path: Vec<(usize, usize)>,
    /// The leaf that was reached.
    pub leaf: usize,
    /// The number of nodes at the end of the path whose write latches are
    /// still held at the leaf.
    pub held: usize,
}

/// Where the next chunk is to be written, and whether its segment file has
/// to be created first.
#[derive(Debug, PartialEq, Eq)]
pub struct WritePlan {
    /// The chunk begins a new segment file: the file at the handle's path
    /// is to be created, or emptied if it exists, before the chunk is
    /// written.
    pub new_segment: bool,
    /// The place of the chunk.
    pub handle: ChunkHandler,
}

/// B+ tree that maps keys to the places of chunks in segment files.
///
/// The nodes lie in one vector and refer to each other by position. Beside
/// the nodes the tree records where the next chunk is to be written: the
/// data directory, the number of the current segment file, the offset in
/// it, and the size at which a segment is closed.
pub struct BPlus<K: BPlusKey> {
    /// Every node of the tree.
    nodes: Vec<Node<K>>,
    /// Position of the root.
    root: usize,
    /// Branching parameter: the least and half the greatest fanout.
    t: usize,
    /// Path to the directory that holds the segment files.
    path: String,
    /// Number of the current segment file.
    file_number: usize,
    /// Offset at which the next chunk goes into the current segment file.
    offset: u64,
    /// Size at which a segment file is closed.
    max_file_size: u64,
    /// Level, key range and parent of every node.
    bounds: Ghost<Seq<Bounds<K::Id>>>,
    /// The leaves in key order.
    chain: Ghost<Seq<usize>>,
}

impl<K: BPlusKey> View for BPlus<K> {
    type V = Map<K::Id, ChunkHandler>;

    /// The map from keys to handles that the tree holds.
    closed spec fn view(&self) -> Map<K::Id, ChunkHandler> {
        self.model().view_map()
    }
}

impl<K: BPlusKey> BPlus<K> {
    /// The tree as the proofs see it.
    pub closed spec fn model(&self) -> TreeModel<K::Id> {
        TreeModel {
            nodes: self.nodes@.map_values(|n: Node<K>| n@),
            bounds: self.bounds@,
            chain: self.chain@,
            root: self.root,
            t: self.t,
        }
    }

    /// The tree is well formed: in every node the keys ascend strictly;
    /// an internal node has one child more than keys, and the keys below a
    /// child lie between the separators on its two sides; no node but the
    /// root holds fewer than `t - 1` keys (internal) or `t` entries (leaf),
    /// and none more than `2t - 2` keys or `2t - 1` entries; all leaves are
    /// at the same depth; and the leaves are linked in key order, the last
    /// to none.
    pub closed spec fn wf(&self) -> bool {
        self.model().inv()
    }

    /// The branching parameter.
    pub closed spec fn spec_t(&self) -> usize {
        self.t
    }

    /// The data directory, as text.
    pub closed spec fn spec_path(&self) -> Seq<char> {
        self.path@
    }

    /// The number of the current segment file.
    pub closed spec fn spec_file_number(&self) -> usize {
        self.file_number
    }

    /// The offset at which the next chunk goes into the current segment.
    pub closed spec fn spec_offset(&self) -> u64 {
        self.offset
    }

    /// The size at which a segment file is closed.
    pub closed spec fn spec_max_file_size(&self) -> u64 {
        self.max_file_size
    }

    /// An empty tree with branching parameter `t`, whose chunks are to go
    /// into segment files in the directory `path`, beginning at offset 0
    /// of segment 0.
    pub fn new(t: usize, path: String) -> (tree: Self)
        requires
            t >= 2,
            2 * t <= usize::MAX,
        ensures
            tree.wf(),
            tree@ == Map::<K::Id, ChunkHandler>::empty(),
            tree.spec_t() == t,
            tree.spec_path() == path@,
            tree.spec_file_number() == 0,
            tree.spec_offset() == 0,
            tree.spec_max_file_size() == DEFAULT_MAX_FILE_SIZE,
    {
        let mut nodes: Vec<Node<K>> = Vec::new();
        nodes.push(Node::Leaf(Leaf { entries: Vec::new(), next: None }));
        let ghost bounds = seq![Bounds::<K::Id> { level: 0, lo: None, hi: None, parent: -1 }];
        let ghost chain = seq![0usize];
        let tree = BPlus {
            nodes,
            root: 0,
            t,
            path,
            file_number: 0,
            offset: 0,
            max_file_size: DEFAULT_MAX_FILE_SIZE,
            bounds: Ghost(bounds),
            chain: Ghost(chain),
        };
        proof {
            let m = tree.model();
            assert(m.entries(0) =~= Seq::empty());
            assert(m.local_ok(0));
            assert(m.chain_at_ok(0));
            assert(m.leaf_in_chain(0)) by {
                assert(m.chain[0] as int == 0);
            }
            assert(m.size_ok(0));
            assert(m.children_ok(0));
            assert(m.inv());
            assert forall|k: K::Id| !(#[trigger] tree@.contains_key(k)) by {
                if tree@.contains_key(k) {
                    let v = choose|v: ChunkHandler| m.pairs().contains((k, v));
                    let (n, j) = choose|n: int, j: int| #[trigger] m.holds(n, j, (k, v));
                }
            }
            assert(tree@ =~= Map::<K::Id, ChunkHandler>::empty());
        }
        tree
    }

    /// The leaf in whose range `key` lies.
    fn find_leaf(&self, key: &K) -> (leaf: usize)
        requires
            self.wf(),
        ensures
            self.model().is_leaf(leaf as int),
            self.model().in_range(leaf as int, key.id()),
    {
        let ghost m = self.model();
        let mut current = self.root;
        loop
            invariant
                self.wf(),
                m == self.model(),
                m.is_node(current as int),
                m.in_range(current as int, key.id()),
            ensures
                m.is_leaf(current as int),
            decreases m.level(current as int),
        {
            proof {
                assert(m.local_ok(current as int));
                assert(m.children_ok(current as int));
            }
            match &self.nodes[current] {
                Node::Leaf(_) => {
                    break ;
                },
                Node::Internal(internal) => {
                    let pos = child_slot(&internal.keys, key);
                    proof {
                        assert(m.slot_ok(current as int, pos as int));
                    }
                    current = internal.children[pos];
                },
            }
        }
        current
    }

    /// Gets the handle stored under `key`, or *NotFound* where the tree
    /// holds no such key.
    pub fn get(&self, key: &K) -> (r: Result<ChunkHandler, StoreError>)
        requires
            self.wf(),
        ensures
            match r {
                Ok(handle) => self@.contains_key(key.id()) && handle == self@[key.id()],
                Err(e) => e == StoreError::NotFound && !self@.contains_key(key.id()),
            },
    {
        let current = self.find_leaf(key);
        let ghost m = self.model();
        proof {
            assert(m.local_ok(current as int));
        }
        match &self.nodes[current] {
            Node::Leaf(leaf) => {
                match search_entries(&leaf.entries, key) {
                    Ok(pos) => {
                        proof {
                            lemma_view_at(m, current as int, pos as int);
                        }
                        Ok(leaf.entries[pos].1.clone())
                    },
                    Err(_) => {
                        proof {
                            lemma_view_absent(m, current as int, key.id());
                        }
                        Err(StoreError::NotFound)
                    },
                }
            },
            Node::Internal(_) => Err(StoreError::NotFound),
        }
    }

    /// The two trees have the same branching parameter, data directory,
    /// current segment, offset and segment size.
    pub open spec fn same_config(&self, other: &Self) -> bool {
        &&& self.spec_t() == other.spec_t()
        &&& self.spec_path() == other.spec_path()
        &&& self.spec_file_number() == other.spec_file_number()
        &&& self.spec_offset() == other.spec_offset()
        &&& self.spec_max_file_size() == other.spec_max_file_size()
    }

    /// The leaf in whose range `key` lies.
    pub open spec fn target_leaf(&self, key: K::Id) -> int {
        self.model().leaf_for(key)
    }

    /// An insertion of `key` can take the fast path: the root is no leaf,
    /// and the leaf for `key` holds fewer than `2t - 1` entries, so that
    /// one more cannot make it split.
    pub open spec fn has_room(&self, key: K::Id) -> bool {
        let m = self.model();
        &&& !m.is_leaf(m.root as int)
        &&& m.entries(self.target_leaf(key)).len() < 2 * m.t - 1
    }

    /// An insertion of `key` splits a node: the leaf for `key` holds
    /// `2t - 1` entries, and none of them under `key`.
    pub open spec fn splits_on(&self, key: K::Id) -> bool {
        let m = self.model();
        &&& m.entries(self.target_leaf(key)).len() == 2 * m.t - 1
        &&& !self@.contains_key(key)
    }

    /// Puts the pair into leaf `leaf` at the place of its key, over the
    /// entry with that key if there is one. Says whether the leaf now
    /// holds `2t` entries and has to be split.
    fn put_entry(&mut self, leaf: usize, key: K, value: ChunkHandler) -> (overfull: bool)
        requires
            old(self).wf(),
            old(self).model().is_leaf(leaf as int),
            old(self).model().in_range(leaf as int, key.id()),
        ensures
            final(self)@ == old(self)@.insert(key.id(), value),
            final(self).same_config(old(self)),
            final(self).model() == old(self).model().with_entries(
                leaf as int,
                put_at(
                    old(self).model().entries(leaf as int),
                    place_of(old(self).model().entries(leaf as int), key.id()),
                    key.id(),
                    value,
                ),
            ),
            final(self).model().root == old(self).model().root,
            old(self).model().same_but_leaf(final(self).model(), leaf as int),
            kept_above(old(self).model(), final(self).model(), 0),
            !overfull ==> final(self).wf(),
            overfull ==> final(self).model().overfull(leaf as int),
            overfull <==> old(self).model().entries(leaf as int).len() == 2 * old(self).model().t
                - 1 && !old(self)@.contains_key(key.id()),
    {
        let ghost m = self.model();
        let ghost k = key.id();
        let ghost raw = old(self).nodes@[leaf as int]->Leaf_0.entries@;
        let ghost j: int = 0;
        let t = self.t;
        let mut overfull = false;
        proof {
            assert(m.local_ok(leaf as int));
            assert(m.size_ok(leaf as int));
        }
        match &mut self.nodes[leaf] {
            Node::Leaf(l) => {
                match search_entries(&l.entries, &key) {
                    Ok(pos) => {
                        proof {
                            j = pos as int;
                            lemma_view_at(m, leaf as int, j);
                        }
                        l.entries[pos] = (key, value);
                    },
                    Err(pos) => {
                        proof {
                            j = pos as int;
                            lemma_view_absent(m, leaf as int, k);
                        }
                        l.entries.insert(pos, (key, value));
                    },
                }
                overfull = l.entries.len() == 2 * t;
            },
            Node::Internal(_) => {},
        }
        proof {
            lemma_place_of(m.entries(leaf as int), j, k);
            let m1 = m.with_entries(leaf as int, put_at(m.entries(leaf as int), j, k, value));
            let now = self.nodes@[leaf as int]->Leaf_0.entries@;
            assert(m.entries(leaf as int) == entry_ids(raw));
            assert(entry_ids(now) =~= put_at(entry_ids(raw), j, k, value));
            assert(self.model().nodes =~= m1.nodes);
            assert(self.model() == m1);
            lemma_leaf_put(m, leaf as int, j, k, value);
            assert forall|x: int| 0 <= x < m.nodes.len() implies m1.level(x) == #[trigger] m.level(x)
                && (m.level(x) > 0 ==> m1.nodes[x] == m.nodes[x]) by {
                assert(m.local_ok(x));
            }
        }
        overfull
    }

    /// Splits node `node`, which holds one key too many, and adds the new
    /// right sibling to the nodes. Returns the sibling's position and the
    /// key that separates the two.
    fn split_node(&mut self, node: usize, Ghost(at): Ghost<Option<(int, int)>>) -> (r: (usize, K))
        requires
            old(self).model().overfull(node as int),
            old(self).model().attached(node as int, at),
        ensures
            final(self).model().pending(node as int, r.0 as int, r.1.id(), at),
            final(self).model() == old(self).model().split_node(node as int),
            r.0 == old(self).model().nodes.len(),
            r.1.id() == old(self).model().median(node as int),
            final(self).model().nodes.len() == old(self).model().nodes.len() + 1,
            final(self)@ == old(self)@,
            final(self).same_config(old(self)),
            final(self).model().root == old(self).model().root,
            kept_above(
                old(self).model(),
                final(self).model(),
                old(self).model().level(node as int),
            ),
    {
        let ghost m = self.model();
        let t = self.t;
        let link = self.nodes.len();
        proof {
            assert(m.local_ok(node as int));
        }
        let (right, median) = self.nodes[node].split(t, link);
        self.nodes.push(right);
        let count = self.nodes.len();
        proof {
            assert(count == link + 1);
            assert(m.nodes.len() < usize::MAX);
        }
        if let Node::Leaf(_) = &self.nodes[node] {
            let ghost m2 = m.split_leaf(node as int);
            self.bounds = Ghost(m2.bounds);
            self.chain = Ghost(m2.chain);
            proof {
                assert(self.model().nodes =~= m2.nodes);
                assert(self.model() == m2);
                lemma_split_leaf(m, node as int, at);
            }
        } else {
            let ghost m2 = m.split_inner(node as int);
            self.bounds = Ghost(m2.bounds);
            proof {
                assert(self.model().nodes =~= m2.nodes);
                assert(self.model() == m2);
                lemma_split_inner(m, node as int, at);
            }
        }
        proof {
            let m2 = self.model();
            assert forall|x: int| 0 <= x < m.nodes.len() implies m2.level(x) == #[trigger] m.level(x)
                && (m.level(x) > m.level(node as int) ==> m2.nodes[x] == m.nodes[x]) by {}
        }
        (link, median)
    }

    /// Gives internal node `node` the separator `median` at key position
    /// `pos` and the node `right` as the child right of it. Says whether
    /// the node now holds `2t - 1` keys and has to be split.
    fn add_child(
        &mut self,
        node: usize,
        pos: usize,
        median: K,
        right: usize,
        Ghost(c): Ghost<int>,
    ) -> (overfull: bool)
        requires
            old(self).model().pending(c, right as int, median.id(), Some((node as int, pos as int))),
        ensures
            final(self)@ == old(self)@,
            final(self).same_config(old(self)),
            final(self).model().root == old(self).model().root,
            kept_above(
                old(self).model(),
                final(self).model(),
                old(self).model().level(node as int),
            ),
            final(self).model() == old(self).model().with_child(
                node as int,
                pos as int,
                median.id(),
                right as int,
            ),
            !overfull ==> final(self).wf(),
            overfull ==> final(self).model().overfull(node as int),
            overfull <==> old(self).model().keys(node as int).len() == 2 * old(self).model().t - 2,
    {
        let ghost m = self.model();
        let ghost med = median.id();
        let ghost raw = old(self).nodes@[node as int]->Internal_0.keys@;
        let t = self.t;
        let mut overfull = false;
        proof {
            assert(m.local_ok(node as int));
            assert(m.size_ok(node as int));
        }
        match &mut self.nodes[node] {
            Node::Internal(internal) => {
                internal.keys.insert(pos, median);
                internal.children.insert(pos + 1, right);
                overfull = internal.keys.len() == 2 * t - 1;
            },
            Node::Leaf(_) => {},
        }
        proof {
            let m2 = m.with_child(node as int, pos as int, med, right as int);
            let now = self.nodes@[node as int]->Internal_0.keys@;
            assert(ids(now) =~= ids(raw).insert(pos as int, med));
            assert(self.model().nodes =~= m2.nodes);
            assert(self.model() == m2);
            lemma_add_child(m, c, right as int, med, node as int, pos as int);
            assert forall|x: int| 0 <= x < m.nodes.len() implies m2.level(x) == #[trigger] m.level(x)
                && (m.level(x) > m.level(node as int) ==> m2.nodes[x] == m.nodes[x]) by {}
        }
        overfull
    }

    /// Puts a new root above the old root and its new right sibling
    /// `right`, with `median` as its one key.
    fn grow_root(&mut self, right: usize, median: K)
        requires
            old(self).model().pending(
                old(self).model().root as int,
                right as int,
                median.id(),
                None,
            ),
        ensures
            final(self).wf(),
            final(self).model() == old(self).model().grow(
                old(self).model().root as int,
                right as int,
                median.id(),
            ),
            final(self).model().nodes.len() == old(self).model().nodes.len() + 1,
            final(self)@ == old(self)@,
            final(self).same_config(old(self)),
    {
        let ghost m = self.model();
        let ghost med = median.id();
        let ghost m2 = m.grow(m.root as int, right as int, med);
        let mut keys: Vec<K> = Vec::new();
        keys.push(median);
        let mut children: Vec<usize> = Vec::new();
        children.push(self.root);
        children.push(right);
        let top = self.nodes.len();
        self.nodes.push(Node::Internal(InternalNode { children, keys }));
        let count = self.nodes.len();
        self.root = top;
        self.bounds = Ghost(m2.bounds);
        proof {
            assert(count == top + 1);
            assert(ids(keys@) =~= seq![med]);
            assert(children@ =~= seq![m.root, right]);
            assert(self.model().nodes =~= m2.nodes);
            assert(self.model() == m2);
            lemma_grow(m, m.root as int, right as int, med);
        }
    }

    /// Goes down from the root to the leaf for `key`. Returns the path,
    /// as the internal nodes passed with the child slot taken at each, the
    /// leaf, and the number of nodes at the end of the path whose latches
    /// an insertion still holds when it reaches the leaf: passing a safe
    /// node releases every latch above it.
    pub fn descend(&self, key: &K) -> (r: Descent)
        requires
            self.wf(),
        ensures
            path_ok(self.model(), r.path@, r.leaf as int),
            r.path@ == self.model().way_down(self.model().root as int, key.id()),
            r.leaf == self.model().leaf_for(key.id()),
            self.model().is_leaf(r.leaf as int),
            self.model().in_range(r.leaf as int, key.id()),
            holds_enough(self.model(), r.path@, r.held as int),
    {
        let ghost m = self.model();
        let mut path: Vec<(usize, usize)> = Vec::new();
        let mut held: usize = 0;
        let mut current = self.root;
        loop
            invariant
                self.wf(),
                m == self.model(),
                m.is_node(current as int),
                m.in_range(current as int, key.id()),
                path_ok(m, path@, current as int),
                holds_enough(m, path@, held as int),
                m.way_down(m.root as int, key.id()) == path@ + m.way_down(current as int, key.id()),
            ensures
                m.is_leaf(current as int),
            decreases m.level(current as int),
        {
            proof {
                assert(m.local_ok(current as int));
                assert(m.children_ok(current as int));
                assert(m.size_ok(current as int));
            }
            match &self.nodes[current] {
                Node::Leaf(_) => {
                    break ;
                },
                Node::Internal(internal) => {
                    let pos = child_slot(&internal.keys, key);
                    let ghost before = path@;
                    // A node that one more key cannot fill is safe: the
                    // latches above it are released.
                    if internal.keys.len() != 2 * self.t - 2 {
                        held = 0;
                    }
                    path.push((current, pos));
                    let depth = path.len();
                    assert(held < depth);
                    held = held + 1;
                    let next_node = internal.children[pos];
                    proof {
                        assert(m.slot_ok(current as int, pos as int));
                        lemma_way_step(m, current as int, pos as int, key.id());
                        assert(before + (seq![(current, pos)] + m.way_down(next_node as int, key.id()))
                            =~= path@ + m.way_down(next_node as int, key.id()));
                        assert forall|i: int| 0 <= i < path@.len() implies #[trigger] frame_ok(
                            m,
                            path@,
                            next_node as int,
                            i,
                        ) by {
                            if i < before.len() {
                                assert(frame_ok(m, before, current as int, i));
                            }
                        }
                    }
                    current = next_node;
                },
            }
        }
        proof {
            assert(path@ + m.way_down(current as int, key.id()) =~= path@);
            lemma_leaf_unique(m, current as int, m.leaf_for(key.id()), key.id());
        }
        Descent { path, leaf: current, held }
    }

    /// The fast path of an insertion: where the leaf for `key` is sure not
    /// to split, puts the pair into it, over the entry with that key if
    /// there is one, and changes no other node. Fails, and leaves the tree
    /// as it is, where the root is a leaf or the leaf for `key` holds
    /// `2t - 1` entries.
    pub fn optimistic_insert(&mut self, key: K, value: ChunkHandler) -> (r: Result<(), ()>)
        requires
            old(self).wf(),
        ensures
            match r {
                Ok(_) => {
                    &&& old(self).has_room(key.id())
                    &&& final(self).wf()
                    &&& final(self)@ == old(self)@.insert(key.id(), value)
                    &&& final(self).same_config(old(self))
                    &&& final(self).model() == old(self).model().after_insert(key.id(), value)
                    &&& old(self).model().same_but_leaf(
                        final(self).model(),
                        old(self).target_leaf(key.id()),
                    )
                },
                Err(_) => !old(self).has_room(key.id()) && *final(self) == *old(self),
            },
    {
        let ghost m = self.model();
        if let Node::Leaf(_) = &self.nodes[self.root] {
            return Err(());
        }
        let leaf = self.find_leaf(&key);
        proof {
            lemma_leaf_unique(m, leaf as int, self.target_leaf(key.id()), key.id());
            assert(m.size_ok(leaf as int));
        }
        let full = match &self.nodes[leaf] {
            Node::Leaf(l) => l.entries.len() == 2 * self.t - 1,
            Node::Internal(_) => true,
        };
        if full {
            return Err(());
        }
        let overfull = self.put_entry(leaf, key, value);
        proof {
            assert(self.model().size_ok(leaf as int));
        }
        Ok(())
    }

    /// Inserts `value` under `key`; a value already stored under `key` is
    /// replaced.
    ///
    /// The fast path is tried first. Where it fails, the insertion goes
    /// down to the leaf, puts the pair into it, and splits every node that
    /// has become too full on the way back up; a split of the root puts a
    /// new root above it.
    pub fn insert(&mut self, key: K, value: ChunkHandler)
        requires
            old(self).wf(),
        ensures
            final(self).wf(),
            final(self)@ == old(self)@.insert(key.id(), value),
            final(self).same_config(old(self)),
            final(self).model() == old(self).model().after_insert(key.id(), value),
            old(self).splits_on(key.id()) ==> final(self).model().nodes.len() > old(
                self,
            ).model().nodes.len(),
            !old(self).splits_on(key.id()) ==> old(self).model().same_but_leaf(
                final(self).model(),
                old(self).target_leaf(key.id()),
            ),
    {
        if self.optimistic_insert(key.duplicate(), value.clone()).is_ok() {
            return ;
        }
        let ghost k = key.id();
        let ghost v = value;
        let ghost m0 = self.model();
        let descent = self.descend(&key);
        let mut path = descent.path;
        let leaf = descent.leaf;
        let mut held = descent.held;
        let ghost mut current: int = leaf as int;
        proof {
            if path@.len() > 0 {
                lemma_path_pop(m0, path@, current);
            }
            lemma_leaf_unique(m0, leaf as int, self.target_leaf(k), k);
        }
        let leaf_split = self.put_entry(leaf, key, value);
        proof {
            lemma_path_same(m0, self.model(), path@, current);
        }
        let mut split_result: Option<(usize, K)> = None;
        let ghost target = m0.after_insert(k, v);
        proof {
            if leaf_split {
                assert(self.model().entries(leaf as int).len() == 2 * m0.t);
            } else {
                assert(self.model().size_ok(leaf as int));
            }
        }
        if leaf_split {
            let ghost m1 = self.model();
            proof {
                if path@.len() > 0 {
                    lemma_path_pop(m1, path@, current);
                }
            }
            split_result = Some(self.split_node(leaf, Ghost(above(path@))));
            proof {
                lemma_path_same(m1, self.model(), path@, current);
            }
        } else {
            held = 0;
        }
        // Going up through the nodes whose latches are held, splitting
        // nodes where needed.
        while split_result.is_some() && held > 0
            invariant
                self.same_config(old(self)),
                self@ == old(self)@.insert(k, v),
                leaf_split ==> self.model().nodes.len() > m0.nodes.len(),
                !leaf_split ==> split_result is None && m0.same_but_leaf(self.model(), leaf as int),
                self.model().t == m0.t,
                target == (match split_result {
                    Some((right, median)) => self.model().carried_up(
                        current,
                        right as int,
                        median.id(),
                        path@,
                    ),
                    None => self.model(),
                }),
                match split_result {
                    Some((right, median)) => {
                        &&& self.model().pending(current, right as int, median.id(), above(path@))
                        &&& path_ok(self.model(), path@, current)
                        &&& holds_enough(self.model(), path@, held as int)
                    },
                    None => self.wf(),
                },
            decreases path.len(),
        {
            let ghost m1 = self.model();
            let ghost before = path@;
            let (node, pos) = path.pop().unwrap();
            let (right, median) = split_result.unwrap();
            held = held - 1;
            proof {
                lemma_path_pop(m1, before, current);
                assert(path@ == before.drop_last());
            }
            let overfull = self.add_child(node, pos, median, right, Ghost(current));
            let ghost m2 = self.model();
            proof {
                lemma_path_same(m1, m2, path@, node as int);
                assert(before.last() == (node, pos));
                assert(target == m1.carried_up(current, right as int, median.id(), before));
                if overfull {
                    assert(m2.keys(node as int).len() == 2 * m0.t - 1);
                    assert(target == m2.split_node(node as int).carried_up(
                        node as int,
                        m2.nodes.len() as int,
                        m2.median(node as int),
                        before.drop_last(),
                    ));
                } else {
                    assert(m2.size_ok(node as int));
                    assert(target == m2);
                }
            }
            if overfull {
                proof {
                    if path@.len() > 0 {
                        lemma_path_pop(m2, path@, node as int);
                    } 
                }
                split_result = Some(self.split_node(node, Ghost(above(path@))));
                proof {
                    lemma_path_same(m2, self.model(), path@, node as int);
                }
            } else {
                split_result = None;
                held = 0;
            }
            proof {
                current = node as int;
            }
        }
        // A split that has come through every node of the path is a
        // split of the root.
        match split_result {
            Some((right, median)) => {
                self.grow_root(right, median);
            },
            None => {},
        }
    }

    /// Inserts the pairs one after the other, each as `insert` does.
    pub fn insert_multi(&mut self, pairs: &Vec<(K, ChunkHandler)>)
        requires
            old(self).wf(),
        ensures
            final(self).wf(),
            final(self)@ == inserted(old(self)@, entry_ids(pairs@)),
            final(self).model() == old(self).model().after_inserts(entry_ids(pairs@)),
            final(self).same_config(old(self)),
    {
        let mut i: usize = 0;
        while i < pairs.len()
            invariant
                0 <= i <= pairs@.len(),
                self.wf(),
                self@ == inserted(old(self)@, entry_ids(pairs@).subrange(0, i as int)),
                self.model() == old(self).model().after_inserts(
                    entry_ids(pairs@).subrange(0, i as int),
                ),
                self.same_config(old(self)),
            decreases pairs@.len() - i,
        {
            self.insert(pairs[i].0.duplicate(), pairs[i].1.clone());
            proof {
                let now = entry_ids(pairs@).subrange(0, i + 1);
                assert(now.drop_last() =~= entry_ids(pairs@).subrange(0, i as int));
                assert(now.last() == (pairs@[i as int].0.id(), pairs@[i as int].1));
            }
            i = i + 1;
        }
        proof {
            assert(entry_ids(pairs@).subrange(0, i as int) =~= entry_ids(pairs@));
        }
    }

    /// The branching parameter.
    pub fn t(&self) -> (t: usize)
        ensures
            t == self.spec_t(),
    {
        self.t
    }

    /// The data directory.
    pub fn path(&self) -> (path: &String)
        ensures
            path@ == self.spec_path(),
    {
        &self.path
    }

    /// The number of the current segment file.
    pub fn file_number(&self) -> (number: usize)
        ensures
            number == self.spec_file_number(),
    {
        self.file_number
    }

    /// The offset at which the next chunk goes into the current segment.
    pub fn offset(&self) -> (offset: u64)
        ensures
            offset == self.spec_offset(),
    {
        self.offset
    }

    /// The size at which a segment file is closed.
    pub fn max_file_size(&self) -> (size: u64)
        ensures
            size == self.spec_max_file_size(),
    {
        self.max_file_size
    }

    /// Sets the size at which a segment file is closed.
    pub fn set_max_file_size(&mut self, size: u64)
        ensures
            final(self).spec_max_file_size() == size,
            final(self).spec_t() == old(self).spec_t(),
            final(self).spec_path() == old(self).spec_path(),
            final(self).spec_file_number() == old(self).spec_file_number(),
            final(self).spec_offset() == old(self).spec_offset(),
            final(self).model() == old(self).model(),
            final(self).wf() == old(self).wf(),
            final(self)@ == old(self)@,
    {
        self.max_file_size = size;
    }

    /// The next write begins a new segment: the current one has reached
    /// the size at which a segment is closed. A chunk may carry a segment
    /// past that size; the segment is closed by the write after it.
    pub open spec fn rotates(&self) -> bool {
        self.spec_offset() >= self.spec_max_file_size()
    }

    /// The offset at which the next chunk begins.
    pub open spec fn next_start(&self) -> u64 {
        if self.rotates() {
            0
        } else {
            self.spec_offset()
        }
    }

    /// The number of the segment file that takes the next chunk.
    pub open spec fn next_segment(&self) -> int {
        if self.rotates() {
            self.spec_file_number() + 1
        } else {
            self.spec_file_number() as int
        }
    }

    /// Reserves the place of a chunk of `size` bytes and moves the write
    /// position past it.
    ///
    /// The chunk goes to the write position of the current segment, unless
    /// that position has reached the size at which a segment is closed:
    /// then it begins the next segment. Fails with *Io*, and changes
    /// nothing, where the number of the next segment or the end of the
    /// chunk cannot be represented.
    pub fn get_chunk_handler(&mut self, size: usize) -> (r: Result<WritePlan, StoreError>)
        ensures
            final(self).model() == old(self).model(),
            final(self).wf() == old(self).wf(),
            final(self)@ == old(self)@,
            final(self).spec_t() == old(self).spec_t(),
            final(self).spec_path() == old(self).spec_path(),
            final(self).spec_max_file_size() == old(self).spec_max_file_size(),
            match r {
                Ok(plan) => {
                    &&& old(self).next_segment() <= usize::MAX
                    &&& old(self).next_start() + size <= u64::MAX
                    &&& plan.new_segment == old(self).rotates()
                    &&& plan.handle.path@ == segment_path_text(
                        old(self).spec_path(),
                        old(self).next_segment() as nat,
                    )
                    &&& plan.handle.offset == old(self).next_start()
                    &&& plan.handle.size == size
                    &&& final(self).spec_file_number() == old(self).next_segment()
                    &&& final(self).spec_offset() == old(self).next_start() + size
                },
                Err(e) => {
                    &&& e == StoreError::Io
                    &&& old(self).next_segment() > usize::MAX || old(self).next_start() + size
                        > u64::MAX
                    &&& *final(self) == *old(self)
                },
            },
    {
        let new_segment = self.offset >= self.max_file_size;
        if new_segment && self.file_number == usize::MAX {
            return Err(StoreError::Io);
        }
        let start: u64 = if new_segment {
            0
        } else {
            self.offset
        };
        if size as u64 > u64::MAX - start {
            return Err(StoreError::Io);
        }
        if new_segment {
            self.file_number = self.file_number + 1;
        }
        self.offset = start + size as u64;
        let handle = ChunkHandler::new(segment_path(&self.path, self.file_number), start, size);
        Ok(WritePlan { new_segment, handle })
    }

    /// Whether the tree holds `key`.
    pub fn contains(&self, key: &K) -> (b: bool)
        requires
            self.wf(),
        ensures
            b == self@.contains_key(key.id()),
    {
        self.get(key).is_ok()
    }

    /// Every entry of the tree in the order in which a walk along the
    /// linked leaves meets them.
    pub closed spec fn ordered(&self) -> Seq<(K::Id, ChunkHandler)> {
        self.model().ordered()
    }

    /// A walk along the leaves meets the keys in strictly ascending order,
    /// and meets every pair of the map once: each entry met is a pair of
    /// the map, each key of the map is met, and the walk is as long as the
    /// map has keys.
    pub proof fn lemma_ordered_is_view(&self)
        requires
            self.wf(),
        ensures
            sorted_entries(self.ordered()),
            forall|x: int|
                0 <= x < self.ordered().len() ==> self@.contains_key((#[trigger] self.ordered()[x]).0)
                    && self@[self.ordered()[x].0] == self.ordered()[x].1,
            forall|k: K::Id|
                self@.contains_key(k) ==> exists|x: int|
                    0 <= x < self.ordered().len() && (#[trigger] self.ordered()[x]).0 == k,
            self@.dom().finite(),
            self@.dom().len() == self.ordered().len(),
    {
        let m = self.model();
        lemma_ordered(m);
        assert forall|k: K::Id| self@.contains_key(k) implies exists|x: int|
            0 <= x < self.ordered().len() && (#[trigger] self.ordered()[x]).0 == k by {
            assert(m.view_map().contains_key(k));
            let x = choose|x: int| 0 <= x < m.ordered().len() && (#[trigger] m.ordered()[x]).0 == k;
            assert(self.ordered()[x].0 == k);
        }
    }

    /// A well-formed tree meets the invariants of the model: key ordering,
    /// arity, fanout bounds, uniform depth and leaf linkage.
    pub proof fn lemma_wf_is_inv(&self)
        requires
            self.wf(),
        ensures
            self.model().inv(),
            self@ == self.model().view_map(),
            self.ordered() == self.model().ordered(),
            self.model().t == self.spec_t(),
    {
    }

    /// The first leaf of the chain: the leftmost leaf.
    fn first_leaf(&self) -> (leaf: usize)
        requires
            self.wf(),
        ensures
            leaf == self.model().chain[0],
    {
        let ghost m = self.model();
        let mut current = self.root;
        loop
            invariant
                self.wf(),
                m == self.model(),
                m.is_node(current as int),
                m.lo(current as int) is None,
            ensures
                m.is_leaf(current as int),
            decreases m.level(current as int),
        {
            proof {
                assert(m.local_ok(current as int));
                assert(m.children_ok(current as int));
            }
            match &self.nodes[current] {
                Node::Leaf(_) => {
                    break ;
                },
                Node::Internal(internal) => {
                    proof {
                        assert(m.slot_ok(current as int, 0));
                    }
                    current = internal.children[0];
                },
            }
        }
        proof {
            assert(m.leaf_in_chain(current as int));
            let a = choose|a: int| 0 <= a < m.chain.len() && #[trigger] m.chain[a] as int == current;
            if a > 0 {
                assert(m.chain_at_ok(a - 1));
            }
        }
        current
    }

    /// Every entry of the tree, in ascending order of the keys, gathered
    /// by a walk along the linked leaves.
    pub fn scan(&self) -> (all: Vec<(K, ChunkHandler)>)
        requires
            self.wf(),
        ensures
            entry_ids(all@) == self.ordered(),
    {
        let ghost m = self.model();
        let mut all: Vec<(K, ChunkHandler)> = Vec::new();
        let mut current = Some(self.first_leaf());
        let ghost mut i: int = 0;
        while current.is_some()
            invariant
                self.wf(),
                m == self.model(),
                0 <= i <= m.chain.len(),
                current == (if i < m.chain.len() {
                    Some(m.chain[i])
                } else {
                    None
                }),
                entry_ids(all@) == m.entries_upto(i),
            decreases m.chain.len() - i,
        {
            let leaf = current.unwrap();
            proof {
                assert(m.chain_at_ok(i));
            }
            match &self.nodes[leaf] {
                Node::Leaf(l) => {
                    let mut j: usize = 0;
                    while j < l.entries.len()
                        invariant
                            0 <= j <= l.entries@.len(),
                            entry_ids(all@) == m.entries_upto(i) + entry_ids(l.entries@).subrange(
                                0,
                                j as int,
                            ),
                        decreases l.entries@.len() - j,
                    {
                        let ghost so_far = all@;
                        all.push((l.entries[j].0.duplicate(), l.entries[j].1.clone()));
                        proof {
                            assert(entry_ids(all@) =~= entry_ids(so_far).push(
                                entry_ids(l.entries@)[j as int],
                            ));
                            assert(entry_ids(all@) =~= m.entries_upto(i) + entry_ids(
                                l.entries@,
                            ).subrange(0, j + 1));
                        }
                        j = j + 1;
                    }
                    proof {
                        assert(entry_ids(l.entries@).subrange(0, j as int) =~= entry_ids(l.entries@));
                        assert(entry_ids(all@) == m.entries_upto(i + 1));
                    }
                    current = l.next;
                },
                Node::Internal(_) => {
                    current = None;
                },
            }
            proof {
                i = i + 1;
            }
        }
        all
    }

    /// The number of keys that the tree holds.
    pub fn size(&self) -> (n: usize)
        requires
            self.wf(),
        ensures
            self@.dom().finite(),
            n == self@.dom().len(),
    {
        proof {
            self.lemma_ordered_is_view();
        }
        self.scan().len()
    }

    /// The position of the root among the nodes.
    pub fn root(&self) -> (root: usize)
        ensures
            root == self.model().root,
    {
        self.root
    }

    /// The number of nodes.
    pub fn node_count(&self) -> (count: usize)
        ensures
            count == self.model().nodes.len(),
    {
        self.nodes.len()
    }

    /// Whether `node` is the position of a leaf.
    pub fn is_leaf(&self, node: usize) -> (b: bool)
        ensures
            b == self.model().is_leaf(node as int),
    {
        if node >= self.nodes.len() {
            return false;
        }
        match &self.nodes[node] {
            Node::Leaf(_) => true,
            Node::Internal(_) => false,
        }
    }

    /// The keys of node `node` in their order: the separators of an
    /// internal node, the keys of the entries of a leaf. Nothing where
    /// `node` is no position of a node.
    pub fn keys_of(&self, node: usize) -> (keys: Option<Vec<K>>)
        ensures
            keys is Some <==> self.model().is_node(node as int),
            keys is Some ==> ids(keys->Some_0@) == match self.model().nodes[node as int] {
                NodeView::Internal { keys, children } => keys,
                NodeView::Leaf { entries, next } => entries.map_values(
                    |e: (K::Id, ChunkHandler)| e.0,
                ),
            },
    {
        if node >= self.nodes.len() {
            return None;
        }
        let mut keys: Vec<K> = Vec::new();
        match &self.nodes[node] {
            Node::Internal(internal) => {
                let mut i: usize = 0;
                while i < internal.keys.len()
                    invariant
                        0 <= i <= internal.keys@.len(),
                        ids(keys@) == ids(internal.keys@).subrange(0, i as int),
                    decreases internal.keys@.len() - i,
                {
                    let ghost so_far = keys@;
                    keys.push(internal.keys[i].duplicate());
                    proof {
                        assert(ids(keys@) =~= ids(so_far).push(ids(internal.keys@)[i as int]));
                        assert(ids(keys@) =~= ids(internal.keys@).subrange(0, i + 1));
                    }
                    i = i + 1;
                }
                proof {
                    assert(ids(keys@) =~= ids(internal.keys@));
                }
            },
            Node::Leaf(leaf) => {
                let ghost want = entry_ids(leaf.entries@).map_values(
                    |e: (K::Id, ChunkHandler)| e.0,
                );
                let mut i: usize = 0;
                while i < leaf.entries.len()
                    invariant
                        0 <= i <= leaf.entries@.len(),
                        want == entry_ids(leaf.entries@).map_values(
                            |e: (K::Id, ChunkHandler)| e.0,
                        ),
                        ids(keys@) == want.subrange(0, i as int),
                    decreases leaf.entries@.len() - i,
                {
                    let ghost so_far = keys@;
                    keys.push(leaf.entries[i].0.duplicate());
                    proof {
                        assert(ids(keys@) =~= ids(so_far).push(want[i as int]));
                        assert(ids(keys@) =~= want.subrange(0, i + 1));
                    }
                    i = i + 1;
                }
                proof {
                    assert(ids(keys@) =~= want);
                }
            },
        }
        Some(keys)
    }

    /// The children of internal node `node`, as positions among the
    /// nodes. Nothing where `node` is no position of an internal node.
    pub fn children_of(&self, node: usize) -> (children: Option<Vec<usize>>)
        ensures
            children is Some <==> self.model().is_inner(node as int),
            children is Some ==> children->Some_0@ == self.model().children(node as int),
    {
        if node >= self.nodes.len() {
            return None;
        }
        match &self.nodes[node] {
            Node::Internal(internal) => {
                let mut children: Vec<usize> = Vec::new();
                let mut i: usize = 0;
                while i < internal.children.len()
                    invariant
                        0 <= i <= internal.children@.len(),
                        children@ == internal.children@.subrange(0, i as int),
                    decreases internal.children@.len() - i,
                {
                    children.push(internal.children[i]);
                    proof {
                        assert(children@ =~= internal.children@.subrange(0, i + 1));
                    }
                    i = i + 1;
                }
                proof {
                    assert(children@ =~= internal.children@);
                }
                Some(children)
            },
            Node::Leaf(_) => None,
        }
    }

    /// The leaf that follows leaf `node` in key order. Nothing after the
    /// last leaf, and where `node` is no position of a leaf.
    pub fn next_leaf(&self, node: usize) -> (next: Option<usize>)
        ensures
            next == (if self.model().is_leaf(node as int) {
                self.model().next(node as int)
            } else {
                None
            }),
    {
        if node >= self.nodes.len() {
            return None;
        }
        match &self.nodes[node] {
            Node::Leaf(leaf) => leaf.next,
            Node::Internal(_) => None,
        }
    }

    /// A cursor over every entry of the tree in ascending order of the
    /// keys, standing before the first.
    pub fn into_iter(self) -> (iter: BPlusIter<K>)
        requires
            self.wf(),
        ensures
            iter.inv(),
            iter.remaining() == self.ordered(),
    {
        let leaf = self.first_leaf();
        let iter = BPlusIter { tree: self, leaf: Some(leaf), index: 0, at: Ghost(0) };
        proof {
            let m = iter.tree.model();
            assert(m.chain_at_ok(0));
            assert(m.entries_upto(0).len() == 0);
            assert(iter.remaining() =~= iter.tree.ordered());
        }
        iter
    }
}

/// Forward cursor over the entries of a tree, in ascending order of the
/// keys. It walks the leaf level by the links between the leaves.
pub struct BPlusIter<K: BPlusKey> {
    /// The tree that is walked.
    tree: BPlus<K>,
    /// The leaf the cursor stands in; none behind the last leaf.
    leaf: Option<usize>,
    /// The entry of that leaf that comes next.
    index: usize,
    /// Where that leaf stands in the chain of leaves.
    at: Ghost<int>,
}

impl<K: BPlusKey> BPlusIter<K> {
    /// The number of entries that the cursor has passed.
    spec fn passed(&self) -> int {
        self.tree.model().entries_upto(self.at@).len() + self.index
    }

    /// The cursor stands in a leaf of a well-formed tree, or behind the
    /// last.
    pub closed spec fn inv(&self) -> bool {
        let m = self.tree.model();
        &&& self.tree.wf()
        &&& 0 <= self.at@ <= m.chain.len()
        &&& self.leaf == (if self.at@ < m.chain.len() {
            Some(m.chain[self.at@])
        } else {
            None
        })
        &&& if self.at@ < m.chain.len() {
            self.index <= m.entries(m.chain[self.at@] as int).len()
        } else {
            self.index == 0
        }
        &&& self.passed() <= m.ordered().len()
    }

    /// The entries that are still to come, in the order in which they
    /// come.
    pub closed spec fn remaining(&self) -> Seq<(K::Id, ChunkHandler)> {
        self.tree.model().ordered().skip(self.passed())
    }

    /// The next entry, or nothing at the end.
    pub fn next(&mut self) -> (r: Option<(K, ChunkHandler)>)
        requires
            old(self).inv(),
        ensures
            final(self).inv(),
            match r {
                Some(entry) => {
                    &&& old(self).remaining().len() > 0
                    &&& (entry.0.id(), entry.1) == old(self).remaining()[0]
                    &&& final(self).remaining() == old(self).remaining().skip(1)
                },
                None => old(self).remaining().len() == 0 && final(self).remaining().len() == 0,
            },
    {
        let ghost m = self.tree.model();
        loop
            invariant
                self.inv(),
                self.tree == old(self).tree,
                m == self.tree.model(),
                self.passed() == old(self).passed(),
            decreases m.chain.len() - self.at@,
        {
            match self.leaf {
                None => {
                    proof {
                        lemma_upto_prefix(m, self.at@, m.chain.len() as int);
                    }
                    return None;
                },
                Some(leaf) => {
                    proof {
                        assert(m.chain_at_ok(self.at@));
                    }
                    match &self.tree.nodes[leaf] {
                        Node::Leaf(l) => {
                            if self.index < l.entries.len() {
                                let entry = (
                                    l.entries[self.index].0.duplicate(),
                                    l.entries[self.index].1.clone(),
                                );
                                proof {
                                    lemma_ordered_at(m, self.at@, self.index as int);
                                    assert(old(self).remaining().skip(1) =~= m.ordered().skip(
                                        self.passed() + 1,
                                    ));
                                }
                                self.index = self.index + 1;
                                return Some(entry);
                            }
                            proof {
                                lemma_upto_prefix(m, self.at@ + 1, m.chain.len() as int);
                                if self.at@ + 1 < m.chain.len() {
                                    assert(m.chain_at_ok(self.at@ + 1));
                                }
                            }
                            self.leaf = l.next;
                            self.index = 0;
                            self.at = Ghost(self.at@ + 1);
                        },
                        Node::Internal(_) => {
                            return None;
                        },
                    }
                },
            }
        }
    }
}

} // verus!
