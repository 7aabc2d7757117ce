use crate::bplus_tree::snapshot::SerializableBPlus;
use crate::bplus_tree::BPlus;
use crate::chunk_pointer::ChunkHandler;
use crate::error::StoreError;
use crate::key::{BPlusKey, Ordered};
use crate::search::entry_ids;
use crate::segment::{lemma_segment_path_injective, segment_path, segment_path_text};
use crate::storage::{inline_chunk, unwrap_value, wrap_value};
use chunkfs::DataContainer;
use vstd::prelude::*;

verus! {

/// The handle points into file `i` of `files`, and all of its chunk lies
/// within that file. A file is a path with a content.
pub open spec fn lies_in(files: Seq<(Seq<char>, Seq<u8>)>, handle: ChunkHandler, i: int) -> bool {
    &&& 0 <= i < files.len()
    &&& handle.path@ == files[i].0
    &&& handle.offset + handle.size <= files[i].1.len()
}

/// The handle points to a chunk that lies within one of the files.
pub open spec fn stored(files: Seq<(Seq<char>, Seq<u8>)>, handle: ChunkHandler) -> bool {
    exists|i: int| lies_in(files, handle, i)
}

/// The bytes that the handle points to.
pub open spec fn bytes_at(files: Seq<(Seq<char>, Seq<u8>)>, handle: ChunkHandler) -> Seq<u8> {
    let i = choose|i: int| lies_in(files, handle, i);
    files[i].1.subrange(handle.offset as int, handle.offset + handle.size)
}

/// The map from keys to chunks that a map from keys to handles stands for,
/// given the files that the handles point into.
pub open spec fn chunks_of<I>(
    index: Map<I, ChunkHandler>,
    files: Seq<(Seq<char>, Seq<u8>)>,
) -> Map<I, Seq<u8>> {
    Map::new(|k: I| index.contains_key(k), |k: I| bytes_at(files, index[k]))
}

/// The files are the segment files of an index with the data directory
/// `dir`, the current segment `number` and the write position `offset`:
/// there is a file for every segment number up to `number`, at the path
/// that belongs to its number; the current segment file ends at the write
/// position; and every handle in the index points to a chunk that lies
/// within a file.
pub open spec fn segments_fit<I>(
    index: Map<I, ChunkHandler>,
    dir: Seq<char>,
    number: usize,
    offset: u64,
    files: Seq<(Seq<char>, Seq<u8>)>,
) -> bool {
    &&& files.len() == number + 1
    &&& forall|i: int| 0 <= i < files.len() ==> (#[trigger] files[i]).0 == segment_path_text(dir, i as nat)
    &&& files[number as int].1.len() == offset
    &&& forall|k: I| #[trigger] index.contains_key(k) ==> stored(files, index[k])
}

/// Among segment files at the paths that belong to their numbers, a handle
/// lies in one file only.
pub proof fn lemma_one_segment(
    files: Seq<(Seq<char>, Seq<u8>)>,
    dir: Seq<char>,
    handle: ChunkHandler,
    i: int,
    j: int,
)
    requires
        forall|i: int| 0 <= i < files.len() ==> (#[trigger] files[i]).0 == segment_path_text(dir, i as nat),
        lies_in(files, handle, i),
        0 <= j < files.len(),
        handle.path@ == files[j].0,
    ensures
        i == j,
{
    assert(files[i].0 == segment_path_text(dir, i as nat));
    assert(files[j].0 == segment_path_text(dir, j as nat));
    lemma_segment_path_injective(dir, i as nat, j as nat);
}

/// The views of segment files: the path and the content of each.
pub open spec fn file_views(segments: Seq<(String, Vec<u8>)>) -> Seq<(Seq<char>, Seq<u8>)> {
    segments.map_values(|f: (String, Vec<u8>)| (f.0@, f.1@))
}

/// The tree together with its segment files, which are kept in memory: a
/// key-value store from keys to chunks of bytes.
///
/// A chunk is appended to the current segment file and the tree is given
/// its place; a lookup finds the place in the tree and cuts the chunk out
/// of its segment file.
pub struct MemoryStore<K: BPlusKey> {
    /// The index from keys to the places of chunks.
    tree: BPlus<K>,
    /// The segment files, segment 0 first: the path and the content of
    /// each.
    segments: Vec<(String, Vec<u8>)>,
}

impl<K: BPlusKey> View for MemoryStore<K> {
    type V = Map<K::Id, Seq<u8>>;

    /// The map from keys to chunks that the store holds.
    closed spec fn view(&self) -> Map<K::Id, Seq<u8>> {
        chunks_of(self.tree@, self.files())
    }
}

impl<K: BPlusKey> MemoryStore<K> {
    /// The index of the store.
    pub closed spec fn index(&self) -> BPlus<K> {
        self.tree
    }

    /// The segment files, segment 0 first: the path and the content of
    /// each.
    pub closed spec fn files(&self) -> Seq<(Seq<char>, Seq<u8>)> {
        file_views(self.segments@)
    }

    /// The store is well formed: its tree is, and its files are the
    /// segment files of its tree.
    pub closed spec fn wf(&self) -> bool {
        &&& self.tree.wf()
        &&& segments_fit(
            self.tree@,
            self.tree.spec_path(),
            self.tree.spec_file_number(),
            self.tree.spec_offset(),
            self.files(),
        )
    }

    /// A well-formed store has a well-formed index whose segment files
    /// are its files, and holds the chunks that the handles of its index
    /// point to.
    pub proof fn lemma_wf(&self)
        requires
            self.wf(),
        ensures
            self.index().wf(),
            segments_fit(
                self.index()@,
                self.index().spec_path(),
                self.index().spec_file_number(),
                self.index().spec_offset(),
                self.files(),
            ),
            self@ == chunks_of(self.index()@, self.files()),
    {
    }

    /// Every entry of the store in ascending order of the keys: each key
    /// with its chunk.
    pub closed spec fn ordered(&self) -> Seq<(K::Id, Seq<u8>)> {
        self.tree.ordered().map_values(
            |e: (K::Id, ChunkHandler)| (e.0, bytes_at(self.files(), e.1)),
        )
    }

    /// An empty store with branching parameter `t`, whose segment files
    /// bear the paths of files in the directory `path`. Segment 0 is there
    /// and empty.
    pub fn new(t: usize, path: String) -> (store: Self)
        requires
            t >= 2,
            2 * t <= usize::MAX,
        ensures
            store.wf(),
            store@ == Map::<K::Id, Seq<u8>>::empty(),
            store.files() == seq![(segment_path_text(path@, 0), Seq::<u8>::empty())],
            store.index().wf(),
            store.index()@ == Map::<K::Id, ChunkHandler>::empty(),
            store.index().spec_t() == t,
            store.index().spec_path() == path@,
            store.index().spec_file_number() == 0,
            store.index().spec_offset() == 0,
            store.index().spec_max_file_size() == crate::bplus_tree::DEFAULT_MAX_FILE_SIZE,
    {
        let first = segment_path(&path, 0);
        let tree = BPlus::new(t, path);
        let mut segments: Vec<(String, Vec<u8>)> = Vec::new();
        segments.push((first, Vec::new()));
        let store = MemoryStore { tree, segments };
        proof {
            assert(store.files() =~= seq![(segment_path_text(path@, 0), Seq::<u8>::empty())]);
            assert(store@ =~= Map::<K::Id, Seq<u8>>::empty());
        }
        store
    }

    /// The index of the store: the tree from keys to handles.
    pub fn tree(&self) -> (tree: &BPlus<K>)
        ensures
            *tree == self.index(),
    {
        &self.tree
    }

    /// The content of segment file `number`, if there is such a file.
    pub fn segment(&self, number: usize) -> (content: Option<&Vec<u8>>)
        ensures
            content is Some <==> number < self.files().len(),
            content is Some ==> content->Some_0@ == self.files()[number as int].1,
    {
        if number < self.segments.len() {
            Some(&self.segments[number].1)
        } else {
            None
        }
    }

    /// The snapshot of the index. The segment files are no part of it.
    pub fn save(&self) -> (snapshot: SerializableBPlus<K>)
        requires
            self.wf(),
        ensures
            snapshot.snapshot_of(&self.index()),
    {
        self.tree.save()
    }

    /// Takes the store apart into its index and its segment files.
    pub fn into_parts(self) -> (parts: (BPlus<K>, Vec<(String, Vec<u8>)>))
        ensures
            parts.0 == self.index(),
            file_views(parts.1@) == self.files(),
    {
        (self.tree, self.segments)
    }

    /// Sets the size at which a segment file is closed.
    pub fn set_max_file_size(&mut self, size: u64)
        requires
            old(self).wf(),
        ensures
            final(self).wf(),
            final(self)@ == old(self)@,
            final(self).files() == old(self).files(),
            final(self).index().spec_max_file_size() == size,
            final(self).index().spec_t() == old(self).index().spec_t(),
            final(self).index().spec_path() == old(self).index().spec_path(),
            final(self).index().spec_file_number() == old(self).index().spec_file_number(),
            final(self).index().spec_offset() == old(self).index().spec_offset(),
            final(self).index()@ == old(self).index()@,
    {
        self.tree.set_max_file_size(size);
    }

    /// The segment file at `path`, if there is one.
    fn find_segment(&self, path: &String) -> (found: Option<usize>)
        ensures
            match found {
                Some(i) => i < self.files().len() && self.files()[i as int].0 == path@,
                None => forall|i: int| 0 <= i < self.files().len() ==> self.files()[i].0 != path@,
            },
    {
        let mut i: usize = 0;
        while i < self.segments.len()
            invariant
                0 <= i <= self.segments@.len(),
                forall|j: int| 0 <= j < i ==> self.files()[j].0 != path@,
            decreases self.segments@.len() - i,
        {
            if self.segments[i].0 == *path {
                return Some(i);
            }
            i = i + 1;
        }
        None
    }

    /// Reads the chunk that `handle` points to, if it lies within a
    /// segment file.
    fn read(&self, handle: &ChunkHandler) -> (r: Option<Vec<u8>>)
        requires
            forall|i: int|
                0 <= i < self.files().len() ==> (#[trigger] self.files()[i]).0 == segment_path_text(
                    self.tree.spec_path(),
                    i as nat,
                ),
        ensures
            r is Some <==> stored(self.files(), *handle),
            r is Some ==> r->Some_0@ == bytes_at(self.files(), *handle),
    {
        match self.find_segment(&handle.path) {
            Some(i) => {
                proof {
                    if stored(self.files(), *handle) {
                        let j = choose|j: int| lies_in(self.files(), *handle, j);
                        lemma_one_segment(
                            self.files(),
                            self.tree.spec_path(),
                            *handle,
                            j,
                            i as int,
                        );
                    }
                }
                let chunk = handle.read(&self.segments[i].1);
                proof {
                    if chunk is Some {
                        assert(lies_in(self.files(), *handle, i as int));
                        let j = choose|j: int| lies_in(self.files(), *handle, j);
                        lemma_one_segment(
                            self.files(),
                            self.tree.spec_path(),
                            *handle,
                            j,
                            i as int,
                        );
                    }
                }
                chunk
            },
            None => None,
        }
    }

    /// Whether `handle` points to a chunk that lies within a segment file.
    fn holds(&self, handle: &ChunkHandler) -> (b: bool)
        requires
            forall|i: int|
                0 <= i < self.files().len() ==> (#[trigger] self.files()[i]).0 == segment_path_text(
                    self.tree.spec_path(),
                    i as nat,
                ),
        ensures
            b == stored(self.files(), *handle),
    {
        match self.find_segment(&handle.path) {
            Some(i) => {
                let len = self.segments[i].1.len();
                let b = handle.offset <= len as u64 && handle.size <= len - handle.offset as usize;
                proof {
                    if stored(self.files(), *handle) {
                        let j = choose|j: int| lies_in(self.files(), *handle, j);
                        lemma_one_segment(
                            self.files(),
                            self.tree.spec_path(),
                            *handle,
                            j,
                            i as int,
                        );
                    }
                    if b {
                        assert(lies_in(self.files(), *handle, i as int));
                    }
                }
                b
            },
            None => false,
        }
    }

    /// Whether the files of the store are the segment files of its index.
    fn files_fit(&self) -> (b: bool)
        requires
            self.tree.wf(),
        ensures
            b == segments_fit(
                self.tree@,
                self.tree.spec_path(),
                self.tree.spec_file_number(),
                self.tree.spec_offset(),
                self.files(),
            ),
    {
        let number = self.tree.file_number();
        let count = self.segments.len();
        if count == 0 || count - 1 != number {
            return false;
        }
        let mut i: usize = 0;
        while i < count
            invariant
                0 <= i <= count,
                count == self.segments@.len(),
                count == self.files().len(),
                forall|j: int|
                    0 <= j < i ==> (#[trigger] self.files()[j]).0 == segment_path_text(
                        self.tree.spec_path(),
                        j as nat,
                    ),
            decreases count - i,
        {
            let path = segment_path(self.tree.path(), i);
            if !(self.segments[i].0 == path) {
                proof {
                    assert(self.files()[i as int].0 != segment_path_text(
                        self.tree.spec_path(),
                        i as nat,
                    ));
                }
                return false;
            }
            i = i + 1;
        }
        if self.segments[number].1.len() as u64 != self.tree.offset() {
            return false;
        }
        let entries = self.tree.scan();
        proof {
            self.tree.lemma_ordered_is_view();
        }
        let mut x: usize = 0;
        while x < entries.len()
            invariant
                0 <= x <= entries@.len(),
                entry_ids(entries@) == self.tree.ordered(),
                forall|j: int|
                    0 <= j < self.files().len() ==> (#[trigger] self.files()[j]).0 == segment_path_text(
                        self.tree.spec_path(),
                        j as nat,
                    ),
                forall|y: int|
                    0 <= y < entries@.len() ==> self.tree@.contains_key(
                        (#[trigger] entry_ids(entries@)[y]).0,
                    ) && self.tree@[entry_ids(entries@)[y].0] == entry_ids(entries@)[y].1,
                forall|y: int| 0 <= y < x ==> stored(self.files(), (#[trigger] entries@[y]).1),
            decreases entries@.len() - x,
        {
            if !self.holds(&entries[x].1) {
                proof {
                    let k = entry_ids(entries@)[x as int].0;
                    assert(self.tree@.contains_key(k));
                    assert(self.tree@[k] == entries@[x as int].1);
                }
                return false;
            }
            x = x + 1;
        }
        proof {
            assert forall|k: K::Id| #[trigger] self.tree@.contains_key(k) implies stored(
                self.files(),
                self.tree@[k],
            ) by {
                let y = choose|y: int|
                    0 <= y < self.tree.ordered().len() && (#[trigger] self.tree.ordered()[y]).0 == k;
                assert(entry_ids(entries@)[y].0 == k);
                assert(stored(self.files(), entries@[y].1));
            }
        }
        true
    }

    /// The store whose index the snapshot describes and whose segment
    /// files are `segments`.
    ///
    /// Fails with *Corruption* where the snapshot does not describe a
    /// well-formed tree, and with *NotFound* where the files are not the
    /// segment files of that tree: where a segment is missing or not at
    /// its path, where the current segment does not end at the write
    /// position, or where a chunk does not lie within its segment.
    pub fn load(snapshot: SerializableBPlus<K>, segments: Vec<(String, Vec<u8>)>) -> (r: Result<
        Self,
        StoreError,
    >)
        ensures
            r is Ok <==> snapshot.valid() && segments_fit(
                snapshot@,
                snapshot.path@,
                snapshot.file_number,
                snapshot.offset,
                file_views(segments@),
            ),
            match r {
                Ok(store) => {
                    &&& store.wf()
                    &&& BPlus::loads_as(&snapshot, Ok(store.index()))
                    &&& store.files() == file_views(segments@)
                    &&& store@ == chunks_of(snapshot@, file_views(segments@))
                },
                Err(e) => e == (if snapshot.valid() {
                    StoreError::NotFound
                } else {
                    StoreError::Corruption
                }),
            },
    {
        let tree = match BPlus::load(snapshot) {
            Ok(tree) => tree,
            Err(e) => {
                return Err(e);
            },
        };
        let store = MemoryStore { tree, segments };
        if !store.files_fit() {
            return Err(StoreError::NotFound);
        }
        Ok(store)
    }

    /// A store that is saved and loaded again over the same segment files
    /// holds the same chunks under the same keys.
    pub proof fn lemma_save_load(&self, snapshot: &SerializableBPlus<K>, loaded: &Self)
        requires
            self.wf(),
            loaded.wf(),
            snapshot.snapshot_of(&self.index()),
            BPlus::loads_as(snapshot, Ok(loaded.index())),
            loaded.files() == self.files(),
        ensures
            loaded@ == self@,
            loaded.index()@ == self.index()@,
    {
    }

    /// Inserts the chunk `value` under `key`; a chunk already stored under
    /// `key` is replaced.
    ///
    /// The chunk is written first, at the place that the index gives it:
    /// the end of the current segment file, or the start of a new one
    /// where the current one has reached the size at which a segment is
    /// closed. Then the key is inserted with that place. Fails with *Io*,
    /// and changes nothing, where the place cannot be represented.
    pub fn insert(&mut self, key: K, value: Vec<u8>) -> (r: Result<(), StoreError>)
        requires
            old(self).wf(),
        ensures
            final(self).wf(),
            r is Ok <==> old(self).index().next_segment() <= usize::MAX && old(
                self,
            ).index().next_start() + value@.len() <= u64::MAX,
            match r {
                Ok(_) => {
                    &&& final(self)@ == old(self)@.insert(key.id(), value@)
                    &&& final(self).files() == (if old(self).index().rotates() {
                        old(self).files().push(
                            (
                                segment_path_text(
                                    old(self).index().spec_path(),
                                    old(self).index().next_segment() as nat,
                                ),
                                value@,
                            ),
                        )
                    } else {
                        old(self).files().update(
                            old(self).index().spec_file_number() as int,
                            (
                                old(self).files()[old(self).index().spec_file_number() as int].0,
                                old(self).files()[old(self).index().spec_file_number() as int].1
                                    + value@,
                            ),
                        )
                    })
                    &&& final(self).index().spec_file_number() == old(self).index().next_segment()
                    &&& final(self).index().spec_offset() == old(self).index().next_start()
                        + value@.len()
                    &&& final(self).index().spec_t() == old(self).index().spec_t()
                    &&& final(self).index().spec_path() == old(self).index().spec_path()
                    &&& final(self).index().spec_max_file_size() == old(
                        self,
                    ).index().spec_max_file_size()
                },
                Err(e) => e == StoreError::Io && *final(self) == *old(self),
            },
    {
        let ghost id = key.id();
        let ghost before = old(self).files();
        let ghost dir = old(self).tree.spec_path();
        let size = value.len();
        let plan = match self.tree.get_chunk_handler(size) {
            Ok(plan) => plan,
            Err(e) => {
                return Err(e);
            },
        };
        if plan.new_segment {
            self.segments.push((plan.handle.path.clone(), Vec::new()));
        }
        let current = self.segments.len() - 1;
        let ghost opened = self.files();
        let ghost start = opened[current as int].1;
        proof {
            if plan.new_segment {
                assert(opened =~= before.push((plan.handle.path@, Seq::<u8>::empty())));
            } else {
                assert(opened =~= before);
                assert(before[current as int].0 == segment_path_text(dir, current as nat));
            }
        }
        let ghost opened_raw = self.segments@;
        proof {
            assert(opened[current as int] == (opened_raw[current as int].0@, opened_raw[current as int].1@));
        }
        let mut i: usize = 0;
        while i < size
            invariant
                0 <= i <= size,
                size == value@.len(),
                current == self.segments@.len() - 1,
                self.tree.wf() == old(self).tree.wf(),
                self.tree@ == old(self).tree@,
                self.tree.spec_path() == dir,
                self.tree.spec_t() == old(self).tree.spec_t(),
                self.tree.spec_max_file_size() == old(self).tree.spec_max_file_size(),
                self.tree.spec_file_number() == old(self).tree.next_segment(),
                self.tree.spec_offset() == old(self).tree.next_start() + size,
                self.segments@.len() == opened_raw.len(),
                forall|j: int| 0 <= j < current ==> self.segments@[j] == opened_raw[j],
                self.segments@[current as int].0@ == plan.handle.path@,
                self.segments@[current as int].1@ == start + value@.subrange(0, i as int),
            decreases size - i,
        {
            self.segments[current].1.push(value[i]);
            proof {
                assert(self.segments@[current as int].1@ =~= start + value@.subrange(0, i + 1));
            }
            i = i + 1;
        }
        proof {
            assert(value@.subrange(0, size as int) =~= value@);
            assert(self.files() =~= opened.update(current as int, (plan.handle.path@, start + value@)))
                by {
                assert forall|j: int| 0 <= j < opened.len() implies self.files()[j] == opened.update(
                    current as int,
                    (plan.handle.path@, start + value@),
                )[j] by {
                    if j < current {
                        assert(self.segments@[j] == opened_raw[j]);
                    }
                }
            }
        }
        let ghost written = self.files();
        proof {
            assert(written[current as int].1 == start + value@);
            assert(start.len() == plan.handle.offset);
            assert(lies_in(written, plan.handle, current as int));
            assert(written[current as int].1.subrange(
                plan.handle.offset as int,
                plan.handle.offset + plan.handle.size,
            ) =~= value@);
            if plan.new_segment {
                assert(written =~= before.push((plan.handle.path@, value@)));
            } else {
                assert(written =~= before.update(
                    current as int,
                    (before[current as int].0, before[current as int].1 + value@),
                ));
            }
        }
        self.tree.insert(key, plan.handle);
        proof {
            let index = old(self).tree@;
            assert(self.files() == written);
            assert forall|i: int| 0 <= i < written.len() implies (#[trigger] written[i]).0
                == segment_path_text(dir, i as nat) by {
                if i < before.len() {
                    assert(before[i].0 == segment_path_text(dir, i as nat));
                }
            }
            // A chunk that lay within a segment file still lies there.
            assert forall|h: ChunkHandler, i: int| lies_in(before, h, i) implies lies_in(written, h, i)
                && written[i].1.subrange(h.offset as int, h.offset + h.size) == before[i].1.subrange(
                h.offset as int,
                h.offset + h.size,
            ) by {
                if i == current && !plan.new_segment {
                    assert(written[i].1.subrange(h.offset as int, h.offset + h.size)
                        =~= before[i].1.subrange(h.offset as int, h.offset + h.size));
                }
            }
            assert forall|k: K::Id| #[trigger] self.tree@.contains_key(k) implies stored(
                written,
                self.tree@[k],
            ) by {
                if k == id {
                    assert(lies_in(written, plan.handle, current as int));
                } else {
                    let h = index[k];
                    assert(index.contains_key(k));
                    assert(stored(before, h));
                    let i = choose|i: int| lies_in(before, h, i);
                    assert(lies_in(written, h, i));
                }
            }
            assert(self.wf());
            assert forall|k: K::Id| self@.contains_key(k) implies #[trigger] self@[k] == old(
                self,
            )@.insert(id, value@)[k] by {
                let h = self.tree@[k];
                let j = choose|j: int| lies_in(written, h, j);
                if k == id {
                    lemma_one_segment(written, dir, h, j, current as int);
                } else {
                    assert(index.contains_key(k));
                    assert(stored(before, h));
                    let i = choose|i: int| lies_in(before, h, i);
                    assert(lies_in(written, h, i));
                    lemma_one_segment(written, dir, h, j, i);
                }
            }
            assert(self@ =~= old(self)@.insert(id, value@));
        }
        Ok(())
    }

    /// Gets the chunk stored under `key`, or *NotFound* where the store
    /// holds no such key.
    pub fn get(&self, key: &K) -> (r: Result<Vec<u8>, StoreError>)
        requires
            self.wf(),
        ensures
            match r {
                Ok(chunk) => self@.contains_key(key.id()) && chunk@ == self@[key.id()],
                Err(e) => e == StoreError::NotFound && !self@.contains_key(key.id()),
            },
    {
        let handle = match self.tree.get(key) {
            Ok(handle) => handle,
            Err(e) => {
                return Err(e);
            },
        };
        match self.read(&handle) {
            Some(chunk) => Ok(chunk),
            None => Err(StoreError::NotFound),
        }
    }

    /// Whether the store holds `key`.
    pub fn contains(&self, key: &K) -> (b: bool)
        requires
            self.wf(),
        ensures
            b == self@.contains_key(key.id()),
    {
        self.tree.contains(key)
    }

    /// Every entry of the store in ascending order of the keys, gathered
    /// by a walk along the linked leaves: each key with its chunk.
    pub fn scan(&self) -> (all: Vec<(K, Vec<u8>)>)
        requires
            self.wf(),
        ensures
            all@.len() == self.ordered().len(),
            forall|x: int|
                0 <= x < all@.len() ==> (#[trigger] all@[x]).0.id() == self.ordered()[x].0
                    && all@[x].1@ == self.ordered()[x].1,
    {
        let entries = self.tree.scan();
        proof {
            self.tree.lemma_ordered_is_view();
        }
        let mut all: Vec<(K, Vec<u8>)> = Vec::new();
        let mut i: usize = 0;
        while i < entries.len()
            invariant
                self.wf(),
                entry_ids(entries@) == self.tree.ordered(),
                0 <= i <= entries@.len(),
                all@.len() == i,
                forall|x: int|
                    0 <= x < entries@.len() ==> self.tree@.contains_key(
                        (#[trigger] entry_ids(entries@)[x]).0,
                    ) && self.tree@[entry_ids(entries@)[x].0] == entry_ids(entries@)[x].1,
                forall|x: int|
                    0 <= x < i ==> (#[trigger] all@[x]).0.id() == entries@[x].0.id() && all@[x].1@
                        == bytes_at(self.files(), entries@[x].1),
            decreases entries@.len() - i,
        {
            proof {
                assert(self.tree@.contains_key(entry_ids(entries@)[i as int].0));
                assert(stored(self.files(), entries@[i as int].1));
            }
            let chunk = match self.read(&entries[i].1) {
                Some(chunk) => chunk,
                None => Vec::new(),
            };
            all.push((entries[i].0.duplicate(), chunk));
            i = i + 1;
        }
        all
    }

    /// A walk along the leaves meets the keys in strictly ascending order,
    /// and meets every pair of the map once: each entry met is a pair of
    /// the map, each key of the map is met, and the walk is as long as the
    /// map has keys.
    pub proof fn lemma_ordered_is_view(&self)
        requires
            self.wf(),
        ensures
            forall|x: int, y: int|
                0 <= x < y < self.ordered().len() ==> (#[trigger] self.ordered()[x]).0.key_lt(
                    (#[trigger] self.ordered()[y]).0,
                ),
            forall|x: int|
                0 <= x < self.ordered().len() ==> self@.contains_key((#[trigger] self.ordered()[x]).0)
                    && self@[self.ordered()[x].0] == self.ordered()[x].1,
            forall|k: K::Id|
                self@.contains_key(k) ==> exists|x: int|
                    0 <= x < self.ordered().len() && (#[trigger] self.ordered()[x]).0 == k,
            self@.dom().finite(),
            self@.dom().len() == self.ordered().len(),
    {
        self.tree.lemma_ordered_is_view();
        let walk = self.tree.ordered();
        assert forall|x: int, y: int| 0 <= x < y < self.ordered().len() implies (
        #[trigger] self.ordered()[x]).0.key_lt((#[trigger] self.ordered()[y]).0) by {
            assert(walk[x].0.key_lt(walk[y].0));
        }
        assert forall|k: K::Id| self@.contains_key(k) implies exists|x: int|
            0 <= x < self.ordered().len() && (#[trigger] self.ordered()[x]).0 == k by {
            let x = choose|x: int| 0 <= x < walk.len() && (#[trigger] walk[x]).0 == k;
            assert(self.ordered()[x].0 == k);
        }
        assert(self@.dom() =~= self.tree@.dom());
    }

    /// Inserts the chunk that the container holds inline under `key`. A
    /// container that holds anything else is rejected as *Unsupported*,
    /// and nothing changes.
    pub fn insert_container(&mut self, key: K, value: &DataContainer<()>) -> (r: Result<
        (),
        StoreError,
    >)
        requires
            old(self).wf(),
        ensures
            final(self).wf(),
            match inline_chunk(*value) {
                Some(chunk) => {
                    &&& r is Ok <==> old(self).index().next_segment() <= usize::MAX && old(
                        self,
                    ).index().next_start() + chunk.len() <= u64::MAX
                    &&& r is Ok ==> final(self)@ == old(self)@.insert(key.id(), chunk)
                    &&& r is Err ==> r->Err_0 == StoreError::Io && *final(self) == *old(self)
                },
                None => r == Err::<(), StoreError>(StoreError::Unsupported) && *final(self) == *old(
                    self,
                ),
            },
    {
        match unwrap_value(value) {
            Ok(chunk) => self.insert(key, chunk),
            Err(e) => Err(e),
        }
    }

    /// Gets the chunk stored under `key` in a container that holds it
    /// inline, or *NotFound* where the store holds no such key.
    pub fn get_container(&self, key: &K) -> (r: Result<DataContainer<()>, StoreError>)
        requires
            self.wf(),
        ensures
            match r {
                Ok(value) => self@.contains_key(key.id()) && inline_chunk(value) == Some(
                    self@[key.id()],
                ),
                Err(e) => e == StoreError::NotFound && !self@.contains_key(key.id()),
            },
    {
        match self.get(key) {
            Ok(chunk) => Ok(wrap_value(chunk)),
            Err(e) => Err(e),
        }
    }
}

} // verus!
