use vstd::prelude::*;

verus! {

/// Where a chunk lies: a segment file, the offset of its first byte and the
/// number of its bytes.
#[derive(Debug, PartialEq, Eq)]
pub struct ChunkHandler {
    pub path: String,
    pub offset: u64,
    pub size: usize,
}

/// What can be made from a place in a segment file and can cut its bytes out
/// of that file's content.
pub trait ChunkPointer: Sized {
    /// The segment file's path as text.
    spec fn spec_path(&self) -> Seq<char>;

    /// The offset of the first byte.
    spec fn spec_offset(&self) -> u64;

    /// The number of bytes.
    spec fn spec_size(&self) -> usize;

    /// A pointer to `size` bytes at `offset` of the file at `path`.
    fn new(path: String, offset: u64, size: usize) -> (pointer: Self)
        ensures
            pointer.spec_path() == path@,
            pointer.spec_offset() == offset,
            pointer.spec_size() == size,
    ;

    /// The chunk, cut out of the content of its segment file: the `size`
    /// bytes that start at `offset`, or nothing where the file is too short
    /// to hold them all.
    fn read(&self, segment: &Vec<u8>) -> (chunk: Option<Vec<u8>>)
        ensures
            self.spec_offset() + self.spec_size() <= segment@.len() ==> chunk.is_some()
                && chunk.unwrap()@ == segment@.subrange(
                self.spec_offset() as int,
                self.spec_offset() + self.spec_size(),
            ),
            self.spec_offset() + self.spec_size() > segment@.len() ==> chunk.is_none(),
    ;
}

impl ChunkHandler {
    /// A handle to `size` bytes at `offset` of the file at `path`.
    pub fn new(path: String, offset: u64, size: usize) -> (handle: Self)
        ensures
            handle.path == path,
            handle.offset == offset,
            handle.size == size,
    {
        ChunkHandler { path, offset, size }
    }

    /// An equal handle.
    pub fn duplicate(&self) -> (handle: Self)
        ensures
            handle == *self,
    {
        ChunkHandler { path: self.path.clone(), offset: self.offset, size: self.size }
    }

    /// The chunk, cut out of the content of its segment file: the `size`
    /// bytes that start at `offset`, or nothing where the file is too short
    /// to hold them all.
    pub fn read(&self, segment: &Vec<u8>) -> (chunk: Option<Vec<u8>>)
        ensures
            self.offset + self.size <= segment@.len() ==> chunk.is_some() && chunk.unwrap()@
                == segment@.subrange(self.offset as int, self.offset + self.size),
            self.offset + self.size > segment@.len() ==> chunk.is_none(),
    {
        let len = segment.len();
        if self.offset > len as u64 {
            return None;
        }
        let start: usize = self.offset as usize;
        if self.size > len - start {
            return None;
        }
        let mut chunk: Vec<u8> = Vec::new();
        let mut i: usize = 0;
        while i < self.size
            invariant
                start == self.offset,
                len == segment@.len(),
                start + self.size <= len,
                i <= self.size,
                chunk@ == segment@.subrange(start as int, start + i),
            decreases self.size - i,
        {
            chunk.push(segment[start + i]);
            i += 1;
        }
        Some(chunk)
    }
}

impl Default for ChunkHandler {
    /// The handle of no bytes at the start of a file without a name.
    fn default() -> (handle: Self)
        ensures
            handle.path@ == Seq::<char>::empty(),
            handle.offset == 0,
            handle.size == 0,
    {
        ChunkHandler { path: String::new(), offset: 0, size: 0 }
    }
}

impl Clone for ChunkHandler {
    fn clone(&self) -> (handle: Self)
        ensures
            handle == *self,
    {
        self.duplicate()
    }
}

impl ChunkPointer for ChunkHandler {
    open spec fn spec_path(&self) -> Seq<char> {
        self.path@
    }

    open spec fn spec_offset(&self) -> u64 {
        self.offset
    }

    open spec fn spec_size(&self) -> usize {
        self.size
    }

    fn new(path: String, offset: u64, size: usize) -> (pointer: Self) {
        ChunkHandler::new(path, offset, size)
    }

    fn read(&self, segment: &Vec<u8>) -> (chunk: Option<Vec<u8>>) {
        ChunkHandler::read(self, segment)
    }
}

} // verus!
