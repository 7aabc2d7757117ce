use vstd::prelude::*;
use vstd::string::*;

verus! {

/// What names a file that holds one chunk as its whole content, and says
/// what writing and reading such a file comes to.
pub trait ChunkPointer: Sized {
    /// The file's path as text.
    spec fn spec_path(&self) -> Seq<char>;

    /// A pointer to the file at `path`.
    fn new(path: String) -> (pointer: Self)
        ensures
            pointer.spec_path() == path@,
    ;

    /// The content that the file has once `content` has been written to
    /// it: what the file held before is gone.
    fn write(&self, content: &Vec<u8>) -> (file: Vec<u8>)
        ensures
            file@ == content@,
    ;

    /// Reads the file, whose content is `file`, to its end: the content is
    /// appended to `buf`, and the number of bytes read is returned.
    fn read(&self, file: &Vec<u8>, buf: &mut Vec<u8>) -> (count: usize)
        ensures
            final(buf)@ == old(buf)@ + file@,
            count == file@.len(),
    ;
}

/// Names a whole file that holds one chunk.
#[derive(Debug, PartialEq, Eq)]
pub struct FileHandler {
    pub path: String,
}

impl FileHandler {
    /// The handler used where no file has been chosen yet: its path is the
    /// text `default`.
    pub fn default() -> (handler: Self)
        ensures
            handler.path@ == "default"@,
    {
        FileHandler { path: String::from_str("default") }
    }
}

impl Clone for FileHandler {
    fn clone(&self) -> (handler: Self)
        ensures
            handler == *self,
    {
        FileHandler { path: self.path.clone() }
    }
}

/// Appends `bytes` to `buf`.
fn append_bytes(buf: &mut Vec<u8>, bytes: &Vec<u8>)
    ensures
        final(buf)@ == old(buf)@ + bytes@,
{
    let mut i: usize = 0;
    while i < bytes.len()
        invariant
            0 <= i <= bytes@.len(),
            buf@ == old(buf)@ + bytes@.subrange(0, i as int),
        decreases bytes@.len() - i,
    {
        buf.push(bytes[i]);
        proof {
            assert(buf@ =~= old(buf)@ + bytes@.subrange(0, i + 1));
        }
        i = i + 1;
    }
    proof {
        assert(bytes@.subrange(0, i as int) =~= bytes@);
    }
}

impl ChunkPointer for FileHandler {
    open spec fn spec_path(&self) -> Seq<char> {
        self.path@
    }

    fn new(path: String) -> (pointer: Self) {
        FileHandler { path }
    }

    fn write(&self, content: &Vec<u8>) -> (file: Vec<u8>) {
        let mut file: Vec<u8> = Vec::new();
        append_bytes(&mut file, content);
        proof {
            assert(file@ =~= content@);
        }
        file
    }

    fn read(&self, file: &Vec<u8>, buf: &mut Vec<u8>) -> (count: usize) {
        append_bytes(buf, file);
        file.len()
    }
}

} // verus!
