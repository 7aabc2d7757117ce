use vstd::prelude::*;

verus! {

/// Why an operation of the store did not give a result.
#[derive(Clone, Copy, Debug, PartialEq, Eq)]
pub enum StoreError {
    /// The key, or the segment that a handle names, is missing.
    NotFound,
    /// Reading, writing or creating a file failed.
    Io,
    /// A snapshot does not describe a tree.
    Corruption,
    /// The value is of a kind that the store does not hold.
    Unsupported,
}

} // verus!
