use crate::error::StoreError;
use chunkfs::{Data, DataContainer};
use vstd::prelude::*;

verus! {

/// `chunkfs::DataContainer`: the container in which the chunking file
/// system hands over what is to be stored and takes back what was stored.
/// Nothing is claimed of what is inside it.
#[verifier::external_type_specification]
#[verifier::external_body]
#[verifier::reject_recursive_types(K)]
pub struct ExDataContainer<K>(DataContainer<K>);

/// What `DataContainer::extract` finds in a container: the bytes of the
/// chunk where the data is `Data::Chunk`, and nothing where it is
/// `Data::TargetChunk`.
pub uninterp spec fn inline_chunk(value: DataContainer<()>) -> Option<Seq<u8>>;

/// `DataContainer::extract`, and a copy of the chunk where the data is
/// `Data::Chunk`. The contract claims that the copy holds the bytes of
/// the container's inline chunk, and that nothing is returned exactly
/// where the data is `Data::TargetChunk`.
#[verifier::external_body]
fn extract_chunk(value: &DataContainer<()>) -> (chunk: Option<Vec<u8>>)
    ensures
        chunk is Some <==> inline_chunk(*value) is Some,
        chunk is Some ==> chunk->Some_0@ == inline_chunk(*value)->Some_0,
{
    match value.extract() {
        Data::Chunk(chunk) => Some(chunk.clone()),
        Data::TargetChunk(_) => None,
    }
}

/// `DataContainer::from` for a vector of bytes. The contract claims that
/// the container holds those bytes as its inline chunk.
#[verifier::external_body]
fn container_from(chunk: Vec<u8>) -> (value: DataContainer<()>)
    ensures
        inline_chunk(value) == Some(chunk@),
{
    DataContainer::from(chunk)
}

/// The bytes that are to be stored for `value`: its inline chunk. A
/// container that holds anything else is rejected as *Unsupported*.
pub fn unwrap_value(value: &DataContainer<()>) -> (r: Result<Vec<u8>, StoreError>)
    ensures
        match inline_chunk(*value) {
            Some(bytes) => r is Ok && r->Ok_0@ == bytes,
            None => r == Err::<Vec<u8>, StoreError>(StoreError::Unsupported),
        },
{
    match extract_chunk(value) {
        Some(chunk) => Ok(chunk),
        None => Err(StoreError::Unsupported),
    }
}

/// The container that is handed out for stored bytes: one that holds them
/// as its inline chunk.
pub fn wrap_value(bytes: Vec<u8>) -> (value: DataContainer<()>)
    ensures
        inline_chunk(value) == Some(bytes@),
{
    container_from(bytes)
}

} // verus!
