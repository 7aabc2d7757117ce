use bplus_tree::error::StoreError;
use bplus_tree::memory::MemoryStore;
use bplus_tree::storage::{unwrap_value, wrap_value};
use chunkfs::{Data, DataContainer};

#[test]
fn test_unwrap_value_gives_the_inline_chunk() {
    let value: DataContainer<()> = DataContainer::from(vec![1, 2, 3]);
    assert_eq!(unwrap_value(&value), Ok(vec![1, 2, 3]));
    let empty: DataContainer<()> = DataContainer::from(Vec::new());
    assert_eq!(unwrap_value(&empty), Ok(Vec::new()));
    assert_eq!(unwrap_value(&DataContainer::default()), Ok(Vec::new()));
}

#[test]
fn test_unwrap_value_rejects_a_target_chunk() {
    let mut value: DataContainer<()> = DataContainer::from(vec![1, 2, 3]);
    value.make_target(vec![(), ()]);
    assert_eq!(unwrap_value(&value), Err(StoreError::Unsupported));
}

#[test]
fn test_wrap_value_holds_the_bytes_inline() {
    let value = wrap_value(vec![9, 8, 7]);
    match value.extract() {
        Data::Chunk(chunk) => assert_eq!(chunk, &vec![9, 8, 7]),
        Data::TargetChunk(_) => panic!("stored bytes are handed out inline"),
    }
    assert_eq!(unwrap_value(&value), Ok(vec![9, 8, 7]));
    assert_eq!(unwrap_value(&wrap_value(Vec::new())), Ok(Vec::new()));
}

#[test]
fn test_store_takes_and_gives_containers() {
    let mut store: MemoryStore<[u8; 4]> = MemoryStore::new(2, "db".to_string());
    let key = [0xde, 0xad, 0xbe, 0xef];
    assert_eq!(store.insert_container(key, &DataContainer::from(vec![1, 2, 3])), Ok(()));
    let value = store.get_container(&key).unwrap();
    match value.extract() {
        Data::Chunk(chunk) => assert_eq!(chunk, &vec![1, 2, 3]),
        Data::TargetChunk(_) => panic!("stored bytes are handed out inline"),
    }
    assert!(store.contains(&key));
    assert!(store.get_container(&[0, 0, 0, 0]).is_err());
    assert_eq!(store.get_container(&[0, 0, 0, 0]).err(), Some(StoreError::NotFound));
    assert!(!store.contains(&[0, 0, 0, 0]));
}

#[test]
fn test_store_rejects_a_target_chunk_and_stays_as_it_is() {
    let mut store: MemoryStore<u64> = MemoryStore::new(2, "db".to_string());
    store.insert_container(1, &DataContainer::from(vec![5])).unwrap();
    let mut target: DataContainer<()> = DataContainer::from(vec![6]);
    target.make_target(vec![()]);
    assert_eq!(store.insert_container(1, &target), Err(StoreError::Unsupported));
    assert_eq!(store.insert_container(2, &target), Err(StoreError::Unsupported));
    assert_eq!(store.get(&1), Ok(vec![5]));
    assert_eq!(store.get(&2), Err(StoreError::NotFound));
    assert_eq!(store.tree().size(), 1);
    assert_eq!(store.tree().offset(), 1);
}
