use bplus_tree::bplus_tree::snapshot::{
    check_entries, check_keys, copy_entries, copy_keys, SerializableBPlus, SerializableInternalNode,
    SerializableLeaf, SerializableNode,
};
use bplus_tree::bplus_tree::BPlus;
use bplus_tree::chunk_pointer::ChunkHandler;
use bplus_tree::error::StoreError;
use bplus_tree::memory::MemoryStore;

fn handle(offset: u64) -> ChunkHandler {
    ChunkHandler::new("data/0".to_string(), offset, 1)
}

fn leaf(keys: &[u64]) -> SerializableNode<u64> {
    SerializableNode::Leaf(SerializableLeaf { entries: keys.iter().map(|k| (*k, handle(*k))).collect() })
}

fn inner(keys: &[u64], children: Vec<SerializableNode<u64>>) -> SerializableNode<u64> {
    SerializableNode::Internal(SerializableInternalNode { keys: keys.to_vec(), children })
}

fn snapshot(t: usize, root: SerializableNode<u64>) -> SerializableBPlus<u64> {
    SerializableBPlus { t, path: "data".to_string(), file_number: 3, offset: 17, max_file_size: 64, root }
}

fn corrupt(t: usize, root: SerializableNode<u64>) {
    assert_eq!(BPlus::load(snapshot(t, root)).err(), Some(StoreError::Corruption));
}

#[test]
fn test_save_load_empty_tree() {
    let tree = BPlus::<u64>::new(2, "empty_tree".to_string());

    let saved = tree.save();

    let loaded_tree = BPlus::<u64>::load(saved).unwrap();

    assert_eq!(tree.t(), loaded_tree.t());
    assert_eq!(tree.path(), loaded_tree.path());
    assert_eq!(tree.file_number(), loaded_tree.file_number());
    assert_eq!(tree.offset(), loaded_tree.offset());
    assert_eq!(tree.max_file_size(), loaded_tree.max_file_size());
    assert!(loaded_tree.get(&42).is_err());
    assert_eq!(loaded_tree.get(&42), Err(StoreError::NotFound));
}

#[test]
fn test_snapshot_of_a_small_tree() {
    let mut tree: BPlus<u64> = BPlus::new(2, "data".to_string());
    tree.set_max_file_size(64);
    for k in 1..=4u64 {
        tree.insert(k, handle(k));
    }
    tree.get_chunk_handler(70).unwrap();
    tree.get_chunk_handler(5).unwrap();
    let saved = tree.serialize();
    assert_eq!(
        saved,
        SerializableBPlus {
            t: 2,
            path: "data".to_string(),
            file_number: 1,
            offset: 5,
            max_file_size: 64,
            root: inner(&[3], vec![leaf(&[1, 2]), leaf(&[3, 4])]),
        }
    );
    assert_eq!(tree.save(), saved);
}

#[test]
fn test_save_then_load_answers_get_identically() {
    let mut tree: BPlus<u32> = BPlus::new(3, "round".to_string());
    tree.set_max_file_size(1000);
    let mut state: u32 = 99;
    for _ in 0..3000 {
        state = state.wrapping_mul(1664525).wrapping_add(1013904223);
        let key = state % 1000;
        let plan = tree.get_chunk_handler((key % 13) as usize).unwrap();
        tree.insert(key, plan.handle);
    }
    let loaded = BPlus::load(tree.save()).unwrap();
    for key in 0..1000u32 {
        assert_eq!(loaded.get(&key), tree.get(&key));
    }
    assert_eq!(loaded.scan(), tree.scan());
    assert_eq!(loaded.size(), tree.size());
    assert_eq!(loaded.t(), 3);
    assert_eq!(loaded.path(), "round");
    assert_eq!(loaded.file_number(), tree.file_number());
    assert_eq!(loaded.offset(), tree.offset());
    assert_eq!(loaded.max_file_size(), 1000);
    assert_eq!(loaded.save(), tree.save());
}

#[test]
fn test_load_rebuilds_the_links_between_the_leaves() {
    let root = inner(
        &[50],
        vec![
            inner(&[10, 30], vec![leaf(&[1, 2]), leaf(&[10, 11, 12]), leaf(&[30, 40])]),
            inner(&[70], vec![leaf(&[50, 60]), leaf(&[70, 80, 90])]),
        ],
    );
    let mut tree = BPlus::load(snapshot(2, root)).unwrap();
    let mut node = tree.root();
    while !tree.is_leaf(node) {
        node = tree.children_of(node).unwrap()[0];
    }
    let mut walked = Vec::new();
    let mut current = Some(node);
    while let Some(l) = current {
        walked.push(tree.keys_of(l).unwrap());
        current = tree.next_leaf(l);
    }
    assert_eq!(
        walked,
        vec![vec![1, 2], vec![10, 11, 12], vec![30, 40], vec![50, 60], vec![70, 80, 90]]
    );
    assert_eq!(tree.size(), 12);
    assert_eq!((tree.t(), tree.file_number(), tree.offset(), tree.max_file_size()), (2, 3, 17, 64));
    assert_eq!(tree.path(), "data");
    assert_eq!(tree.get(&60), Ok(handle(60)));
    assert_eq!(tree.get(&61), Err(StoreError::NotFound));
    // The loaded tree takes further insertions.
    for k in 100..200u64 {
        tree.insert(k, handle(k));
    }
    let keys: Vec<u64> = tree.scan().into_iter().map(|e| e.0).collect();
    let mut expected = vec![1, 2, 10, 11, 12, 30, 40, 50, 60, 70, 80, 90];
    expected.extend(100..200u64);
    assert_eq!(keys, expected);
}

#[test]
fn test_load_links_the_leaves_of_a_tree_that_never_wrote_a_byte() {
    // Only empty chunks were stored: the write position is still at the
    // start of segment 0, yet the tree has several leaves.
    let mut tree: BPlus<u64> = BPlus::new(2, "zero".to_string());
    for k in 0..20u64 {
        let plan = tree.get_chunk_handler(0).unwrap();
        tree.insert(k, plan.handle);
    }
    assert_eq!((tree.file_number(), tree.offset()), (0, 0));
    let loaded = BPlus::load(tree.save()).unwrap();
    assert_eq!((loaded.file_number(), loaded.offset()), (0, 0));
    let keys: Vec<u64> = loaded.scan().into_iter().map(|e| e.0).collect();
    assert_eq!(keys, (0..20).collect::<Vec<u64>>());
    let mut iter = loaded.into_iter();
    let mut count = 0;
    while let Some((key, _)) = iter.next() {
        assert_eq!(key, count);
        count += 1;
    }
    assert_eq!(count, 20);
}

#[test]
fn test_load_a_single_leaf() {
    let tree = BPlus::load(snapshot(2, leaf(&[5, 6, 7]))).unwrap();
    assert!(tree.is_leaf(tree.root()));
    assert_eq!(tree.next_leaf(tree.root()), None);
    assert_eq!(tree.keys_of(tree.root()), Some(vec![5, 6, 7]));
    let tree = snapshot(2, leaf(&[])).deserialize().unwrap();
    assert_eq!(tree.size(), 0);
}

#[test]
fn test_load_rejects_a_branching_parameter_below_two() {
    corrupt(1, leaf(&[1]));
    corrupt(0, leaf(&[]));
    corrupt(usize::MAX, leaf(&[]));
    corrupt(usize::MAX / 2 + 1, leaf(&[]));
    assert!(BPlus::load(snapshot(usize::MAX / 2, leaf(&[]))).is_ok());
}

#[test]
fn test_load_rejects_keys_out_of_order() {
    corrupt(2, leaf(&[2, 1]));
    corrupt(2, leaf(&[1, 1]));
    corrupt(2, inner(&[3], vec![leaf(&[1, 2]), leaf(&[4, 3])]));
    corrupt(3, inner(&[30, 10], vec![leaf(&[1, 2, 3]), leaf(&[10, 11, 12]), leaf(&[30, 31, 32])]));
}

#[test]
fn test_load_rejects_keys_outside_the_range_of_their_node() {
    // A key of the left leaf is not below the separator.
    corrupt(2, inner(&[3], vec![leaf(&[1, 3]), leaf(&[4, 5])]));
    // A key of the right leaf is below the separator.
    corrupt(2, inner(&[3], vec![leaf(&[1, 2]), leaf(&[2, 5])]));
    // A separator of the left child is not below the separator above it.
    corrupt(
        2,
        inner(
            &[50],
            vec![
                inner(&[50], vec![leaf(&[1, 2]), leaf(&[50, 51])]),
                inner(&[70], vec![leaf(&[52, 60]), leaf(&[70, 80])]),
            ],
        ),
    );
    // The separator may be the first key of the right leaf, or below it.
    assert!(BPlus::load(snapshot(2, inner(&[3], vec![leaf(&[1, 2]), leaf(&[4, 5])]))).is_ok());
}

#[test]
fn test_load_rejects_a_wrong_number_of_children() {
    corrupt(2, inner(&[3], vec![leaf(&[1, 2])]));
    corrupt(2, inner(&[3], vec![leaf(&[1, 2]), leaf(&[3, 4]), leaf(&[5, 6])]));
    corrupt(2, inner(&[], vec![leaf(&[1, 2])]));
    corrupt(2, inner(&[], vec![]));
    corrupt(2, inner(&[3], vec![]));
}

#[test]
fn test_load_rejects_nodes_that_are_too_small_or_too_large() {
    // A leaf below the root with fewer than t entries.
    corrupt(2, inner(&[3], vec![leaf(&[1]), leaf(&[3, 4])]));
    corrupt(2, inner(&[3], vec![leaf(&[1, 2]), leaf(&[])]));
    // A leaf with 2t entries.
    corrupt(2, leaf(&[1, 2, 3, 4]));
    corrupt(2, inner(&[5], vec![leaf(&[1, 2, 3, 4]), leaf(&[5, 6])]));
    // An internal node with 2t - 1 keys.
    corrupt(
        2,
        inner(&[3, 5, 7], vec![leaf(&[1, 2]), leaf(&[3, 4]), leaf(&[5, 6]), leaf(&[7, 8])]),
    );
    // An internal node below the root with fewer than t - 1 keys.
    let small = |a: u64| inner(&[a + 10], vec![leaf(&[a, a + 1, a + 2]), leaf(&[a + 10, a + 11, a + 12])]);
    corrupt(3, inner(&[100], vec![small(0), small(100)]));
    let fine = |a: u64| {
        inner(
            &[a + 10, a + 20],
            vec![
                leaf(&[a, a + 1, a + 2]),
                leaf(&[a + 10, a + 11, a + 12]),
                leaf(&[a + 20, a + 21, a + 22]),
            ],
        )
    };
    assert!(BPlus::load(snapshot(3, inner(&[100], vec![fine(0), fine(100)]))).is_ok());
}

#[test]
fn test_load_rejects_leaves_at_different_depths() {
    corrupt(
        2,
        inner(&[50], vec![leaf(&[1, 2]), inner(&[70], vec![leaf(&[50, 60]), leaf(&[70, 80])])]),
    );
    corrupt(
        2,
        inner(&[50], vec![inner(&[10], vec![leaf(&[1, 2]), leaf(&[10, 20])]), leaf(&[50, 60])]),
    );
}

#[test]
fn test_check_keys_and_entries() {
    let keys: Vec<u64> = vec![10, 20, 30];
    assert!(check_keys(&keys, None, None));
    assert!(check_keys(&keys, Some(&9), Some(&31)));
    // Separators lie strictly between the bounds.
    assert!(!check_keys(&keys, Some(&10), None));
    assert!(!check_keys(&keys, None, Some(&30)));
    assert!(!check_keys(&vec![10u64, 10], None, None));
    assert!(check_keys(&Vec::<u64>::new(), Some(&5), Some(&1)));

    let entries: Vec<(u64, ChunkHandler)> = vec![(10, handle(0)), (20, handle(1))];
    assert!(check_entries(&entries, None, None));
    // The lower bound may be the first key, the upper bound not the last.
    assert!(check_entries(&entries, Some(&10), Some(&21)));
    assert!(!check_entries(&entries, Some(&11), None));
    assert!(!check_entries(&entries, None, Some(&20)));
    assert!(!check_entries(&vec![(2u64, handle(0)), (1, handle(1))], None, None));
    assert_eq!(copy_keys(&keys), keys);
    assert_eq!(copy_entries(&entries), entries);
}

fn filled_store() -> MemoryStore<u32> {
    let mut store: MemoryStore<u32> = MemoryStore::new(2, "kept".to_string());
    store.set_max_file_size(40);
    for k in 0..60u32 {
        store.insert(k * 3 % 60, vec![k as u8; (k % 7) as usize]).unwrap();
    }
    store
}

#[test]
fn test_store_saved_and_loaded_holds_the_same_chunks() {
    let store = filled_store();
    let expected = store.scan();
    let (file_number, offset) = (store.tree().file_number(), store.tree().offset());
    assert!(file_number >= 2);
    let snapshot = store.save();
    let (_, files) = store.into_parts();
    let loaded = MemoryStore::load(snapshot, files).ok().unwrap();
    assert_eq!(loaded.scan(), expected);
    for (key, chunk) in &expected {
        assert_eq!(loaded.get(key), Ok(chunk.clone()));
    }
    assert_eq!(loaded.get(&1000), Err(StoreError::NotFound));
    assert_eq!((loaded.tree().file_number(), loaded.tree().offset()), (file_number, offset));
    assert_eq!(loaded.tree().max_file_size(), 40);
    // The loaded store goes on where the saved one stood.
    let mut loaded = loaded;
    loaded.insert(7, vec![9, 9]).unwrap();
    assert_eq!(loaded.get(&7), Ok(vec![9, 9]));
    assert_eq!(loaded.get(&6), expected.iter().find(|e| e.0 == 6).map(|e| e.1.clone()).ok_or(StoreError::NotFound));
}

#[test]
fn test_store_load_rejects_a_corrupt_snapshot() {
    let store = filled_store();
    let mut snapshot = store.save();
    let (_, files) = store.into_parts();
    snapshot.t = 1;
    assert_eq!(MemoryStore::load(snapshot, files).err(), Some(StoreError::Corruption));
}

#[test]
fn test_store_load_misses_segments_that_do_not_fit() {
    let parts = || {
        let store = filled_store();
        let snapshot = store.save();
        let (_, files) = store.into_parts();
        (snapshot, files)
    };
    let missing = |r: Result<MemoryStore<u32>, StoreError>| assert_eq!(r.err(), Some(StoreError::NotFound));
    // A segment is missing.
    let (snapshot, mut files) = parts();
    files.pop();
    missing(MemoryStore::load(snapshot, files));
    let (snapshot, _) = parts();
    missing(MemoryStore::load(snapshot, Vec::new()));
    // There is a segment too many.
    let (snapshot, mut files) = parts();
    files.push(("kept/99".to_string(), Vec::new()));
    missing(MemoryStore::load(snapshot, files));
    // A segment is not at its path.
    let (snapshot, mut files) = parts();
    files[1].0 = "elsewhere/1".to_string();
    missing(MemoryStore::load(snapshot, files));
    // The current segment does not end at the write position.
    let (snapshot, mut files) = parts();
    files.last_mut().unwrap().1.push(0);
    missing(MemoryStore::load(snapshot, files));
    // A chunk does not lie within its segment.
    let handle = filled_store().tree().get(&0).unwrap();
    assert_eq!(handle.size, 5);
    let (snapshot, mut files) = parts();
    let segment = files.iter().position(|f| f.0 == handle.path).unwrap();
    assert!(segment + 1 < files.len());
    files[segment].1.truncate(handle.offset as usize + 4);
    missing(MemoryStore::load(snapshot, files));
    // A segment that no handle points into may be cut.
    let (snapshot, mut files) = parts();
    files[0].1.truncate(3);
    assert!(MemoryStore::load(snapshot, files).is_ok());
    // The files as they were fit.
    let (snapshot, files) = parts();
    assert!(MemoryStore::load(snapshot, files).is_ok());
}
