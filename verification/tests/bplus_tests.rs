use bplus_tree::bplus_tree::{BPlus, Descent, WritePlan, DEFAULT_MAX_FILE_SIZE};
use bplus_tree::chunk_pointer::ChunkHandler;
use bplus_tree::error::StoreError;
use bplus_tree::memory::MemoryStore;
use std::collections::HashMap;

fn handle(offset: u64) -> ChunkHandler {
    ChunkHandler::new("data/0".to_string(), offset, 1)
}

#[test]
fn test_non_existent_key() {
    let mut tree: MemoryStore<usize> = MemoryStore::new(2, "non_existent".to_string());
    tree.insert(1, vec![1]).unwrap();
    assert!(tree.get(&2).is_err());
}

#[test]
fn test_overwrite_existing_key() {
    let mut tree: MemoryStore<usize> = MemoryStore::new(2, "overwrite".to_string());

    tree.insert(1, vec![1]).unwrap();
    tree.insert(1, vec![42]).unwrap();

    assert_eq!(tree.get(&1).unwrap(), vec![42]);
}

#[test]
fn bplus_tests_test_insert_and_find() {
    let mut tree: MemoryStore<usize> = MemoryStore::new(2, "1".to_string());
    for i in 1..6 {
        tree.insert(i, vec![i as u8; 1]).unwrap();
    }

    for i in 1..6 {
        let a = tree.get(&i).unwrap();
        assert_eq!(a, vec![i as u8; 1]);
    }
}

#[test]
fn bplus_tests_test_insert_and_find_many_nodes() {
    let mut tree: MemoryStore<usize> = MemoryStore::new(2, "4".to_string());
    for i in 1..255 {
        tree.insert(i, vec![i as u8; 1]).unwrap();
    }

    for i in 1..255 {
        assert_eq!(tree.get(&(i as usize)).unwrap(), vec![i as u8; 1]);
    }
}

#[test]
fn test_large_data_consecutive_numbers() {
    let mut tree: MemoryStore<usize> = MemoryStore::new(100, "6".to_string());
    for i in 1..10000 {
        tree.insert(i, vec![i as u8; 1064]).unwrap();
    }
    for i in 1..10000 {
        let a = tree.get(&i).unwrap();
        assert_eq!(a, vec![i as u8; 1064]);
    }
}

#[test]
fn test_large_data() {
    let mut tree: MemoryStore<usize> = MemoryStore::new(2, "7".to_string());
    let mut htable = HashMap::<usize, Vec<u8>>::new();
    for i in 1..10000 {
        let key = i * 113;
        tree.insert(key, vec![key as u8; 1064]).unwrap();
        htable.insert(key, vec![key as u8; 1064]);
    }
    for (key, value) in htable {
        assert_eq!(tree.get(&key).unwrap(), value);
    }
}

#[test]
fn test_couple_of_same_keys_inserted() {
    let mut tree: MemoryStore<usize> = MemoryStore::new(2, "8".to_string());
    for i in 1..100 {
        tree.insert(i, vec![1u8]).unwrap();
    }

    for i in 1..100 {
        for j in 1..100 {
            tree.insert(i, vec![j as u8]).unwrap();
        }
    }
    for i in 1..100 {
        for _ in 1..100 {
            tree.get(&i).unwrap();
        }
    }
}

#[test]
fn test_same_10k_keys_inserted() {
    let mut tree: MemoryStore<usize> = MemoryStore::new(2, "same_10k_keys".to_string());

    for i in 0..10000 {
        tree.insert(i, vec![i as u8]).unwrap();
    }

    for i in 0..10000 {
        tree.insert(i, vec![i as u8]).unwrap();
    }

    for key in 1..10000 {
        assert_eq!(vec![key as u8], tree.get(&key).unwrap());
    }
}

#[test]
fn test_empty_tree() {
    let tree: MemoryStore<usize> = MemoryStore::new(2, "empty".to_string());
    assert!(tree.get(&1).is_err());
}

#[test]
fn test_single_entry() {
    let mut tree: MemoryStore<i32> = MemoryStore::new(2, "single".to_string());
    tree.insert(42, vec![1, 2, 3]).unwrap();
    assert_eq!(tree.get(&42).unwrap(), vec![1, 2, 3]);
}

#[test]
fn test_reverse_order_insert() {
    let mut tree: MemoryStore<usize> = MemoryStore::new(3, "reverse".to_string());

    for i in (1..100).rev() {
        tree.insert(i, vec![i as u8]).unwrap();
    }

    for i in 1..100 {
        assert_eq!(tree.get(&i).unwrap(), vec![i as u8]);
    }
}

#[test]
fn test_key_duplication() {
    let mut tree: MemoryStore<i32> = MemoryStore::new(2, "dupes".to_string());

    for _ in 0..10 {
        tree.insert(42, vec![1]).unwrap();
        tree.insert(42, vec![2]).unwrap();
    }

    assert_eq!(tree.get(&42).unwrap(), vec![2]);
}

#[test]
fn test_stress_1m_entries() {
    let mut tree: MemoryStore<i32> = MemoryStore::new(100, "stress_1m".to_string());

    for i in 0..1_000_000 {
        tree.insert(i, vec![i as u8]).unwrap();
    }

    for i in 0..1_000_000 {
        assert_eq!(tree.get(&i).unwrap(), vec![i as u8]);
    }
}

#[test]
fn test_find_nonexistent_after_splits() {
    let mut tree: MemoryStore<i32> = MemoryStore::new(2, "nonexistent".to_string());

    for i in 0..1000 {
        tree.insert(i, vec![1]).unwrap();
    }

    assert!(tree.get(&1001).is_err());
}

#[test]
fn test_multiple_inserts() {
    let mut tree: MemoryStore<i32> = MemoryStore::new(2, "multiple_inserts".to_string());

    for i in 1..=4 {
        tree.insert(i, vec![i as u8]).unwrap();
    }

    for i in 1..=4 {
        let result = tree.get(&i).unwrap();
        assert_eq!(result, vec![i as u8]);
    }
}

#[test]
fn test_concurrent_inserts() {
    let mut tree: MemoryStore<i32> = MemoryStore::new(2, "concurrent_inserts".to_string());

    for i in 0..50 {
        tree.insert(i, vec![i as u8]).unwrap();
    }

    for i in 0..50 {
        let result = tree.get(&i).unwrap();
        assert_eq!(result, vec![i as u8]);
    }
}

#[test]
fn test_root_split() {
    let mut tree: MemoryStore<i32> = MemoryStore::new(2, "root_split".to_string());

    tree.insert(1, vec![1]).unwrap();
    tree.insert(2, vec![2]).unwrap();
    tree.insert(3, vec![3]).unwrap();
    tree.insert(4, vec![4]).unwrap();

    let root = tree.tree().root();
    assert!(!tree.tree().is_leaf(root), "Root should be internal node after split");
    assert_eq!(tree.tree().keys_of(root).unwrap().len(), 1);
    assert_eq!(tree.tree().children_of(root).unwrap().len(), 2);
}

#[test]
fn test_large_value_storage() {
    let mut tree: MemoryStore<i32> = MemoryStore::new(2, "large_value".to_string());
    tree.set_max_file_size(100);

    let large_data = vec![7; 150];
    tree.insert(1, large_data.clone()).unwrap();

    let result = tree.get(&1).unwrap();
    assert_eq!(result, large_data);
    tree.insert(2, large_data.clone()).unwrap();
    let result = tree.get(&1).unwrap();
    assert_eq!(result, large_data);

    assert!(tree.tree().file_number() >= 1, "Should create multiple files");
}

#[test]
fn test_minimal_degree() {
    let mut tree: MemoryStore<i32> = MemoryStore::new(2, "min_degree".to_string());

    for i in 1..=10 {
        tree.insert(i, vec![i as u8]).unwrap();
    }

    assert_eq!(tree.get(&5).unwrap(), vec![5]);
}

#[test]
fn test_same_keys_inserted() {
    let mut tree: MemoryStore<usize> = MemoryStore::new(2, "10".to_string());
    let mut keys = vec![];
    let mut state: u64 = 0x2545f4914f6cdd1d;
    for _ in 1..100000 {
        state = state.wrapping_mul(6364136223846793005).wrapping_add(1442695040888963407);
        let key: usize = (state >> 33) as usize % 10000;
        keys.push(key);
    }

    for key in keys.clone() {
        tree.insert(key, vec![key as u8]).unwrap();
    }

    for key in keys {
        assert_eq!(vec![key as u8], tree.get(&key).unwrap());
    }

    let key: usize = 987654321;
    tree.insert(key, vec![0u8]).unwrap();
    for i in 1..255 {
        assert_eq!(vec![i - 1u8], tree.get(&key).unwrap());
        tree.insert(key, vec![i]).unwrap();
    }
}

#[test]
fn test_stress_1m_entries_concurrent() {
    let mut tree: MemoryStore<usize> = MemoryStore::new(100, "stress_1m".to_string());
    let num_tasks = 1000;
    let entries_per_task = 1000;

    // One insertion of every task in turn, as tasks that run side by
    // side would be served.
    for i in 0..entries_per_task {
        for task_id in 0..num_tasks {
            let key = (task_id * entries_per_task) + i;
            tree.insert(key, vec![key as u8]).unwrap();
        }
    }

    for task_id in 0..num_tasks {
        for i in 0..entries_per_task {
            let key = (task_id * entries_per_task) + i;
            let value = tree.get(&key).unwrap();
            assert_eq!(value, vec![key as u8], "Invalid value for key {}", key);
        }
    }
}

#[test]
fn test_byte_array_keys() {
    let mut tree: MemoryStore<[u8; 6]> = MemoryStore::new(2, "array_keys".to_string());

    tree.insert(*b"apple\0", b"fruit".to_vec()).unwrap();
    tree.insert(*b"banana", b"yellow".to_vec()).unwrap();

    assert_eq!(tree.get(b"apple\0").unwrap(), b"fruit");
    assert_eq!(tree.get(b"banana").unwrap(), b"yellow");
    assert_eq!(tree.get(b"cherry"), Err(StoreError::NotFound));
}

#[test]
fn test_new_tree_is_empty_and_configured() {
    let tree: BPlus<u64> = BPlus::new(2, "dir".to_string());
    assert_eq!(tree.t(), 2);
    assert_eq!(tree.path(), "dir");
    assert_eq!(tree.file_number(), 0);
    assert_eq!(tree.offset(), 0);
    assert_eq!(tree.max_file_size(), DEFAULT_MAX_FILE_SIZE);
    assert_eq!(DEFAULT_MAX_FILE_SIZE, 2 << 20);
    assert_eq!(tree.size(), 0);
    assert_eq!(tree.node_count(), 1);
    assert!(tree.is_leaf(tree.root()));
    assert_eq!(tree.get(&1), Err(StoreError::NotFound));
    assert!(!tree.contains(&1));
}

#[test]
fn test_empty_tree_iterates_to_end() {
    let tree: BPlus<u64> = BPlus::new(2, "dir".to_string());
    assert_eq!(tree.get(&1), Err(StoreError::NotFound));
    let mut iter = tree.into_iter();
    assert_eq!(iter.next(), None);
    assert_eq!(iter.next(), None);
}

#[test]
fn test_get_returns_the_handle_of_the_last_insert() {
    let mut tree: BPlus<u64> = BPlus::new(2, "data".to_string());
    tree.insert(1, handle(10));
    tree.insert(2, handle(20));
    tree.insert(1, handle(30));
    assert_eq!(tree.get(&1), Ok(handle(30)));
    assert_eq!(tree.get(&2), Ok(handle(20)));
    assert_eq!(tree.get(&3), Err(StoreError::NotFound));
    assert!(tree.contains(&1));
    assert!(!tree.contains(&3));
}

#[test]
fn test_overwrite_keeps_size() {
    let mut tree: MemoryStore<u64> = MemoryStore::new(2, "overwrite_size".to_string());
    tree.insert(1, vec![1]).unwrap();
    tree.insert(1, vec![42]).unwrap();
    assert_eq!(tree.get(&1).unwrap(), vec![42]);
    assert_eq!(tree.tree().size(), 1);
}

#[test]
fn test_leaf_split_at_t_2() {
    let mut tree: BPlus<u64> = BPlus::new(2, "data".to_string());
    for k in 1..=3u64 {
        tree.insert(k, handle(k));
    }
    // Three entries fit into the root leaf.
    assert!(tree.is_leaf(tree.root()));
    assert_eq!(tree.keys_of(tree.root()), Some(vec![1, 2, 3]));

    tree.insert(4, handle(4));
    let root = tree.root();
    assert!(!tree.is_leaf(root));
    assert_eq!(tree.keys_of(root), Some(vec![3]));
    let children = tree.children_of(root).unwrap();
    assert_eq!(children.len(), 2);
    let (left, right) = (children[0], children[1]);
    assert!(tree.is_leaf(left));
    assert!(tree.is_leaf(right));
    assert_eq!(tree.keys_of(left), Some(vec![1, 2]));
    assert_eq!(tree.keys_of(right), Some(vec![3, 4]));
    assert_eq!(tree.next_leaf(left), Some(right));
    assert_eq!(tree.next_leaf(right), None);
    assert_eq!(tree.node_count(), 3);
}

#[test]
fn test_internal_split_moves_the_median_up() {
    // With t = 2 an internal node splits when it gets its third key.
    let mut tree: BPlus<u64> = BPlus::new(2, "data".to_string());
    for k in 1..=8u64 {
        tree.insert(k, handle(k));
    }
    // Leaves {1,2} {3,4} {5,6,7,8 -> split}: the root has taken the
    // separators 3, 5 and 7 and has split around 5.
    let root = tree.root();
    assert_eq!(tree.keys_of(root), Some(vec![5]));
    let children = tree.children_of(root).unwrap();
    assert_eq!(children.len(), 2);
    assert_eq!(tree.keys_of(children[0]), Some(vec![3]));
    assert_eq!(tree.keys_of(children[1]), Some(vec![7]));
    assert_eq!(tree.children_of(children[0]).unwrap().len(), 2);
    assert_eq!(tree.children_of(children[1]).unwrap().len(), 2);
    let keys: Vec<u64> = tree.scan().into_iter().map(|e| e.0).collect();
    assert_eq!(keys, (1..=8).collect::<Vec<u64>>());
}

#[test]
fn test_reverse_order_iteration() {
    let mut tree: MemoryStore<usize> = MemoryStore::new(3, "reverse_iter".to_string());
    for i in (1..100).rev() {
        tree.insert(i, vec![i as u8]).unwrap();
    }
    for i in 1..100 {
        assert_eq!(tree.get(&i).unwrap(), vec![i as u8]);
    }
    let all = tree.scan();
    assert_eq!(all.len(), 99);
    for (i, (key, chunk)) in all.iter().enumerate() {
        assert_eq!(*key, i + 1);
        assert_eq!(*chunk, vec![(i + 1) as u8]);
    }
    assert_eq!(tree.tree().size(), 99);
}

#[test]
fn test_iterator_yields_every_entry_in_ascending_order() {
    let mut tree: BPlus<u32> = BPlus::new(2, "data".to_string());
    let keys = [50u32, 10, 40, 20, 30, 60, 5, 55, 45, 15, 10, 50];
    for (i, k) in keys.iter().enumerate() {
        tree.insert(*k, handle(i as u64));
    }
    let scanned = tree.scan();
    let expected: Vec<u32> = vec![5, 10, 15, 20, 30, 40, 45, 50, 55, 60];
    assert_eq!(scanned.iter().map(|e| e.0).collect::<Vec<u32>>(), expected);
    // The last insert of a key is the one that is found.
    assert_eq!(scanned[1].1, handle(10));
    assert_eq!(scanned[7].1, handle(11));
    assert_eq!(tree.size(), expected.len());

    let mut iter = tree.into_iter();
    let mut walked = Vec::new();
    while let Some(entry) = iter.next() {
        walked.push(entry);
    }
    assert_eq!(walked, scanned);
    assert_eq!(iter.next(), None);
}

#[test]
fn test_leaves_are_linked_in_key_order() {
    let mut tree: BPlus<u32> = BPlus::new(2, "data".to_string());
    for k in (0..200u32).rev() {
        tree.insert(k * 7 % 200, handle(k as u64));
    }
    // Walk down the leftmost children, then along the links.
    let mut node = tree.root();
    let mut depth = 0;
    while !tree.is_leaf(node) {
        node = tree.children_of(node).unwrap()[0];
        depth += 1;
    }
    assert!(depth >= 2);
    let mut keys = Vec::new();
    let mut leaf = Some(node);
    while let Some(l) = leaf {
        let part = tree.keys_of(l).unwrap();
        assert!(part.len() >= 2 && part.len() <= 3);
        keys.extend(part);
        leaf = tree.next_leaf(l);
    }
    assert_eq!(keys, (0..200).collect::<Vec<u32>>());
}

fn check_node(tree: &BPlus<u32>, node: usize, depth: usize, leaf_depths: &mut Vec<usize>) {
    let t = tree.t();
    let keys = tree.keys_of(node).unwrap();
    for pair in keys.windows(2) {
        assert!(pair[0] < pair[1]);
    }
    if tree.is_leaf(node) {
        assert!(keys.len() <= 2 * t - 1);
        if node != tree.root() {
            assert!(keys.len() >= t);
        }
        leaf_depths.push(depth);
    } else {
        let children = tree.children_of(node).unwrap();
        assert_eq!(children.len(), keys.len() + 1);
        assert!(keys.len() <= 2 * t - 2);
        assert!(keys.len() >= if node == tree.root() { 1 } else { t - 1 });
        for (i, child) in children.iter().enumerate() {
            let below = tree.keys_of(*child).unwrap();
            if i > 0 {
                assert!(below.iter().all(|k| *k >= keys[i - 1]));
            }
            if i < keys.len() {
                assert!(below.iter().all(|k| *k < keys[i]));
            }
            check_node(tree, *child, depth + 1, leaf_depths);
        }
    }
}

#[test]
fn test_invariants_hold_after_inserts() {
    for t in [2usize, 3, 5] {
        let mut tree: BPlus<u32> = BPlus::new(t, "data".to_string());
        let mut state: u32 = 12345;
        for i in 0..2000u32 {
            state = state.wrapping_mul(1664525).wrapping_add(1013904223);
            tree.insert(state % 700, handle(i as u64));
            if i % 250 == 0 {
                let mut depths = Vec::new();
                check_node(&tree, tree.root(), 0, &mut depths);
                assert!(depths.iter().all(|d| *d == depths[0]));
            }
        }
        let mut depths = Vec::new();
        check_node(&tree, tree.root(), 0, &mut depths);
        assert!(depths.iter().all(|d| *d == depths[0]));
        assert_eq!(tree.scan().len(), tree.size());
    }
}

#[test]
fn test_segment_rotation() {
    let mut tree: MemoryStore<u64> = MemoryStore::new(2, "rotation".to_string());
    tree.set_max_file_size(128);
    tree.insert(1, vec![0; 200]).unwrap();
    assert_eq!(tree.tree().file_number(), 0);
    assert_eq!(tree.tree().offset(), 200);
    tree.insert(2, vec![0; 10]).unwrap();

    assert_eq!(tree.tree().file_number(), 1);
    assert_eq!(tree.tree().offset(), 10);
    assert_eq!(tree.get(&1).unwrap(), vec![0u8; 200]);
    assert_eq!(tree.get(&2).unwrap(), vec![0u8; 10]);
    assert_eq!(tree.tree().get(&1).unwrap(), ChunkHandler::new("rotation/0".to_string(), 0, 200));
    assert_eq!(tree.tree().get(&2).unwrap(), ChunkHandler::new("rotation/1".to_string(), 0, 10));
    assert_eq!(tree.segment(0).unwrap().len(), 200);
    assert_eq!(tree.segment(1).unwrap().len(), 10);
    assert_eq!(tree.segment(2), None);
}

#[test]
fn test_get_chunk_handler_places_chunks_end_to_end() {
    let mut tree: BPlus<u64> = BPlus::new(2, "d".to_string());
    tree.set_max_file_size(10);
    let a = tree.get_chunk_handler(4).unwrap();
    assert_eq!(a, WritePlan { new_segment: false, handle: ChunkHandler::new("d/0".to_string(), 0, 4) });
    let b = tree.get_chunk_handler(5).unwrap();
    assert_eq!(b, WritePlan { new_segment: false, handle: ChunkHandler::new("d/0".to_string(), 4, 5) });
    assert_eq!(tree.offset(), 9);
    // Below the limit: the chunk still goes to this segment and carries
    // it past the limit.
    let c = tree.get_chunk_handler(7).unwrap();
    assert_eq!(c, WritePlan { new_segment: false, handle: ChunkHandler::new("d/0".to_string(), 9, 7) });
    assert_eq!(tree.offset(), 16);
    // At or past the limit: the next chunk begins a new segment.
    let d = tree.get_chunk_handler(0).unwrap();
    assert_eq!(d, WritePlan { new_segment: true, handle: ChunkHandler::new("d/1".to_string(), 0, 0) });
    assert_eq!((tree.file_number(), tree.offset()), (1, 0));
    tree.set_max_file_size(0);
    let e = tree.get_chunk_handler(3).unwrap();
    assert_eq!(e, WritePlan { new_segment: true, handle: ChunkHandler::new("d/2".to_string(), 0, 3) });
    assert_eq!((tree.file_number(), tree.offset()), (2, 3));
}

#[test]
fn test_get_chunk_handler_fails_where_the_end_cannot_be_represented() {
    let mut tree: BPlus<u64> = BPlus::new(2, "d".to_string());
    tree.set_max_file_size(u64::MAX);
    tree.get_chunk_handler(usize::MAX).unwrap();
    assert_eq!(tree.offset(), usize::MAX as u64);
    if usize::MAX as u64 == u64::MAX {
        // The write position is at the limit: the next chunk rotates.
        assert_eq!(tree.get_chunk_handler(1).unwrap().new_segment, true);
    } else {
        tree.get_chunk_handler(usize::MAX).unwrap();
    }
    let mut tree: BPlus<u64> = BPlus::new(2, "d".to_string());
    tree.set_max_file_size(u64::MAX);
    tree.get_chunk_handler(usize::MAX - 1).unwrap();
    let before = (tree.file_number(), tree.offset());
    if usize::MAX as u64 == u64::MAX {
        assert_eq!(tree.get_chunk_handler(2), Err(StoreError::Io));
        assert_eq!((tree.file_number(), tree.offset()), before);
        assert_eq!(tree.get_chunk_handler(1).unwrap().handle.offset, u64::MAX - 1);
    }
}

#[test]
fn test_optimistic_insert() {
    let mut tree: BPlus<u64> = BPlus::new(2, "data".to_string());
    // The root is a leaf: the fast path is not taken.
    assert_eq!(tree.optimistic_insert(1, handle(1)), Err(()));
    assert_eq!(tree.size(), 0);
    for k in [10u64, 20, 30, 40] {
        tree.insert(k, handle(k));
    }
    // Leaves {10, 20} and {30, 40}: both have room for one more.
    let nodes = tree.node_count();
    assert_eq!(tree.optimistic_insert(15, handle(15)), Ok(()));
    assert_eq!(tree.get(&15), Ok(handle(15)));
    assert_eq!(tree.node_count(), nodes);
    // The left leaf now holds 2t - 1 = 3 entries: no fast path, not even
    // to overwrite.
    assert_eq!(tree.optimistic_insert(12, handle(12)), Err(()));
    assert_eq!(tree.get(&12), Err(StoreError::NotFound));
    assert_eq!(tree.optimistic_insert(15, handle(99)), Err(()));
    assert_eq!(tree.get(&15), Ok(handle(15)));
    // The right leaf takes an overwrite on the fast path.
    assert_eq!(tree.optimistic_insert(40, handle(41)), Ok(()));
    assert_eq!(tree.get(&40), Ok(handle(41)));
    assert_eq!(tree.size(), 5);
}

#[test]
fn test_descend_counts_the_latches_still_held() {
    let mut tree: BPlus<u64> = BPlus::new(2, "data".to_string());
    let d = tree.descend(&5);
    assert_eq!(d, Descent { path: vec![], leaf: tree.root(), held: 0 });
    for k in 1..=4u64 {
        tree.insert(k, handle(k));
    }
    // Root with the one key 3: safe, since 1 != 2t - 2.
    let root = tree.root();
    let children = tree.children_of(root).unwrap();
    assert_eq!(tree.descend(&1), Descent { path: vec![(root, 0)], leaf: children[0], held: 1 });
    // Equal keys route right.
    assert_eq!(tree.descend(&3), Descent { path: vec![(root, 1)], leaf: children[1], held: 1 });
    assert_eq!(tree.descend(&9), Descent { path: vec![(root, 1)], leaf: children[1], held: 1 });
    for k in 5..=6u64 {
        tree.insert(k, handle(k));
    }
    // Root with the keys 3 and 5: one more would fill it, its latch
    // stays held.
    let root = tree.root();
    assert_eq!(tree.keys_of(root), Some(vec![3, 5]));
    assert_eq!(tree.descend(&4).held, 1);
    for k in 7..=8u64 {
        tree.insert(k, handle(k));
    }
    // Two levels of internal nodes, each with one key: every node is
    // safe, only the latch of the lowest is held.
    let root = tree.root();
    let d = tree.descend(&8);
    assert_eq!(d.path.len(), 2);
    assert_eq!(d.path[0], (root, 1));
    assert_eq!(d.held, 1);
    for k in 9..=10u64 {
        tree.insert(k, handle(k));
    }
    // The right internal node now holds the keys 7 and 9: unsafe, so the
    // latch of the safe root above it is held as well.
    let d = tree.descend(&10);
    assert_eq!(tree.keys_of(d.path[1].0), Some(vec![7, 9]));
    assert_eq!(d.held, 2);
    assert_eq!(tree.descend(&1).held, 1);
}

#[test]
fn test_insert_multi_inserts_one_after_the_other() {
    let pairs: Vec<(u64, ChunkHandler)> =
        vec![(5, handle(0)), (1, handle(1)), (5, handle(2)), (9, handle(3)), (1, handle(4)), (7, handle(5))];
    let mut tree: BPlus<u64> = BPlus::new(2, "data".to_string());
    tree.insert(9, handle(100));
    tree.insert(3, handle(101));
    tree.insert_multi(&pairs);
    // The last insertion of a key is the one that is found.
    assert_eq!(tree.get(&5), Ok(handle(2)));
    assert_eq!(tree.get(&1), Ok(handle(4)));
    assert_eq!(tree.get(&9), Ok(handle(3)));
    assert_eq!(tree.get(&7), Ok(handle(5)));
    // A key that was not inserted again keeps its value.
    assert_eq!(tree.get(&3), Ok(handle(101)));
    // A key that was never inserted is missing.
    assert_eq!(tree.get(&4), Err(StoreError::NotFound));
    assert_eq!(tree.size(), 5);

    let mut one_by_one: BPlus<u64> = BPlus::new(2, "data".to_string());
    one_by_one.insert(9, handle(100));
    one_by_one.insert(3, handle(101));
    for (key, value) in &pairs {
        one_by_one.insert(*key, value.clone());
    }
    assert_eq!(tree.scan(), one_by_one.scan());
    tree.insert_multi(&Vec::new());
    assert_eq!(tree.scan(), one_by_one.scan());
}

#[test]
fn test_store_keeps_chunks_end_to_end_in_segments() {
    let mut store: MemoryStore<u32> = MemoryStore::new(2, "mem".to_string());
    store.set_max_file_size(8);
    assert_eq!(store.segment(0), Some(&Vec::new()));
    assert_eq!(store.segment(1), None);
    store.insert(3, vec![1, 2, 3]).unwrap();
    store.insert(1, vec![4, 5, 6, 7]).unwrap();
    store.insert(2, vec![]).unwrap();
    // Seven bytes are below the limit: the next chunk still goes here.
    store.insert(3, vec![8, 9]).unwrap();
    assert_eq!(store.segment(0), Some(&vec![1, 2, 3, 4, 5, 6, 7, 8, 9]));
    // Nine bytes have reached the limit: the next chunk begins segment 1.
    store.insert(4, vec![10]).unwrap();
    assert_eq!(store.segment(0), Some(&vec![1, 2, 3, 4, 5, 6, 7, 8, 9]));
    assert_eq!(store.segment(1), Some(&vec![10]));
    assert_eq!(store.get(&1), Ok(vec![4, 5, 6, 7]));
    assert_eq!(store.get(&2), Ok(vec![]));
    assert_eq!(store.get(&3), Ok(vec![8, 9]));
    assert_eq!(store.get(&4), Ok(vec![10]));
    assert_eq!(store.get(&5), Err(StoreError::NotFound));
    assert!(store.contains(&4));
    assert!(!store.contains(&5));
    assert_eq!(store.tree().get(&3), Ok(ChunkHandler::new("mem/0".to_string(), 7, 2)));
    assert_eq!(store.tree().get(&4), Ok(ChunkHandler::new("mem/1".to_string(), 0, 1)));
    assert_eq!(
        store.scan(),
        vec![(1, vec![4, 5, 6, 7]), (2, vec![]), (3, vec![8, 9]), (4, vec![10])]
    );
}

#[test]
fn test_store_insert_fails_where_the_chunk_cannot_be_placed() {
    let mut store: MemoryStore<u32> = MemoryStore::new(2, "mem".to_string());
    store.set_max_file_size(u64::MAX);
    store.insert(1, vec![7; 10]).unwrap();
    // No chunk in memory is long enough to pass the end of what offsets
    // can say; the index alone is asked for such a place.
    let mut index: BPlus<u32> = BPlus::new(2, "mem".to_string());
    index.set_max_file_size(u64::MAX);
    index.get_chunk_handler(10).unwrap();
    if usize::MAX as u64 == u64::MAX {
        assert_eq!(index.get_chunk_handler(usize::MAX - 5), Err(StoreError::Io));
        assert_eq!(index.offset(), 10);
    }
    assert_eq!(store.get(&1), Ok(vec![7; 10]));
}

#[test]
fn test_string_keys() {
    let mut tree = MemoryStore::new(2, "string_keys".to_string());

    tree.insert("apple".to_string(), b"fruit".to_vec()).unwrap();
    tree.insert("banana".to_string(), b"yellow".to_vec()).unwrap();

    assert_eq!(tree.get(&"apple".to_string()).unwrap(), b"fruit");
    assert_eq!(tree.get(&"banana".to_string()).unwrap(), b"yellow");
}

#[test]
fn test_string_keys_sort_by_their_bytes() {
    let mut tree: MemoryStore<String> = MemoryStore::new(2, "strings".to_string());
    let words = ["pear", "apple", "fig", "apples", "", "zebra", "Apple", "banana", "figs", "é"];
    for (i, word) in words.iter().enumerate() {
        tree.insert(word.to_string(), vec![i as u8]).unwrap();
    }
    let mut expected: Vec<(String, Vec<u8>)> =
        words.iter().enumerate().map(|(i, w)| (w.to_string(), vec![i as u8])).collect();
    expected.sort();
    assert_eq!(tree.scan(), expected);
    assert_eq!(tree.get(&"apples".to_string()), Ok(vec![3]));
    assert_eq!(tree.get(&"app".to_string()), Err(StoreError::NotFound));
}

#[test]
fn test_byte_vector_keys() {
    let mut tree: MemoryStore<Vec<u8>> = MemoryStore::new(3, "hashes".to_string());
    let mut keys: Vec<Vec<u8>> = Vec::new();
    let mut state: u32 = 7;
    for _ in 0..500 {
        state = state.wrapping_mul(1664525).wrapping_add(1013904223);
        let len = (state >> 28) as usize;
        let key: Vec<u8> = (0..len).map(|j| (state >> (j % 24)) as u8).collect();
        keys.push(key);
    }
    for key in &keys {
        tree.insert(key.clone(), key.iter().rev().cloned().collect()).unwrap();
    }
    for key in &keys {
        assert_eq!(tree.get(key).unwrap(), key.iter().rev().cloned().collect::<Vec<u8>>());
    }
    let mut sorted = keys.clone();
    sorted.sort();
    sorted.dedup();
    let scanned: Vec<Vec<u8>> = tree.scan().into_iter().map(|e| e.0).collect();
    assert_eq!(scanned, sorted);
}
