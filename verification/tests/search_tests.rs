use bplus_tree::bplus_tree::{InternalNode, Leaf, Node};
use bplus_tree::chunk_pointer::ChunkHandler;
use bplus_tree::key::{compare_bytes, BPlusKey, KeyOrder};
use bplus_tree::search::{child_slot, search_entries, search_keys};

fn handle(offset: u64) -> ChunkHandler {
    ChunkHandler::new("data/0".to_string(), offset, 1)
}

#[test]
fn test_search_keys() {
    let keys: Vec<u32> = vec![10, 20, 30, 40];
    assert_eq!(search_keys(&keys, &10), Ok(0));
    assert_eq!(search_keys(&keys, &30), Ok(2));
    assert_eq!(search_keys(&keys, &40), Ok(3));
    assert_eq!(search_keys(&keys, &5), Err(0));
    assert_eq!(search_keys(&keys, &25), Err(2));
    assert_eq!(search_keys(&keys, &45), Err(4));
    assert_eq!(search_keys(&Vec::<u32>::new(), &1), Err(0));
}

#[test]
fn test_search_entries() {
    let entries: Vec<(i32, ChunkHandler)> = vec![(-5, handle(0)), (0, handle(1)), (7, handle(2))];
    assert_eq!(search_entries(&entries, &-5), Ok(0));
    assert_eq!(search_entries(&entries, &7), Ok(2));
    assert_eq!(search_entries(&entries, &-6), Err(0));
    assert_eq!(search_entries(&entries, &1), Err(2));
    assert_eq!(search_entries(&entries, &8), Err(3));
    assert_eq!(search_entries(&Vec::<(i32, ChunkHandler)>::new(), &8), Err(0));
}

#[test]
fn test_child_slot_routes_equal_keys_right() {
    let keys: Vec<u64> = vec![10, 20, 30];
    assert_eq!(child_slot(&keys, &5), 0);
    assert_eq!(child_slot(&keys, &10), 1);
    assert_eq!(child_slot(&keys, &15), 1);
    assert_eq!(child_slot(&keys, &20), 2);
    assert_eq!(child_slot(&keys, &30), 3);
    assert_eq!(child_slot(&keys, &99), 3);
    assert_eq!(child_slot(&Vec::<u64>::new(), &99), 0);
}

#[test]
fn test_compare() {
    assert_eq!(3u8.compare(&4), KeyOrder::Less);
    assert_eq!(4u16.compare(&4), KeyOrder::Equal);
    assert_eq!(5u32.compare(&4), KeyOrder::Greater);
    assert_eq!(u64::MAX.compare(&0), KeyOrder::Greater);
    assert_eq!(0usize.compare(&usize::MAX), KeyOrder::Less);
    assert_eq!((-1i32).compare(&1), KeyOrder::Less);
    assert_eq!(i64::MIN.compare(&i64::MAX), KeyOrder::Less);
    assert_eq!(u128::MAX.compare(&u128::MAX), KeyOrder::Equal);
    assert_eq!(7u64.duplicate(), 7);
}

#[test]
fn test_compare_byte_arrays_as_a_dictionary_does() {
    assert_eq!([1u8, 2, 3].compare(&[1, 2, 3]), KeyOrder::Equal);
    assert_eq!([1u8, 2, 3].compare(&[1, 2, 4]), KeyOrder::Less);
    assert_eq!([1u8, 3, 0].compare(&[1, 2, 9]), KeyOrder::Greater);
    assert_eq!([0u8, 255, 255].compare(&[1, 0, 0]), KeyOrder::Less);
    assert_eq!([9u8; 0].compare(&[]), KeyOrder::Equal);
    assert_eq!([200u8, 1].duplicate(), [200, 1]);
    for a in 0..4u8 {
        for b in 0..4u8 {
            for c in 0..4u8 {
                for d in 0..4u8 {
                    let expected = match [a, b].cmp(&[c, d]) {
                        std::cmp::Ordering::Less => KeyOrder::Less,
                        std::cmp::Ordering::Equal => KeyOrder::Equal,
                        std::cmp::Ordering::Greater => KeyOrder::Greater,
                    };
                    assert_eq!([a, b].compare(&[c, d]), expected);
                }
            }
        }
    }
}

#[test]
fn test_split_leaf() {
    let entries: Vec<(u32, ChunkHandler)> = (1..=4).map(|k| (k, handle(k as u64))).collect();
    let mut node = Node::Leaf(Leaf { entries, next: Some(9) });
    let (right, median) = node.split(2, 17);
    assert_eq!(median, 3);
    match node {
        Node::Leaf(leaf) => {
            assert_eq!(leaf.entries, vec![(1, handle(1)), (2, handle(2))]);
            assert_eq!(leaf.next, Some(17));
        }
        Node::Internal(_) => panic!("a leaf stays a leaf"),
    }
    match right {
        Node::Leaf(leaf) => {
            // The separator is copied: the right leaf still begins with it.
            assert_eq!(leaf.entries, vec![(3, handle(3)), (4, handle(4))]);
            assert_eq!(leaf.next, Some(9));
        }
        Node::Internal(_) => panic!("a leaf splits into leaves"),
    }
}

#[test]
fn test_split_internal() {
    // t = 3: an internal node splits with 2t - 1 = 5 keys and 6 children.
    let mut node: Node<u32> =
        Node::Internal(InternalNode { keys: vec![10, 20, 30, 40, 50], children: vec![0, 1, 2, 3, 4, 5] });
    let (right, median) = node.split(3, 99);
    assert_eq!(median, 30);
    match node {
        Node::Internal(inner) => {
            assert_eq!(inner.keys, vec![10, 20]);
            assert_eq!(inner.children, vec![0, 1, 2]);
        }
        Node::Leaf(_) => panic!("an internal node stays internal"),
    }
    match right {
        Node::Internal(inner) => {
            // The separator moves up: neither half holds it.
            assert_eq!(inner.keys, vec![40, 50]);
            assert_eq!(inner.children, vec![3, 4, 5]);
        }
        Node::Leaf(_) => panic!("an internal node splits into internal nodes"),
    }
}

#[test]
fn test_compare_bytes_as_a_dictionary_does() {
    assert_eq!(compare_bytes(b"", b""), KeyOrder::Equal);
    assert_eq!(compare_bytes(b"", b"a"), KeyOrder::Less);
    assert_eq!(compare_bytes(b"a", b""), KeyOrder::Greater);
    assert_eq!(compare_bytes(b"abc", b"abd"), KeyOrder::Less);
    assert_eq!(compare_bytes(b"abc", b"ab"), KeyOrder::Greater);
    assert_eq!(compare_bytes(b"ab", b"abc"), KeyOrder::Less);
    assert_eq!(compare_bytes(b"b", b"abc"), KeyOrder::Greater);
    assert_eq!(compare_bytes(&[255], &[0, 0]), KeyOrder::Greater);
    assert_eq!(vec![1u8, 2].compare(&vec![1, 2, 0]), KeyOrder::Less);
    assert_eq!(vec![1u8, 2].duplicate(), vec![1, 2]);
    assert_eq!("apple".to_string().compare(&"apples".to_string()), KeyOrder::Less);
    assert_eq!("b".to_string().compare(&"apples".to_string()), KeyOrder::Greater);
    assert_eq!("same".to_string().compare(&"same".to_string()), KeyOrder::Equal);
    assert_eq!("x".to_string().duplicate(), "x");
}
