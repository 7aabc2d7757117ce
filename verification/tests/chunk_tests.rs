use bplus_tree::chunk::{ChunkPointer as WholeFile, FileHandler};
use bplus_tree::chunk_pointer::{ChunkHandler, ChunkPointer};
use bplus_tree::segment::{segment_name, segment_path};

#[test]
fn test_file_handler_default_and_new() {
    assert_eq!(FileHandler::default().path, "default");
    let handler = <FileHandler as WholeFile>::new("file1.txt".to_string());
    assert_eq!(handler.path, "file1.txt");
    assert_eq!(handler.clone(), handler);
}

#[test]
fn test_file_handler_write_then_read() {
    let handler = <FileHandler as WholeFile>::new("file1.txt".to_string());
    let file = handler.write(&b"test1".to_vec());
    assert_eq!(file, b"test1");
    let mut buf = Vec::new();
    let count = handler.read(&file, &mut buf);
    assert_eq!(count, 5);
    assert_eq!(std::str::from_utf8(&buf).unwrap(), "test1");
    // Reading appends to what the buffer holds.
    let count = handler.read(&b"!".to_vec(), &mut buf);
    assert_eq!(count, 1);
    assert_eq!(buf, b"test1!");
    // Writing replaces the content.
    assert_eq!(handler.write(&Vec::new()), Vec::<u8>::new());
}

#[test]
fn test_chunk_handler_new() {
    let handle = ChunkHandler::new("dir/3".to_string(), 7, 2);
    assert_eq!(handle.path, "dir/3");
    assert_eq!(handle.offset, 7);
    assert_eq!(handle.size, 2);
    assert_eq!(handle.clone(), handle);
    assert_eq!(handle.duplicate(), handle);
    let same = <ChunkHandler as ChunkPointer>::new("dir/3".to_string(), 7, 2);
    assert_eq!(same, handle);
    assert_eq!(ChunkHandler::default(), ChunkHandler::new(String::new(), 0, 0));
}

#[test]
fn test_chunk_handler_read_cuts_the_chunk_out() {
    let segment: Vec<u8> = (0..10).collect();
    let handle = ChunkHandler::new("s".to_string(), 3, 4);
    assert_eq!(handle.read(&segment), Some(vec![3, 4, 5, 6]));
    assert_eq!(ChunkPointer::read(&handle, &segment), Some(vec![3, 4, 5, 6]));
    // Up to the very end of the file.
    assert_eq!(ChunkHandler::new("s".to_string(), 6, 4).read(&segment), Some(vec![6, 7, 8, 9]));
    assert_eq!(ChunkHandler::new("s".to_string(), 10, 0).read(&segment), Some(vec![]));
    assert_eq!(ChunkHandler::new("s".to_string(), 0, 0).read(&Vec::new()), Some(vec![]));
}

#[test]
fn test_chunk_handler_read_fails_on_a_short_file() {
    let segment: Vec<u8> = (0..10).collect();
    assert_eq!(ChunkHandler::new("s".to_string(), 7, 4).read(&segment), None);
    assert_eq!(ChunkHandler::new("s".to_string(), 11, 0).read(&segment), None);
    assert_eq!(ChunkHandler::new("s".to_string(), u64::MAX, 1).read(&segment), None);
    assert_eq!(ChunkHandler::new("s".to_string(), 1, usize::MAX).read(&segment), None);
    assert_eq!(ChunkHandler::new("s".to_string(), 0, 1).read(&Vec::new()), None);
}

#[test]
fn test_segment_name_is_decimal() {
    assert_eq!(segment_name(0), "0");
    assert_eq!(segment_name(7), "7");
    assert_eq!(segment_name(10), "10");
    assert_eq!(segment_name(1234567890), "1234567890");
    assert_eq!(segment_name(usize::MAX), usize::MAX.to_string());
}

#[test]
fn test_segment_path() {
    assert_eq!(segment_path(&"data".to_string(), 0), "data/0");
    assert_eq!(segment_path(&"/tmp/store".to_string(), 12), "/tmp/store/12");
    assert_eq!(segment_path(&"data/".to_string(), 3), "data/3");
    assert_eq!(segment_path(&"/".to_string(), 3), "/3");
    assert_eq!(segment_path(&String::new(), 42), "42");
    assert_eq!(segment_path(&"données".to_string(), 5), "données/5");
}
