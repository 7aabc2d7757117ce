use std::io;

use bplus_tree::memory::MemoryStore;
use chunkfs::chunkers::{FSChunker, LeapChunker};
use chunkfs::hashers::SimpleHasher;
use chunkfs::{create_cdc_filesystem, DataContainer, Database};

const MB: usize = 1024 * 1024;

/// The store in memory as the database of the file system.
struct BPlus(MemoryStore<Vec<u8>>);

impl BPlus {
    fn new(t: usize, path: &str) -> Self {
        BPlus(MemoryStore::new(t, path.to_string()))
    }
}

impl Database<Vec<u8>, DataContainer<()>> for BPlus {
    fn insert(&mut self, key: Vec<u8>, value: DataContainer<()>) -> io::Result<()> {
        self.0.insert_container(key, &value).map_err(|_| io::ErrorKind::Unsupported.into())
    }

    fn get(&self, key: &Vec<u8>) -> io::Result<DataContainer<()>> {
        self.0.get_container(key).map_err(|_| io::ErrorKind::NotFound.into())
    }

    fn contains(&self, key: &Vec<u8>) -> bool {
        self.0.contains(key)
    }
}

#[test]
fn chunkfs_test_write_read_complete_test() {
    let mut fs = create_cdc_filesystem(BPlus::new(100, "storage1"), SimpleHasher);

    let mut handle = fs.create_file("file", LeapChunker::default()).unwrap();
    fs.write_to_file(&mut handle, &[1; MB]).unwrap();
    fs.write_to_file(&mut handle, &[1; MB]).unwrap();

    let measurements = fs.close_file(handle).unwrap();
    println!("{:?}", measurements);

    let handle = fs.open_file("file", LeapChunker::default()).unwrap();
    let read = fs.read_file_complete(&handle).unwrap();
    assert_eq!(read.len(), MB * 2);
    assert_eq!(read, [1; MB * 2]);
}

#[test]
fn chunkfs_test_write_read_blocks_test() {
    let mut fs = create_cdc_filesystem(BPlus::new(100, "storage2"), SimpleHasher);
    let mut handle = fs.create_file("file", FSChunker::new(4096)).unwrap();

    let ones = vec![1; MB];
    let twos = vec![2; MB];
    let threes = vec![3; MB];
    fs.write_to_file(&mut handle, &ones).unwrap();
    fs.write_to_file(&mut handle, &twos).unwrap();
    fs.write_to_file(&mut handle, &threes).unwrap();
    let measurements = fs.close_file(handle).unwrap();
    println!("{:?}", measurements);

    let mut handle = fs.open_file("file", LeapChunker::default()).unwrap();
    assert_eq!(fs.read_from_file(&mut handle).unwrap(), ones);
    assert_eq!(fs.read_from_file(&mut handle).unwrap(), twos);
    assert_eq!(fs.read_from_file(&mut handle).unwrap(), threes);
}

#[test]
fn chunkfs_test_read_file_with_size_less_than_1mb() {
    let mut fs = create_cdc_filesystem(BPlus::new(100, "storage3"), SimpleHasher);

    let mut handle = fs.create_file("file", FSChunker::new(4096)).unwrap();

    let ones = vec![1; 10];
    fs.write_to_file(&mut handle, &ones).unwrap();
    let measurements = fs.close_file(handle).unwrap();
    println!("{:?}", measurements);

    let mut handle = fs.open_file("file", LeapChunker::default()).unwrap();
    assert_eq!(fs.read_from_file(&mut handle).unwrap(), ones);
}

#[test]
fn chunkfs_test_write_read_big_file_at_once() {
    let mut fs = create_cdc_filesystem(BPlus::new(100, "storage4"), SimpleHasher);

    let mut handle = fs.create_file("file", FSChunker::new(4096)).unwrap();

    let data = vec![1; 64 * MB + 50];
    fs.write_to_file(&mut handle, &data).unwrap();
    fs.close_file(handle).unwrap();

    let handle = fs.open_file("file", LeapChunker::default()).unwrap();
    assert_eq!(fs.read_file_complete(&handle).unwrap().len(), data.len());
}
