use std::io;
use std::io::{Seek, Write};

use bplus_tree::memory::MemoryStore;
use chunkfs::chunkers::{FSChunker, LeapChunker};
use chunkfs::hashers::SimpleHasher;
use chunkfs::{create_cdc_filesystem, DataContainer, Database, WriteMeasurements};

const MB: usize = 1024 * 1024;

/// The store in memory as the database of the file system.
struct BPlus(MemoryStore<Vec<u8>>);

impl BPlus {
    fn new(t: usize, path: &str) -> io::Result<Self> {
        Ok(BPlus(MemoryStore::new(t, path.to_string())))
    }
}

impl Database<Vec<u8>, DataContainer<()>> for BPlus {
    fn insert(&mut self, key: Vec<u8>, value: DataContainer<()>) -> io::Result<()> {
        self.0.insert_container(key, &value).map_err(|_| io::ErrorKind::Unsupported.into())
    }

    fn get(&self, key: &Vec<u8>) -> io::Result<DataContainer<()>> {
        self.0.get_container(key).map_err(|_| io::ErrorKind::NotFound.into())
    }

    fn contains(&self, key: &Vec<u8>) -> bool {
        self.0.contains(key)
    }
}

#[test]
fn chunkfs_tests_write_read_complete_test() {
    let mut fs = create_cdc_filesystem(BPlus::new(100, "storage1").unwrap(), SimpleHasher);

    let mut handle = fs.create_file("file", LeapChunker::default()).unwrap();
    fs.write_to_file(&mut handle, &[1; MB]).unwrap();
    fs.write_to_file(&mut handle, &[1; MB]).unwrap();

    let measurements = fs.close_file(handle).unwrap();
    println!("{:?}", measurements);

    let handle = fs.open_file("file", LeapChunker::default()).unwrap();
    let read = fs.read_file_complete(&handle).unwrap();
    assert_eq!(read.len(), MB * 2);
    assert_eq!(read, [1; MB * 2]);
}

#[test]
fn chunkfs_tests_write_read_blocks_test() {
    let mut fs = create_cdc_filesystem(BPlus::new(100, "storage2").unwrap(), SimpleHasher);

    let mut handle = fs.create_file("file", FSChunker::new(4096)).unwrap();

    let ones = vec![1; MB];
    let twos = vec![2; MB];
    let threes = vec![3; MB];
    fs.write_to_file(&mut handle, &ones).unwrap();
    fs.write_to_file(&mut handle, &twos).unwrap();
    fs.write_to_file(&mut handle, &threes).unwrap();
    let measurements = fs.close_file(handle).unwrap();
    println!("{:?}", measurements);

    let mut handle = fs.open_file("file", LeapChunker::default()).unwrap();
    assert_eq!(fs.read_from_file(&mut handle).unwrap(), ones);
    assert_eq!(fs.read_from_file(&mut handle).unwrap(), twos);
    assert_eq!(fs.read_from_file(&mut handle).unwrap(), threes);
}

#[test]
fn chunkfs_tests_read_file_with_size_less_than_1mb() {
    let mut fs = create_cdc_filesystem(BPlus::new(100, "storage3").unwrap(), SimpleHasher);

    let mut handle = fs.create_file("file", FSChunker::new(4096)).unwrap();

    let ones = vec![1; 10];
    fs.write_to_file(&mut handle, &ones).unwrap();
    let measurements = fs.close_file(handle).unwrap();
    println!("{:?}", measurements);

    let mut handle = fs.open_file("file", LeapChunker::default()).unwrap();
    assert_eq!(fs.read_from_file(&mut handle).unwrap(), ones);
}

#[test]
fn chunkfs_tests_write_read_big_file_at_once() {
    let mut fs = create_cdc_filesystem(BPlus::new(100, "storage4").unwrap(), SimpleHasher);

    let mut handle = fs.create_file("file", FSChunker::new(4096)).unwrap();

    let data = vec![1; 3 * MB + 50];
    fs.write_to_file(&mut handle, &data).unwrap();
    fs.close_file(handle).unwrap();

    let handle = fs.open_file("file", LeapChunker::default()).unwrap();
    assert_eq!(fs.read_file_complete(&handle).unwrap().len(), data.len());
}

#[test]
fn two_file_handles_to_one_file() {
    let mut fs = create_cdc_filesystem(BPlus::new(100, "storage6").unwrap(), SimpleHasher);
    let mut handle1 = fs.create_file("file", LeapChunker::default()).unwrap();
    let mut handle2 = fs.open_file("file", LeapChunker::default()).unwrap();
    fs.write_to_file(&mut handle1, &[1; MB]).unwrap();
    fs.close_file(handle1).unwrap();
    assert_eq!(fs.read_from_file(&mut handle2).unwrap().len(), MB)
}

#[test]
fn readonly_file_handle_cannot_write_can_read() {
    let mut fs = create_cdc_filesystem(BPlus::new(100, "storage8").unwrap(), SimpleHasher);
    let mut fh = fs.create_file("file", FSChunker::default()).unwrap();
    fs.write_to_file(&mut fh, &[1; MB]).unwrap();
    fs.close_file(fh).unwrap();

    // cannot write
    let mut ro_fh = fs.open_file_readonly("file").unwrap();
    let result = fs.write_to_file(&mut ro_fh, &[1; MB]);
    assert!(result.is_err());
    assert!(result.is_err_and(|e| e.kind() == io::ErrorKind::PermissionDenied));

    // can read complete
    let read = fs.read_file_complete(&ro_fh).unwrap();
    assert_eq!(read.len(), MB);
    assert_eq!(read, [1; MB]);

    let read = fs.read_from_file(&mut ro_fh).unwrap();
    assert_eq!(read.len(), MB);
    assert_eq!(read, [1; MB]);

    // can close
    let measurements = fs.close_file(ro_fh).unwrap();
    assert_eq!(measurements, WriteMeasurements::default())
}

#[test]
fn write_from_stream_slice() {
    let mut fs = create_cdc_filesystem(BPlus::new(100, "storage9").unwrap(), SimpleHasher);
    let mut fh = fs.create_file("file", FSChunker::default()).unwrap();
    fs.write_from_stream(&mut fh, &[1; MB * 2][..]).unwrap();
    fs.close_file(fh).unwrap();

    let ro_fh = fs.open_file_readonly("file").unwrap();
    let read = fs.read_file_complete(&ro_fh).unwrap();
    assert_eq!(read.len(), MB * 2);
    assert_eq!(fs.read_file_complete(&ro_fh).unwrap(), vec![1; MB * 2]);
}

#[test]
fn write_from_stream_buf_reader() {
    let mut file = io::Cursor::new(Vec::new());
    file.write_all(&[1; MB]).unwrap();
    file.seek(io::SeekFrom::Start(0)).unwrap();

    let mut fs = create_cdc_filesystem(BPlus::new(100, "storage10").unwrap(), SimpleHasher);
    let mut fh = fs.create_file("file", FSChunker::default()).unwrap();

    fs.write_from_stream(&mut fh, file).unwrap();
    fs.close_file(fh).unwrap();

    let ro_fh = fs.open_file_readonly("file").unwrap();
    let read = fs.read_file_complete(&ro_fh).unwrap();
    assert_eq!(read.len(), MB);
    assert_eq!(read, [1; MB]);
}
