use hermes::storage::{MmapStorage, StorageError, STORAGE_HEADER_SIZE, STORAGE_MAGIC};
use memmap2::MmapMut;

fn mapping(capacity: usize) -> MmapMut {
    MmapMut::map_anon(STORAGE_HEADER_SIZE + capacity).unwrap()
}

fn mapping_with_indices(capacity: usize, write_pos: u64, read_pos: u64) -> MmapMut {
    let mut m = mapping(capacity);
    m[0..8].copy_from_slice(&STORAGE_MAGIC.to_le_bytes());
    m[16..24].copy_from_slice(&write_pos.to_le_bytes());
    m[24..32].copy_from_slice(&read_pos.to_le_bytes());
    m
}

#[test]
fn storage_write_then_read() {
    let mut storage = MmapStorage::open(mapping(4096), 4096).unwrap();
    let data = b"Hello, Hermes!";
    let offset = storage.write(data).unwrap();
    assert_eq!(offset, 0);
    assert_eq!(storage.read(offset, data.len()).unwrap(), data);
    assert_eq!(storage.write(b"more").unwrap(), data.len());
    assert_eq!(storage.read(14, 4).unwrap(), b"more");
}

#[test]
fn storage_keeps_data_and_indices_when_reopened() {
    let mut storage = MmapStorage::open(mapping(4096), 4096).unwrap();
    storage.write(b"Persistent data").unwrap();
    let map = storage.into_mapping();
    assert_eq!(&map[0..8], &STORAGE_MAGIC.to_le_bytes());
    assert_eq!(&map[16..24], &15u64.to_le_bytes());

    let mut storage = MmapStorage::open(map, 4096).unwrap();
    assert_eq!(storage.read(0, 15).unwrap(), b"Persistent data");
    assert_eq!(storage.write(b"!"), Some(15));
}

#[test]
fn storage_initialises_a_fresh_header() {
    let storage = MmapStorage::open(mapping(64), 64).unwrap();
    let map = storage.into_mapping();
    assert_eq!(&map[0..8], &STORAGE_MAGIC.to_le_bytes());
    assert_eq!(&map[8..12], &1u32.to_le_bytes());
    assert_eq!(&map[12..16], &64u32.to_le_bytes());
    assert_eq!(&map[16..32], &[0u8; 16]);
}

#[test]
fn storage_refuses_writes_beyond_free_space() {
    let mut storage = MmapStorage::open(mapping(16), 16).unwrap();
    assert_eq!(storage.write(&[1u8; 10]), Some(0));
    assert_eq!(storage.write(&[2u8; 7]), None);
    assert_eq!(storage.write(&[3u8; 6]), Some(10));
    assert_eq!(storage.write(&[4u8; 1]), None);
    assert_eq!(storage.write(&[]), Some(0));
}

#[test]
fn storage_write_wraps_around_the_region() {
    let mut storage = MmapStorage::open(mapping_with_indices(16, 12, 12), 16).unwrap();
    assert_eq!(storage.write(b"abcdefgh"), Some(12));
    assert_eq!(storage.read(12, 4).unwrap(), b"abcd");
    assert_eq!(storage.read(0, 4).unwrap(), b"efgh");
    let map = storage.into_mapping();
    assert_eq!(&map[16..24], &20u64.to_le_bytes());
    assert_eq!(&map[24..32], &12u64.to_le_bytes());
}

#[test]
fn storage_read_does_not_wrap() {
    let storage = MmapStorage::open(mapping(16), 16).unwrap();
    assert!(storage.read(8, 8).is_some());
    assert!(storage.read(8, 9).is_none());
    assert!(storage.read(17, 0).is_none());
    assert_eq!(storage.capacity_bytes(), 16);
}

#[test]
fn storage_open_errors() {
    assert_eq!(MmapStorage::open(mapping(100), 100).err(), Some(StorageError::CapacityNotPowerOfTwo));
    assert_eq!(MmapStorage::open(mapping(0), 0).err(), Some(StorageError::CapacityNotPowerOfTwo));
    assert_eq!(MmapStorage::open(mapping(64), 128).err(), Some(StorageError::MappingSize));
    assert_eq!(MmapStorage::open(mapping_with_indices(16, 40, 20), 16).err(), Some(StorageError::CorruptHeader));
    assert!(MmapStorage::open(mapping_with_indices(16, 36, 20), 16).is_ok());
}
