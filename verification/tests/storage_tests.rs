use energy_store::errors::StorageError;
use energy_store::id_cell::IdCell;
use energy_store::memory_manager::{MemoryManager, SEG_MAX_BYTES};
use energy_store::page_store::PageStore;
use energy_store::record_map::RecordMap;
use energy_store::record::MAX_RECORD_SIZE;
use energy_store::page_store::MAX_STORE_PAGES;

fn fresh_manager() -> MemoryManager {
    MemoryManager::init(PageStore::new()).unwrap()
}

#[test]
fn test_map_rejects_value_too_large() {
    let mut mm = fresh_manager();
    let mut map = RecordMap::init(&mm, 1).unwrap();
    map.insert(&mut mm, 1, vec![b'v'; 8]).unwrap();
    let before = map.len();
    let big = vec![b'v'; MAX_RECORD_SIZE + 1];
    assert_eq!(map.insert(&mut mm, 2, big), Err(StorageError::ValueTooLarge));
    assert_eq!(map.len(), before);
}

#[test]
fn test_map_insert_get_remove() {
    let mut mm = fresh_manager();
    let mut map = RecordMap::init(&mm, 1).unwrap();
    assert_eq!(map.insert(&mut mm, 5, vec![1, 2, 3]).unwrap(), None);
    assert_eq!(map.insert(&mut mm, 2, vec![9]).unwrap(), None);
    assert_eq!(map.get(5), Some(vec![1, 2, 3]));
    assert_eq!(map.get(2), Some(vec![9]));
    assert_eq!(map.get(7), None);
    // replacement returns the previous value
    assert_eq!(map.insert(&mut mm, 5, vec![4]).unwrap(), Some(vec![1, 2, 3]));
    assert_eq!(map.get(5), Some(vec![4]));
    assert_eq!(map.remove(&mut mm, 5), Some(vec![4]));
    assert_eq!(map.get(5), None);
    assert_eq!(map.remove(&mut mm, 5), None);
}

#[test]
fn test_map_storage_full() {
    let mut mm = fresh_manager();
    let mut map = RecordMap::init(&mm, 1).unwrap();
    let value = vec![b'f'; MAX_RECORD_SIZE];
    // each entry takes 16 + 1024 bytes beside the 8-byte count
    let capacity = (SEG_MAX_BYTES - 8) / (16 + MAX_RECORD_SIZE);
    for k in 0..capacity as u64 {
        assert_eq!(map.insert(&mut mm, k, value.clone()).unwrap(), None);
    }
    let before = map.len();
    assert_eq!(
        map.insert(&mut mm, capacity as u64, value.clone()),
        Err(StorageError::StorageFull)
    );
    assert_eq!(map.len(), before);
    // what was stored is still there
    assert_eq!(map.get(0), Some(value));
}

#[test]
fn test_segment_write_out_of_bounds() {
    let mut mm = fresh_manager();
    // no page claimed yet: every non-empty write is out of bounds
    assert_eq!(mm.seg_write(3, 0, &[1u8]), Err(StorageError::OutOfBounds));
    mm.seg_grow(3, 1).unwrap();
    assert_eq!(mm.seg_write(3, 0, &[1u8]), Ok(()));
    assert_eq!(mm.seg_read(3, 0, 1).unwrap(), vec![1u8]);
}

#[test]
fn test_segments_are_disjoint() {
    let mut mm = fresh_manager();
    mm.seg_grow(0, 1).unwrap();
    mm.seg_grow(1, 1).unwrap();
    mm.seg_write(0, 0, &[7u8, 8u8]).unwrap();
    mm.seg_write(1, 0, &[9u8]).unwrap();
    assert_eq!(mm.seg_read(0, 0, 2).unwrap(), vec![7u8, 8u8]);
    assert_eq!(mm.seg_read(1, 0, 1).unwrap(), vec![9u8]);
}

#[test]
fn test_id_cell_persists_across_rebind() {
    let mut mm = fresh_manager();
    let mut cell = IdCell::init(&mut mm, 0, 0).unwrap();
    assert_eq!(cell.get(), 0);
    assert_eq!(cell.set(&mut mm, 42).unwrap(), 0);
    assert_eq!(cell.get(), 42);
    // rebinding to the same segment recovers the persisted value, not the seed
    let revived = IdCell::init(&mut mm, 0, 0).unwrap();
    assert_eq!(revived.get(), 42);
}

#[test]
fn test_id_cell_rejects_foreign_segment() {
    let mut mm = fresh_manager();
    mm.seg_grow(4, 1).unwrap();
    mm.seg_write(4, 0, &[1u8, 2u8, 3u8, 4u8]).unwrap();
    assert_eq!(
        IdCell::init(&mut mm, 4, 0).err(),
        Some(StorageError::StorageCorrupt)
    );
}

#[test]
fn test_map_persists_across_rebind() {
    let mut mm = fresh_manager();
    let mut map = RecordMap::init(&mm, 1).unwrap();
    map.insert(&mut mm, 3, vec![1, 1]).unwrap();
    map.insert(&mut mm, 9, vec![2]).unwrap();
    map.remove(&mut mm, 3);
    let revived = RecordMap::init(&mm, 1).unwrap();
    assert_eq!(revived.len(), 1);
    assert_eq!(revived.get(9), Some(vec![2]));
    assert_eq!(revived.get(3), None);
}

#[test]
fn test_map_rejects_garbage_segment() {
    let mut mm = fresh_manager();
    mm.seg_grow(1, 1).unwrap();
    // an absurd entry count cannot be parsed back
    mm.seg_write(1, 0, &[0xff; 16]).unwrap();
    assert_eq!(
        RecordMap::init(&mm, 1).err(),
        Some(StorageError::StorageCorrupt)
    );
}

#[test]
fn test_page_store_caps_growth() {
    let mut store = PageStore::new();
    assert_eq!(store.grow(MAX_STORE_PAGES), Ok(()));
    assert_eq!(store.grow(1), Err(StorageError::StorageFull));
}
