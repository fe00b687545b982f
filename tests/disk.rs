use jin::constants::{CATALOG_ROOT_ID, PAGE_SIZE};
use jin::disk::{DiskErr, DiskManager};

#[test]
fn test_disk_allocation() {
    let mut manager = DiskManager::new();

    assert_eq!(manager.is_allocated(CATALOG_ROOT_ID), true);
    assert_eq!(manager.is_allocated(CATALOG_ROOT_ID + 1), false);

    let page_id = manager.allocate_page().unwrap();
    assert_eq!(page_id, CATALOG_ROOT_ID + 1);
    assert_eq!(manager.is_allocated(CATALOG_ROOT_ID + 1), true);
}

#[test]
fn test_unallocated_read() {
    let manager = DiskManager::new();
    assert_eq!(manager.page_offset(2), Err(DiskErr::InvalidPageAccess));
}

#[test]
fn test_unallocated_write() {
    let manager = DiskManager::new();
    assert_eq!(manager.page_offset(2), Err(DiskErr::InvalidPageAccess));
    assert!(!manager.is_allocated(2));
}

#[test]
fn allocation_is_gap_free_from_root() {
    let mut manager = DiskManager::new();
    for expected in 1..=200u32 {
        assert!(!manager.is_allocated(expected));
        let page_id = manager.allocate_page().unwrap();
        assert_eq!(page_id, CATALOG_ROOT_ID + expected);
        assert!(manager.is_allocated(page_id));
    }
    assert!(!manager.is_allocated(201));
    assert!(!manager.is_allocated(u32::MAX));
}

#[test]
fn allocation_grows_the_bitmap_by_words() {
    let mut manager = DiskManager::new();
    for _ in 0..130 {
        manager.allocate_page().unwrap();
    }
    assert!(manager.is_allocated(130));
    assert!(!manager.is_allocated(131));
    assert_eq!(manager.page_offset(130), Ok(130 * PAGE_SIZE as u64));
}

#[test]
fn page_offset_of_allocated_and_unallocated_pages() {
    let mut manager = DiskManager::new();
    assert_eq!(manager.page_offset(CATALOG_ROOT_ID), Ok(0));
    assert_eq!(manager.page_offset(3), Err(DiskErr::InvalidPageAccess));
    manager.allocate_page().unwrap();
    manager.allocate_page().unwrap();
    manager.allocate_page().unwrap();
    assert_eq!(manager.page_offset(3), Ok(3 * PAGE_SIZE as u64));
}
