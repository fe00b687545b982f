use jin::buffer::{Buffer, BufferErr, Fetch};
use jin::constants::PAGE_SIZE;
use jin::disk::DiskManager;
use jin::lru::LRUPolicy;

/// A disk manager with pages `1..=n` allocated, and a stand-in for the
/// backing file in which page `p` is filled with the byte `p`.
fn disk_with_pages(n: u32) -> (DiskManager, Vec<Vec<u8>>) {
    let mut disk = DiskManager::new();
    let mut file = vec![vec![0u8; PAGE_SIZE as usize]];
    for _ in 0..n {
        let p = disk.allocate_page().unwrap();
        file.push(vec![p as u8; PAGE_SIZE as usize]);
    }
    (disk, file)
}

/// Fetches `page_id`, doing the write-back and the read that a miss asks for.
/// Returns the frame and whether the disk was read.
fn fetch(
    pool: &mut Buffer<LRUPolicy>,
    disk: &DiskManager,
    file: &mut Vec<Vec<u8>>,
    page_id: u32,
) -> Result<(u32, bool), BufferErr> {
    match pool.fetch_page(page_id, disk)? {
        Fetch::Hit(frame) => Ok((frame, false)),
        Fetch::Load { frame, write_back } => {
            if let Some(wb) = write_back {
                file[wb.page_id as usize] = wb.bytes;
            }
            let bytes = file[page_id as usize].clone();
            pool.install_page(frame, &bytes);
            Ok((frame, true))
        }
    }
}

#[test]
fn buffer_new_has_empty_unpinned_frames() {
    let pool: Buffer<LRUPolicy> = Buffer::new(3);
    assert_eq!(pool.size(), 3);
    for f in 0..3 {
        assert_eq!(pool.pins_of(f), 0);
        assert!(!pool.dirty_of(f));
    }
}

#[test]
fn fetch_loads_page_from_disk() {
    let (disk, mut file) = disk_with_pages(3);
    let mut pool: Buffer<LRUPolicy> = Buffer::new(2);
    let (f, read) = fetch(&mut pool, &disk, &mut file, 2).unwrap();
    assert!(read);
    assert!(pool.page_data(f).iter().all(|b| *b == 2));
    assert_eq!(pool.pins_of(f), 1);
}

#[test]
fn fetch_of_resident_page_does_not_read_disk() {
    let (disk, mut file) = disk_with_pages(3);
    let mut pool: Buffer<LRUPolicy> = Buffer::new(2);
    let (f, first) = fetch(&mut pool, &disk, &mut file, 1).unwrap();
    let (g, second) = fetch(&mut pool, &disk, &mut file, 1).unwrap();
    assert!(first);
    assert!(!second);
    assert_eq!(f, g);
    assert_eq!(pool.pins_of(f), 2);
}

#[test]
fn fetch_when_all_frames_pinned_is_buffer_full() {
    let (disk, mut file) = disk_with_pages(3);
    let mut pool: Buffer<LRUPolicy> = Buffer::new(2);
    fetch(&mut pool, &disk, &mut file, 1).unwrap();
    fetch(&mut pool, &disk, &mut file, 2).unwrap();
    assert_eq!(fetch(&mut pool, &disk, &mut file, 3), Err(BufferErr::BufferFull));
    assert_eq!(fetch(&mut pool, &disk, &mut file, 9), Err(BufferErr::BufferFull));
    pool.unpin_page(1, false).unwrap();
    assert!(fetch(&mut pool, &disk, &mut file, 3).is_ok());
}

#[test]
fn unpin_without_pin_is_page_not_pinned() {
    let (disk, mut file) = disk_with_pages(3);
    let mut pool: Buffer<LRUPolicy> = Buffer::new(2);
    assert_eq!(pool.unpin_page(1, false), Err(BufferErr::PageNotPinned));
    fetch(&mut pool, &disk, &mut file, 1).unwrap();
    assert_eq!(pool.unpin_page(1, false), Ok(()));
    assert_eq!(pool.unpin_page(1, false), Err(BufferErr::PageNotPinned));
}

#[test]
fn fetch_of_unallocated_page_is_rejected() {
    let (disk, mut file) = disk_with_pages(1);
    let mut pool: Buffer<LRUPolicy> = Buffer::new(2);
    assert_eq!(fetch(&mut pool, &disk, &mut file, 5), Err(BufferErr::InvalidPageAccess));
    assert_eq!(pool.pins_of(0), 0);
    assert_eq!(pool.pins_of(1), 0);
}

#[test]
fn dirty_victim_is_written_back() {
    let (disk, mut file) = disk_with_pages(2);
    let mut pool: Buffer<LRUPolicy> = Buffer::new(1);
    let (f, _) = fetch(&mut pool, &disk, &mut file, 1).unwrap();
    pool.write_frame(f, &[42u8; PAGE_SIZE as usize]);
    pool.unpin_page(1, true).unwrap();
    assert!(pool.dirty_of(f));
    let (g, _) = fetch(&mut pool, &disk, &mut file, 2).unwrap();
    assert!(pool.page_data(g).iter().all(|b| *b == 2));
    assert!(file[1].iter().all(|b| *b == 42));
    pool.unpin_page(2, false).unwrap();
    let (h, _) = fetch(&mut pool, &disk, &mut file, 1).unwrap();
    assert!(pool.page_data(h).iter().all(|b| *b == 42));
    assert!(!pool.dirty_of(h));
}

#[test]
fn clean_victim_is_not_written_back() {
    let (disk, _file) = disk_with_pages(2);
    let mut pool: Buffer<LRUPolicy> = Buffer::new(1);
    match pool.fetch_page(1, &disk).unwrap() {
        Fetch::Load { frame, write_back } => {
            assert!(write_back.is_none());
            pool.install_page(frame, &[1u8; PAGE_SIZE as usize]);
        }
        Fetch::Hit(_) => panic!("page 1 was not resident"),
    }
    pool.unpin_page(1, false).unwrap();
    match pool.fetch_page(2, &disk).unwrap() {
        Fetch::Load { write_back, .. } => assert!(write_back.is_none()),
        Fetch::Hit(_) => panic!("page 2 was not resident"),
    }
}

#[test]
fn flush_hands_back_frame_and_clears_dirty() {
    let (disk, mut file) = disk_with_pages(2);
    let mut pool: Buffer<LRUPolicy> = Buffer::new(2);
    let (f, _) = fetch(&mut pool, &disk, &mut file, 2).unwrap();
    pool.write_frame(f, &[9u8; PAGE_SIZE as usize]);
    pool.unpin_page(2, true).unwrap();
    let wb = pool.flush_page(2).ok().unwrap();
    assert_eq!(wb.page_id, 2);
    assert!(wb.bytes.iter().all(|b| *b == 9));
    assert!(!pool.dirty_of(f));
    assert!(pool.flush_page(1).err() == Some(BufferErr::PageNotResident));
}

#[test]
fn buffer_evicts_least_recently_unpinned_frame() {
    let (disk, mut file) = disk_with_pages(4);
    let mut pool: Buffer<LRUPolicy> = Buffer::new(3);
    let (a, _) = fetch(&mut pool, &disk, &mut file, 1).unwrap();
    fetch(&mut pool, &disk, &mut file, 2).unwrap();
    fetch(&mut pool, &disk, &mut file, 3).unwrap();
    pool.unpin_page(1, false).unwrap();
    pool.unpin_page(2, false).unwrap();
    pool.unpin_page(3, false).unwrap();
    let (d, _) = fetch(&mut pool, &disk, &mut file, 4).unwrap();
    assert_eq!(d, a);
    assert!(pool.page_data(d).iter().all(|b| *b == 4));
}
