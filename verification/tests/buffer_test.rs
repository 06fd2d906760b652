use std::collections::HashMap;
use wasdb::buffer::buffer_pool::BufferPoolManager;
use wasdb::buffer::clock::ClockReplacer;
use wasdb::buffer::frame::FrameDescriptor;
use wasdb::buffer::lru::LRUReplacer;
use wasdb::buffer::replacer::ReplacementPolicy;
use wasdb::buffer::BufferError;
use wasdb::storage::{DeviceDiskManager, PageDevice, PageId, StorageError};

const PAGE_SIZE: usize = 8192;

/// Pages kept in memory; a page never written reads as zeros.
struct MemDisk {
    pages: HashMap<(u32, u32), Vec<u8>>,
    next_page: u32,
}

impl MemDisk {
    fn new() -> Self {
        MemDisk { pages: HashMap::new(), next_page: 0 }
    }
}

impl PageDevice for MemDisk {
    fn read_block(&self, page_id: PageId, data: &mut Vec<u8>) -> Result<(), StorageError> {
        match self.pages.get(&(page_id.file_id, page_id.page_num)) {
            Some(p) => data.copy_from_slice(p),
            None => data.iter_mut().for_each(|b| *b = 0),
        }
        Ok(())
    }

    fn write_block(&mut self, page_id: PageId, data: &[u8]) -> Result<(), StorageError> {
        self.pages.insert((page_id.file_id, page_id.page_num), data.to_vec());
        Ok(())
    }

    fn allocate_block(&mut self, _file_id: u32) -> PageId {
        let page_num = self.next_page;
        self.next_page += 1;
        PageId { file_id: 0, page_num }
    }

    fn deallocate_block(&mut self, _page_id: PageId) {}
}

#[test]
fn evict_should_return_least_recently_used() {
    let mut lru = LRUReplacer::new(5);
    lru.record_access(1);
    lru.record_access(2);
    lru.record_access(3);
    lru.record_access(1);

    let evicted = lru.evict();

    assert_eq!(evicted, Some(2));
}

#[test]
fn size_should_track_number_of_managed_frames() {
    let mut lru = LRUReplacer::new(5);

    lru.record_access(1);
    lru.record_access(2);
    lru.record_access(3);
    lru.record_access(1);

    assert_eq!(lru.size(), 3);
}

#[test]
fn evict_should_ignore_pinned_frames() {
    let mut lru = LRUReplacer::new(5);
    lru.record_access(1);
    lru.record_access(2);

    lru.set_pin(1, true);

    assert_eq!(lru.evict(), Some(2));
    assert_eq!(lru.evict(), None);
}

#[test]
fn test_buffer_pool_lru() {
    let disk_manager = DeviceDiskManager::new(MemDisk::new());
    let replacer = LRUReplacer::new(10);
    let mut buffer_pool = BufferPoolManager::<PAGE_SIZE, _, _>::new(10, disk_manager, replacer);

    let page_id_0 = PageId { file_id: 0, page_num: 0 };
    let page_id_1 = PageId { file_id: 0, page_num: 1 };

    let frame_0 = buffer_pool.fetch_page(page_id_0).unwrap();
    {
        let page = buffer_pool.write_page(frame_0);
        let mut header = page.header();
        header.total_slots = 5;
        page.set_header(header);
    }
    buffer_pool.unpin_page(page_id_0, true).unwrap();

    let _frame_1 = buffer_pool.fetch_page(page_id_1).unwrap();
    buffer_pool.unpin_page(page_id_1, false).unwrap();

    buffer_pool.flush_all_pages().unwrap();
}

#[test]
fn test_buffer_pool_clock() {
    let disk_manager = DeviceDiskManager::new(MemDisk::new());
    let replacer = ClockReplacer::new(10);
    let mut buffer_pool = BufferPoolManager::<PAGE_SIZE, _, _>::new(10, disk_manager, replacer);

    let page_id_0 = PageId { file_id: 0, page_num: 0 };

    let _frame_0 = buffer_pool.fetch_page(page_id_0).unwrap();
    buffer_pool.unpin_page(page_id_0, true).unwrap();
}

#[test]
fn lru_evicts_in_access_order_and_forgets_removed_frames() {
    let mut lru = LRUReplacer::new(4);
    lru.record_access(0);
    lru.record_access(1);
    lru.record_access(2);
    lru.remove(0);
    assert_eq!(lru.size(), 2);
    assert_eq!(lru.evict(), Some(1));
    assert_eq!(lru.evict(), Some(2));
    assert_eq!(lru.evict(), None);
}

#[test]
fn lru_unpinned_frame_becomes_evictable_again() {
    let mut lru = LRUReplacer::new(3);
    lru.record_access(0);
    lru.set_pin(0, true);
    assert_eq!(lru.evict(), None);
    lru.set_pin(0, false);
    assert_eq!(lru.evict(), Some(0));
}

#[test]
fn clock_gives_referenced_frames_a_second_chance() {
    let mut clock = ClockReplacer::new(3);
    clock.record_access(0);
    clock.record_access(1);
    clock.record_access(2);
    // every frame is referenced: the hand clears all bits, then evicts frame 0
    assert_eq!(clock.evict(), Some(0));
    clock.record_access(1);
    // frame 1 was referenced again, frame 2 was cleared: frame 2 goes
    assert_eq!(clock.evict(), Some(2));
    assert_eq!(clock.evict(), Some(1));
    assert_eq!(clock.evict(), None);
}

#[test]
fn clock_never_evicts_pinned_frames() {
    let mut clock = ClockReplacer::new(2);
    clock.record_access(0);
    clock.record_access(1);
    clock.set_pin(0, true);
    assert_eq!(clock.evict(), Some(1));
    assert_eq!(clock.evict(), None);
}

#[test]
fn frame_pin_and_unpin_count() {
    let mut frame = FrameDescriptor::new();
    assert_eq!(frame.pin_count, 0);
    frame.pin();
    frame.pin();
    assert_eq!(frame.pin_count, 2);
    frame.unpin();
    assert_eq!(frame.pin_count, 1);
    assert!(frame.page_id.is_none());
    assert!(!frame.is_dirty);
}

#[test]
fn fetch_reads_what_a_flush_wrote() {
    let mut pool = BufferPoolManager::<PAGE_SIZE, _, _>::new(1, DeviceDiskManager::new(MemDisk::new()), LRUReplacer::new(1));
    let p0 = PageId { file_id: 0, page_num: 0 };
    let p1 = PageId { file_id: 0, page_num: 1 };

    let f0 = pool.fetch_page(p0).unwrap();
    pool.write_page(f0).init();
    let slot = pool.write_page(f0).insert_record(b"kept").unwrap();
    pool.unpin_page(p0, true).unwrap();

    // the only frame is taken by another page: the dirty page is written back
    let f1 = pool.fetch_page(p1).unwrap();
    assert_eq!(f1, f0);
    pool.unpin_page(p1, false).unwrap();

    let f0_again = pool.fetch_page(p0).unwrap();
    assert_eq!(pool.read_page(f0_again).get_record(slot).unwrap(), b"kept");
    pool.unpin_page(p0, false).unwrap();
}

#[test]
fn fetch_fails_when_every_frame_is_pinned() {
    let mut pool = BufferPoolManager::<PAGE_SIZE, _, _>::new(1, DeviceDiskManager::new(MemDisk::new()), LRUReplacer::new(1));
    let p0 = PageId { file_id: 0, page_num: 0 };
    let p1 = PageId { file_id: 0, page_num: 1 };
    pool.fetch_page(p0).unwrap();
    assert!(matches!(pool.fetch_page(p1), Err(BufferError::NoFreeFrames)));
}

#[test]
fn unpin_and_flush_of_an_absent_page_fail() {
    let mut pool = BufferPoolManager::<PAGE_SIZE, _, _>::new(2, DeviceDiskManager::new(MemDisk::new()), LRUReplacer::new(2));
    let p = PageId { file_id: 3, page_num: 7 };
    assert!(matches!(pool.unpin_page(p, false), Err(BufferError::PageNotFound)));
    assert!(matches!(pool.flush_page(p), Err(BufferError::PageNotFound)));
}

#[test]
fn new_page_is_pinned_in_the_pool() {
    let mut pool = BufferPoolManager::<PAGE_SIZE, _, _>::new(2, DeviceDiskManager::new(MemDisk::new()), LRUReplacer::new(2));
    let (frame, page_id) = pool.new_page(0).unwrap();
    assert_eq!(page_id, PageId { file_id: 0, page_num: 0 });
    assert_eq!(pool.pin_count_of_page(page_id), Some(1));
    assert!(frame < 2);
    pool.unpin_page(page_id, false).unwrap();
    assert_eq!(pool.pin_count_of_page(page_id), Some(0));
}
