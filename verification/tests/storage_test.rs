use std::collections::HashMap;
use wasdb::btree::hash::HashIndex;
use wasdb::btree::node::{invalid_page_id, BTreeError as NodeError, InternalNode, LeafNode, NodeType, MAX_KEYS};
use wasdb::btree::traits::{Index, IndexError};
use wasdb::btree::tree::{BTreeError, BTreeIndex};
use wasdb::buffer::buffer_pool::BufferPoolManager;
use wasdb::buffer::BufferError;
use wasdb::buffer::lru::LRUReplacer;
use wasdb::catalog::heap::{FreeSpaceMap, TableHeap, Tuple};
use wasdb::page::TupleHeader;
use wasdb::storage::{DeviceDiskManager, DiskManager, PageDevice, PageId, StorageError};

const PAGE_SIZE: usize = 8192;

/// Pages kept in memory; a page never written reads as zeros.
struct MemDisk {
    pages: HashMap<(u32, u32), Vec<u8>>,
    next_page: u32,
}

impl MemDisk {
    fn new() -> Self {
        MemDisk { pages: HashMap::new(), next_page: 0 }
    }
}

impl PageDevice for MemDisk {
    fn read_block(&self, page_id: PageId, data: &mut Vec<u8>) -> Result<(), StorageError> {
        match self.pages.get(&(page_id.file_id, page_id.page_num)) {
            Some(p) => data.copy_from_slice(p),
            None => data.iter_mut().for_each(|b| *b = 0),
        }
        Ok(())
    }

    fn write_block(&mut self, page_id: PageId, data: &[u8]) -> Result<(), StorageError> {
        self.pages.insert((page_id.file_id, page_id.page_num), data.to_vec());
        Ok(())
    }

    fn allocate_block(&mut self, _file_id: u32) -> PageId {
        let page_num = self.next_page;
        self.next_page += 1;
        PageId { file_id: 0, page_num }
    }

    fn deallocate_block(&mut self, _page_id: PageId) {}
}

fn pool(frames: usize) -> BufferPoolManager<PAGE_SIZE, DeviceDiskManager<PAGE_SIZE, MemDisk>, LRUReplacer> {
    BufferPoolManager::new(frames, DeviceDiskManager::new(MemDisk::new()), LRUReplacer::new(frames))
}

#[test]
fn leaf_node_inserts_in_key_order() {
    let mut leaf = LeafNode::new(3);
    assert_eq!(leaf.header.node_type, NodeType::Leaf.as_u8());
    leaf.insert(20, 200).unwrap();
    leaf.insert(10, 100).unwrap();
    leaf.insert(30, 300).unwrap();
    assert_eq!(&leaf.keys[..3], &[10, 20, 30]);
    assert_eq!(&leaf.values[..3], &[100, 200, 300]);
    assert_eq!(leaf.header.num_keys, 3);
    assert!(matches!(leaf.insert(40, 400), Err(NodeError::NodeFull)));
    assert_eq!(leaf.header.num_keys, 3);
}

#[test]
fn internal_node_starts_empty_and_unlinked() {
    let node = InternalNode::new(7);
    assert_eq!(node.header.node_type, 1);
    assert_eq!(node.header.max_keys, 7);
    assert_eq!(node.keys.len(), MAX_KEYS);
    assert_eq!(node.children.len(), MAX_KEYS + 1);
    assert_eq!(node.children[0], invalid_page_id());
    assert_eq!(node.header.parent_page_id, invalid_page_id());
}

#[test]
fn btree_insert_then_search_returns_each_value() {
    let mut pool = pool(4);
    let mut tree = BTreeIndex::new(None);
    assert!(matches!(tree.search(&mut pool, 1), Err(BTreeError::KeyNotFound)));
    tree.insert(&mut pool, 10, 100).unwrap();
    tree.insert(&mut pool, 20, 200).unwrap();
    tree.insert(&mut pool, 5, 50).unwrap();
    assert_eq!(tree.search(&mut pool, 10).unwrap(), 100);
    assert_eq!(tree.search(&mut pool, 20).unwrap(), 200);
    assert_eq!(tree.search(&mut pool, 5).unwrap(), 50);
    assert!(matches!(tree.search(&mut pool, 99), Err(BTreeError::KeyNotFound)));
}

#[test]
fn btree_refuses_duplicate_keys() {
    let mut pool = pool(2);
    let mut tree = BTreeIndex::new(None);
    tree.insert(&mut pool, 1, 10).unwrap();
    assert!(matches!(tree.insert(&mut pool, 1, 11), Err(BTreeError::DuplicateKey)));
    assert_eq!(tree.search(&mut pool, 1).unwrap(), 10);
}

#[test]
fn btree_survives_eviction_of_its_root() {
    let mut pool = pool(1);
    let mut tree = BTreeIndex::new(None);
    tree.insert(&mut pool, 3, 30).unwrap();
    // another page takes the only frame; the dirty root is written back
    let other = PageId { file_id: 0, page_num: 7 };
    pool.fetch_page(other).unwrap();
    pool.unpin_page(other, false).unwrap();
    assert_eq!(tree.search(&mut pool, 3).unwrap(), 30);
}

#[test]
fn btree_refuses_a_duplicate_of_a_key_whose_root_is_on_disk() {
    let mut pool = pool(1);
    let mut tree = BTreeIndex::new(None);
    tree.insert(&mut pool, 3, 30).unwrap();
    let other = PageId { file_id: 0, page_num: 7 };
    pool.fetch_page(other).unwrap();
    pool.unpin_page(other, false).unwrap();
    assert!(matches!(tree.insert(&mut pool, 3, 31), Err(BTreeError::DuplicateKey)));
    assert_eq!(tree.search(&mut pool, 3).unwrap(), 30);
}

#[test]
fn btree_leaf_fills_up_without_splitting() {
    let mut pool = pool(2);
    let mut tree = BTreeIndex::new(None);
    for k in 0..MAX_KEYS as i32 {
        tree.insert(&mut pool, k, k as u64).unwrap();
    }
    assert!(matches!(tree.insert(&mut pool, -1, 0), Err(BTreeError::NodeFull)));
    assert_eq!(tree.search(&mut pool, 0).unwrap(), 0);
    assert_eq!(tree.search(&mut pool, MAX_KEYS as i32 - 1).unwrap(), MAX_KEYS as u64 - 1);
}

#[test]
fn hash_index_insert_search_delete() {
    let mut index = HashIndex::new();
    index.insert(7, (1, 2)).unwrap();
    assert_eq!(index.search(7).unwrap(), (1, 2));
    assert!(matches!(index.insert(7, (3, 4)), Err(IndexError::DuplicateKey)));
    assert_eq!(index.search(7).unwrap(), (1, 2));
    assert!(matches!(index.range_search(0, 10), Err(IndexError::RangeSearchUnsupported)));
    index.delete(7).unwrap();
    assert!(matches!(index.search(7), Err(IndexError::KeyNotFound)));
    assert!(matches!(index.delete(7), Err(IndexError::KeyNotFound)));
    assert_eq!(IndexError::KeyNotFound.message(), "Key not found");
}

#[test]
fn free_space_map_finds_a_page_with_room() {
    let mut fsm = FreeSpaceMap::new();
    assert_eq!(fsm.find_page_with_space(1), None);
    fsm.update(3, 100);
    fsm.update(4, 10);
    assert_eq!(fsm.find_page_with_space(50), Some(3));
    assert_eq!(fsm.find_page_with_space(101), None);
    fsm.update(3, 5);
    assert_eq!(fsm.find_page_with_space(50), None);
    assert_eq!(fsm.find_page_with_space(10), Some(4));
}

fn tuple(xmin: u64, data: &[u8]) -> Tuple {
    Tuple { header: TupleHeader { xmin, xmax: 0 }, data: data.to_vec() }
}

#[test]
fn table_heap_reads_back_inserted_tuples() {
    let mut pool = pool(4);
    let mut heap = TableHeap::new(&mut pool, 0, None).unwrap();
    let first = heap.get_first_page_num();
    let a = heap.insert_tuple(&mut pool, &tuple(1, b"alpha")).unwrap();
    let b = heap.insert_tuple(&mut pool, &tuple(2, b"beta")).unwrap();
    assert_eq!(a, (first, 0));
    assert_eq!(b, (first, 1));
    let ta = heap.get_tuple(&mut pool, a).unwrap();
    assert_eq!(ta.header.xmin, 1);
    assert_eq!(ta.header.xmax, 0);
    assert_eq!(ta.data, b"alpha");
    let tb = heap.get_tuple(&mut pool, b).unwrap();
    assert_eq!(tb.data, b"beta");
    assert!(heap.get_tuple(&mut pool, (first, 9)).is_err());
}

#[test]
fn table_heap_appends_a_page_when_the_chain_is_full() {
    let mut pool = pool(4);
    let mut heap = TableHeap::new(&mut pool, 0, None).unwrap();
    let first = heap.get_first_page_num();
    assert_eq!(heap.get_file_id(), 0);
    let big = vec![9u8; 5000];
    let a = heap.insert_tuple(&mut pool, &tuple(1, &big)).unwrap();
    let b = heap.insert_tuple(&mut pool, &tuple(1, &big)).unwrap();
    assert_eq!(a.0, first);
    assert_ne!(b.0, first);
    assert_eq!(heap.get_tuple(&mut pool, b).unwrap().data, big);
    // a third page joins the chain; the earlier tuples stay where they were
    let c = heap.insert_tuple(&mut pool, &tuple(3, &big)).unwrap();
    assert!(c.0 != first && c.0 != b.0);
    assert_eq!(heap.get_tuple(&mut pool, a).unwrap().data, big);
    assert_eq!(heap.get_tuple(&mut pool, b).unwrap().header.xmin, 1);
    assert_eq!(heap.get_tuple(&mut pool, c).unwrap().header.xmin, 3);
    // a small tuple fits on the first page again, after the big one
    let d = heap.insert_tuple(&mut pool, &tuple(4, b"small")).unwrap();
    assert_eq!(heap.get_tuple(&mut pool, d).unwrap().data, b"small");
    assert_eq!(heap.get_tuple(&mut pool, a).unwrap().data, big);
    // a tuple larger than any page is refused
    assert!(heap.insert_tuple(&mut pool, &tuple(1, &vec![0u8; 9000])).is_err());
}

#[test]
fn table_heap_over_an_existing_chain_leaves_the_pool_alone() {
    let mut pool = pool(2);
    let heap = TableHeap::new(&mut pool, 0, Some(42)).unwrap();
    assert_eq!(heap.get_first_page_num(), 42);
    assert_eq!(pool.pin_count_of_page(PageId { file_id: 0, page_num: 42 }), None);
}

/// A device whose reads come back short.
struct ShortReads;

impl PageDevice for ShortReads {
    fn read_block(&self, _page_id: PageId, data: &mut Vec<u8>) -> Result<(), StorageError> {
        data.truncate(10);
        Ok(())
    }

    fn write_block(&mut self, _page_id: PageId, _data: &[u8]) -> Result<(), StorageError> {
        Ok(())
    }

    fn allocate_block(&mut self, file_id: u32) -> PageId {
        PageId { file_id, page_num: 0 }
    }

    fn deallocate_block(&mut self, _page_id: PageId) {}
}

#[test]
fn a_short_read_is_a_storage_error_and_written_pages_read_back() {
    let mut disk = DeviceDiskManager::new(ShortReads);
    let pid = PageId { file_id: 0, page_num: 0 };
    let mut buf = vec![0u8; PAGE_SIZE];
    match DiskManager::<PAGE_SIZE>::read_page(&disk, pid, &mut buf) {
        Err(StorageError::IoError(m)) => assert_eq!(m, "short read"),
        _ => panic!("expected an I/O error"),
    }
    let page = vec![5u8; PAGE_SIZE];
    DiskManager::<PAGE_SIZE>::write_page(&mut disk, pid, &page).unwrap();
    DiskManager::<PAGE_SIZE>::read_page(&disk, pid, &mut buf).unwrap();
    assert_eq!(buf, page);

    let mut pool: BufferPoolManager<PAGE_SIZE, _, _> =
        BufferPoolManager::new(1, DeviceDiskManager::new(ShortReads), LRUReplacer::new(1));
    assert!(matches!(pool.fetch_page(pid), Err(BufferError::StorageError(StorageError::IoError(_)))));
}

#[test]
fn btree_reports_a_node_with_too_many_keys() {
    let mut pool = pool(2);
    let pid = PageId { file_id: 0, page_num: 5 };
    let f = pool.fetch_page(pid).unwrap();
    // an internal node (type byte 1) that counts 1000 keys
    pool.write_page(f).write_raw(0, &[1u8, 0, 0xE8, 0x03]);
    pool.unpin_page(pid, true).unwrap();
    let tree = BTreeIndex::new(Some(pid));
    assert!(matches!(tree.search(&mut pool, 1), Err(BTreeError::Corrupted)));
}

#[test]
fn btree_reports_buffer_pool_errors() {
    let mut pool = pool(0);
    let mut tree = BTreeIndex::new(None);
    assert!(matches!(tree.insert(&mut pool, 1, 1), Err(BTreeError::BufferError(_))));
}

/// Writes a node page: its type byte, key count and maximum, keys, and the
/// 8-byte entries after them (values of a leaf, children of an internal node).
fn write_node(
    pool: &mut BufferPoolManager<PAGE_SIZE, DeviceDiskManager<PAGE_SIZE, MemDisk>, LRUReplacer>,
    pid: PageId,
    kind: u8,
    keys: &[i32],
    entries: &[[u8; 8]],
) {
    let f = pool.fetch_page(pid).unwrap();
    let page = pool.write_page(f);
    page.write_raw(0, &[kind]);
    page.write_raw(2, &(keys.len() as u16).to_le_bytes());
    page.write_raw(4, &(MAX_KEYS as u16).to_le_bytes());
    for (i, k) in keys.iter().enumerate() {
        page.write_raw(24 + 4 * i, &k.to_le_bytes());
    }
    for (i, e) in entries.iter().enumerate() {
        page.write_raw(1384 + 8 * i, e);
    }
    pool.unpin_page(pid, true).unwrap();
}

fn child(pid: PageId) -> [u8; 8] {
    let mut e = [0u8; 8];
    e[..4].copy_from_slice(&pid.file_id.to_le_bytes());
    e[4..].copy_from_slice(&pid.page_num.to_le_bytes());
    e
}

#[test]
fn btree_follows_an_internal_root_to_the_leaf_for_each_key() {
    let mut pool = pool(4);
    let root = PageId { file_id: 0, page_num: 1 };
    let left = PageId { file_id: 0, page_num: 2 };
    let right = PageId { file_id: 0, page_num: 3 };
    write_node(&mut pool, left, 2, &[1, 5], &[11u64.to_le_bytes(), 55u64.to_le_bytes()]);
    write_node(&mut pool, right, 2, &[10, 20], &[100u64.to_le_bytes(), 200u64.to_le_bytes()]);
    // keys below 10 go left, the others right
    write_node(&mut pool, root, 1, &[10], &[child(left), child(right)]);
    let mut tree = BTreeIndex::new(Some(root));
    assert_eq!(tree.search(&mut pool, 5).unwrap(), 55);
    assert_eq!(tree.search(&mut pool, 10).unwrap(), 100);
    assert_eq!(tree.search(&mut pool, 20).unwrap(), 200);
    assert!(matches!(tree.search(&mut pool, 7), Err(BTreeError::KeyNotFound)));
    tree.insert(&mut pool, 7, 77).unwrap();
    tree.insert(&mut pool, 15, 150).unwrap();
    assert_eq!(tree.search(&mut pool, 7).unwrap(), 77);
    assert_eq!(tree.search(&mut pool, 15).unwrap(), 150);
    assert!(matches!(tree.insert(&mut pool, 5, 0), Err(BTreeError::DuplicateKey)));
    assert!(matches!(tree.insert(&mut pool, 20, 0), Err(BTreeError::DuplicateKey)));
}

#[test]
fn btree_walks_a_tree_kept_on_disk_through_a_single_frame() {
    let mut pool = pool(1);
    let root = PageId { file_id: 0, page_num: 1 };
    let left = PageId { file_id: 0, page_num: 2 };
    let right = PageId { file_id: 0, page_num: 3 };
    write_node(&mut pool, left, 2, &[1, 5], &[11u64.to_le_bytes(), 55u64.to_le_bytes()]);
    write_node(&mut pool, right, 2, &[10, 20], &[100u64.to_le_bytes(), 200u64.to_le_bytes()]);
    write_node(&mut pool, root, 1, &[10], &[child(left), child(right)]);
    let mut tree = BTreeIndex::new(Some(root));
    // each step of a walk evicts the page before it
    assert_eq!(tree.search(&mut pool, 5).unwrap(), 55);
    assert!(matches!(tree.insert(&mut pool, 5, 0), Err(BTreeError::DuplicateKey)));
    assert_eq!(tree.search(&mut pool, 5).unwrap(), 55);
    tree.insert(&mut pool, 15, 150).unwrap();
    assert_eq!(tree.search(&mut pool, 15).unwrap(), 150);
    assert_eq!(tree.search(&mut pool, 20).unwrap(), 200);
}

#[test]
fn table_heap_reads_a_tuple_back_after_its_page_left_the_pool() {
    let mut pool = pool(1);
    let mut heap = TableHeap::new(&mut pool, 0, None).unwrap();
    let a = heap.insert_tuple(&mut pool, &tuple(4, b"kept")).unwrap();
    // another page takes the only frame; the heap page is written back
    let other = PageId { file_id: 0, page_num: 90 };
    pool.fetch_page(other).unwrap();
    pool.unpin_page(other, false).unwrap();
    let t = heap.get_tuple(&mut pool, a).unwrap();
    assert_eq!(t.header.xmin, 4);
    assert_eq!(t.data, b"kept");
}
