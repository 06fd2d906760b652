use std::collections::HashMap;
use wasdb::btree::tree::BTreeIndex;
use wasdb::buffer::buffer_pool::BufferPoolManager;
use wasdb::buffer::lru::LRUReplacer;
use wasdb::catalog::schema::{Column, Schema, TypeId};
use wasdb::query::executors::{Executor, FilterExecutor, SeqScanExecutor, Tuple, Value};
use wasdb::query::sort::ExternalMergeSortExecutor;
use wasdb::storage::{DeviceDiskManager, PageDevice, PageId, StorageError};

const PAGE_SIZE: usize = 8192;

/// Pages kept in memory, standing in for a file on disk.
struct MemDisk {
    pages: HashMap<(u32, u32), Vec<u8>>,
    next_page: u32,
}

impl PageDevice for MemDisk {
    fn read_block(&self, page_id: PageId, data: &mut Vec<u8>) -> Result<(), StorageError> {
        match self.pages.get(&(page_id.file_id, page_id.page_num)) {
            Some(p) => data.copy_from_slice(p),
            None => data.iter_mut().for_each(|b| *b = 0),
        }
        Ok(())
    }

    fn write_block(&mut self, page_id: PageId, data: &[u8]) -> Result<(), StorageError> {
        self.pages.insert((page_id.file_id, page_id.page_num), data.to_vec());
        Ok(())
    }

    fn allocate_block(&mut self, _file_id: u32) -> PageId {
        let page_num = self.next_page;
        self.next_page += 1;
        PageId { file_id: 0, page_num }
    }

    fn deallocate_block(&mut self, _page_id: PageId) {}
}

#[test]
fn end_to_end_query_execution_should_succeed() {
    // Arrange: Setup Storage and Buffer Pool
    let disk_manager = DeviceDiskManager::new(MemDisk { pages: HashMap::new(), next_page: 0 });
    let replacer = LRUReplacer::new(10);
    let mut buffer_pool = BufferPoolManager::<PAGE_SIZE, _, _>::new(10, disk_manager, replacer);

    // Arrange: Setup B+ Tree
    let mut btree = BTreeIndex::new(None);
    btree.insert(&mut buffer_pool, 10, 100).unwrap();
    btree.insert(&mut buffer_pool, 20, 200).unwrap();
    btree.insert(&mut buffer_pool, 5, 50).unwrap();

    // Act & Assert: BTree lookups
    assert_eq!(btree.search(&mut buffer_pool, 10).unwrap(), 100);
    assert_eq!(btree.search(&mut buffer_pool, 20).unwrap(), 200);
    assert_eq!(btree.search(&mut buffer_pool, 5).unwrap(), 50);
    assert!(btree.search(&mut buffer_pool, 99).is_err());

    // Arrange: Setup Catalog & Query Execution
    let schema = Schema::new(vec![
        Column::new(String::from("id"), TypeId::Integer, 4),
        Column::new(String::from("value"), TypeId::Integer, 4),
    ]);

    let tuples = vec![
        vec![Value::Integer(10), Value::Integer(100)],
        vec![Value::Integer(20), Value::Integer(200)],
        vec![Value::Integer(5), Value::Integer(50)],
        vec![Value::Integer(30), Value::Integer(300)],
    ];
    let scan = SeqScanExecutor::new(schema.clone(), tuples);

    // Arrange & Act: Filter Executor
    let mut filter = FilterExecutor::new(Box::new(scan), |tuple: &Tuple| {
        if let Value::Integer(id) = tuple[0] {
            id > 10
        } else {
            false
        }
    });

    let mut filtered_tuples = Vec::new();
    filter.init();
    while let Some(tuple) = filter.next() {
        filtered_tuples.push(tuple);
    }

    // Assert: Filter Executor
    assert_eq!(filtered_tuples.len(), 2);
    assert_eq!(filtered_tuples[0][0], Value::Integer(20));
    assert_eq!(filtered_tuples[1][0], Value::Integer(30));

    // Arrange & Act: External Merge Sort Executor
    let tuples_for_sort = vec![
        vec![Value::Integer(20), Value::Integer(200)],
        vec![Value::Integer(5), Value::Integer(50)],
        vec![Value::Integer(30), Value::Integer(300)],
        vec![Value::Integer(10), Value::Integer(100)],
    ];
    let scan_for_sort = SeqScanExecutor::new(schema.clone(), tuples_for_sort);
    let mut sort = ExternalMergeSortExecutor::new(Box::new(scan_for_sort), 0);

    sort.init();
    let mut sorted_tuples = Vec::new();
    while let Some(tuple) = sort.next() {
        sorted_tuples.push(tuple);
    }

    // Assert: External Merge Sort Executor
    assert_eq!(sorted_tuples.len(), 4);
    assert_eq!(sorted_tuples[0][0], Value::Integer(5));
    assert_eq!(sorted_tuples[1][0], Value::Integer(10));
    assert_eq!(sorted_tuples[2][0], Value::Integer(20));
    assert_eq!(sorted_tuples[3][0], Value::Integer(30));
}
