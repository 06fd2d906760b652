use wasdb::storage::PageId;
use wasdb::wal::{LogManager, LogRecord, RecoveryManager};

#[test]
fn serialize_deserialize_insert_should_match() {
    let record = LogRecord::Insert {
        txn_id: 123,
        page_id: PageId {
            file_id: 1,
            page_num: 2,
        },
        offset: 50,
        data: vec![0, 1, 2, 3],
    };
    let serialized = record.serialize();
    let (deserialized, size) = LogRecord::deserialize(&serialized).unwrap();

    assert_eq!(record, deserialized);
    assert_eq!(size, serialized.len());
}

#[test]
fn log_manager_should_append_and_flush_records() {
    // an empty log file
    let mut lm = LogManager::new(0);

    let record = LogRecord::Commit { txn_id: 42 };
    let (lsn, _frame) = lm.append_record(&record);

    assert!(lsn > 0);
    lm.flush();
    assert_eq!(lm.get_flushed_lsn(), lsn);
}

#[test]
fn recovery_manager_should_read_appended_records() {
    let mut lm = LogManager::new(0);
    let mut file: Vec<u8> = Vec::new();

    file.extend(lm.append_record(&LogRecord::Commit { txn_id: 1 }).1);
    file.extend(lm.append_record(&LogRecord::Abort { txn_id: 2 }).1);
    lm.flush();

    let records = RecoveryManager::recover_records(&file);
    assert_eq!(records.len(), 2);
    assert_eq!(records[0], LogRecord::Commit { txn_id: 1 });
    assert_eq!(records[1], LogRecord::Abort { txn_id: 2 });
}

#[test]
fn commit_and_abort_records_have_their_exact_encoding() {
    assert_eq!(LogRecord::Commit { txn_id: 7 }.serialize(), vec![2, 7, 0, 0, 0, 0, 0, 0, 0]);
    assert_eq!(LogRecord::Abort { txn_id: 1 }.serialize(), vec![3, 1, 0, 0, 0, 0, 0, 0, 0]);
}

#[test]
fn deserialize_refuses_truncated_and_unknown_records() {
    assert!(LogRecord::deserialize(&[]).is_none());
    assert!(LogRecord::deserialize(&[2, 1, 2, 3]).is_none());
    assert!(LogRecord::deserialize(&[9, 0, 0, 0, 0, 0, 0, 0, 0]).is_none());
    let insert = LogRecord::Insert {
        txn_id: 1,
        page_id: PageId { file_id: 0, page_num: 0 },
        offset: 0,
        data: vec![5, 6, 7],
    }
    .serialize();
    assert!(LogRecord::deserialize(&insert[..insert.len() - 1]).is_none());
}

#[test]
fn append_numbers_records_from_the_file_length() {
    let mut lm = LogManager::new(100);
    assert_eq!(lm.get_flushed_lsn(), 100);
    let (first, frame) = lm.append_record(&LogRecord::Commit { txn_id: 3 });
    let (second, _) = lm.append_record(&LogRecord::Commit { txn_id: 4 });
    assert_eq!(first, 101);
    assert_eq!(second, 102);
    // size (u32), then lsn (u64), then the record
    assert_eq!(&frame[0..4], &9u32.to_le_bytes());
    assert_eq!(&frame[4..12], &101u64.to_le_bytes());
    assert_eq!(&frame[12..], &LogRecord::Commit { txn_id: 3 }.serialize()[..]);
    assert_eq!(lm.get_flushed_lsn(), 100);
    lm.flush();
    assert_eq!(lm.get_flushed_lsn(), 102);
}

#[test]
fn recovery_stops_at_a_torn_frame() {
    let mut lm = LogManager::new(0);
    let mut file: Vec<u8> = Vec::new();
    file.extend(lm.append_record(&LogRecord::Commit { txn_id: 1 }).1);
    let torn = lm.append_record(&LogRecord::Commit { txn_id: 2 }).1;
    file.extend(&torn[..torn.len() - 3]);
    let records = RecoveryManager::recover_records(&file);
    assert_eq!(records, vec![LogRecord::Commit { txn_id: 1 }]);
}
