use vstd::prelude::*;
use vstd::bytes::*;
use vstd::slice::{slice_subrange, slice_to_vec};
use crate::codec::{u16_at, u32_at, u64_at, read_u16, read_u32, read_u64, push_all};
use crate::storage::PageId;
use crate::tx::TransactionId;

verus! {

broadcast use vstd::seq_lib::group_seq_properties;

/// The position of a record in the log.
pub type LogSequenceNumber = u64;

/// A record of the write-ahead log.
#[derive(Debug, Clone, PartialEq, Eq)]
pub enum LogRecord {
    /// `data` was written at `offset` of the page by the transaction.
    Insert { txn_id: TransactionId, page_id: PageId, offset: u16, data: Vec<u8> },
    /// The transaction committed.
    Commit { txn_id: TransactionId },
    /// The transaction aborted.
    Abort { txn_id: TransactionId },
}

/// A log record as a mathematical value.
pub enum LogRecordView {
    Insert { txn_id: TransactionId, page_id: PageId, offset: u16, data: Seq<u8> },
    Commit { txn_id: TransactionId },
    Abort { txn_id: TransactionId },
}

impl View for LogRecord {
    type V = LogRecordView;

    open spec fn view(&self) -> LogRecordView {
        match self {
            LogRecord::Insert { txn_id, page_id, offset, data } => LogRecordView::Insert {
                txn_id: *txn_id,
                page_id: *page_id,
                offset: *offset,
                data: data@,
            },
            LogRecord::Commit { txn_id } => LogRecordView::Commit { txn_id: *txn_id },
            LogRecord::Abort { txn_id } => LogRecordView::Abort { txn_id: *txn_id },
        }
    }
}

/// The encoding of a record: a type byte (1 insert, 2 commit, 3 abort), the
/// transaction id (8 bytes), and for an insert the file id and page number (4
/// bytes each), the offset (2 bytes), the data length (4 bytes) and the data.
/// Integers are little endian.
pub open spec fn serialized(r: LogRecordView) -> Seq<u8> {
    match r {
        LogRecordView::Insert { txn_id, page_id, offset, data } => seq![1u8] + spec_u64_to_le_bytes(
            txn_id,
        ) + spec_u32_to_le_bytes(page_id.file_id) + spec_u32_to_le_bytes(page_id.page_num)
            + spec_u16_to_le_bytes(offset) + spec_u32_to_le_bytes(data.len() as u32) + data,
        LogRecordView::Commit { txn_id } => seq![2u8] + spec_u64_to_le_bytes(txn_id),
        LogRecordView::Abort { txn_id } => seq![3u8] + spec_u64_to_le_bytes(txn_id),
    }
}

/// The record that `buf` starts with and the number of bytes it takes, if
/// `buf` starts with a whole record. An insert is only read from a buffer of
/// at least 25 bytes.
pub open spec fn deserialized(buf: Seq<u8>) -> Option<(LogRecordView, nat)> {
    if buf.len() == 0 {
        None
    } else if buf[0] == 1 {
        if buf.len() < 25 {
            None
        } else {
            let len = u32_at(buf, 19) as nat;
            if buf.len() < 23 + len {
                None
            } else {
                Some(
                    (
                        LogRecordView::Insert {
                            txn_id: u64_at(buf, 1),
                            page_id: PageId { file_id: u32_at(buf, 9), page_num: u32_at(buf, 13) },
                            offset: u16_at(buf, 17),
                            data: buf.subrange(23, 23 + len as int),
                        },
                        23 + len,
                    ),
                )
            }
        }
    } else if buf[0] == 2 || buf[0] == 3 {
        if buf.len() < 9 {
            None
        } else if buf[0] == 2 {
            Some((LogRecordView::Commit { txn_id: u64_at(buf, 1) }, 9))
        } else {
            Some((LogRecordView::Abort { txn_id: u64_at(buf, 1) }, 9))
        }
    } else {
        None
    }
}

/// A record is read back from its encoding: its data length fits the 32-bit
/// length field, and an insert encodes to at least 25 bytes (two bytes of
/// data or more).
pub open spec fn round_trips(r: LogRecordView) -> bool {
    match r {
        LogRecordView::Insert { data, .. } => 2 <= data.len() <= u32::MAX,
        _ => true,
    }
}

/// The record's encoding fits the 32-bit size field of a log frame.
pub open spec fn fits_frame(r: LogRecordView) -> bool {
    serialized(r).len() <= u32::MAX
}

/// How a record is framed in the log file: the payload size (4 bytes), the
/// log sequence number (8 bytes), then the payload.
pub open spec fn framed(lsn: LogSequenceNumber, payload: Seq<u8>) -> Seq<u8> {
    spec_u32_to_le_bytes(payload.len() as u32) + spec_u64_to_le_bytes(lsn) + payload
}

/// The records that recovery reads from a log file: frames are read one
/// after the other until fewer than 12 bytes remain or a frame is cut short;
/// frames whose payload is not a record are skipped.
pub open spec fn recovered(buf: Seq<u8>) -> Seq<LogRecordView>
    decreases buf.len(),
{
    if buf.len() < 12 {
        Seq::empty()
    } else {
        let size = u32_at(buf, 0) as int;
        if 12 + size > buf.len() {
            Seq::empty()
        } else {
            let rest = recovered(buf.subrange(12 + size, buf.len() as int));
            match deserialized(buf.subrange(12, 12 + size)) {
                Some((r, _)) => seq![r] + rest,
                None => rest,
            }
        }
    }
}

proof fn lemma_serialized_len(r: LogRecordView)
    ensures
        serialized(r).len() == match r {
            LogRecordView::Insert { data, .. } => 23 + data.len(),
            _ => 9,
        },
{
    lemma_auto_spec_u16_to_from_le_bytes();
    lemma_auto_spec_u32_to_from_le_bytes();
    lemma_auto_spec_u64_to_from_le_bytes();
}

/// Decoding a record's encoding, followed by anything, gives back the record
/// and the length of its encoding.
pub proof fn lemma_deserialize_serialized(r: LogRecordView, rest: Seq<u8>)
    requires
        round_trips(r),
    ensures
        deserialized(serialized(r) + rest) == Some((r, serialized(r).len())),
{
    lemma_auto_spec_u16_to_from_le_bytes();
    lemma_auto_spec_u32_to_from_le_bytes();
    lemma_auto_spec_u64_to_from_le_bytes();
    lemma_serialized_len(r);
    let b = serialized(r) + rest;
    match r {
        LogRecordView::Insert { txn_id, page_id, offset, data } => {
            assert(b.subrange(1, 9) =~= spec_u64_to_le_bytes(txn_id));
            assert(b.subrange(9, 13) =~= spec_u32_to_le_bytes(page_id.file_id));
            assert(b.subrange(13, 17) =~= spec_u32_to_le_bytes(page_id.page_num));
            assert(b.subrange(17, 19) =~= spec_u16_to_le_bytes(offset));
            assert(b.subrange(19, 23) =~= spec_u32_to_le_bytes(data.len() as u32));
            assert(b.subrange(23, 23 + data.len() as int) =~= data);
            assert(b[0] == 1);
        },
        LogRecordView::Commit { txn_id } => {
            assert(b.subrange(1, 9) =~= spec_u64_to_le_bytes(txn_id));
            assert(b[0] == 2);
        },
        LogRecordView::Abort { txn_id } => {
            assert(b.subrange(1, 9) =~= spec_u64_to_le_bytes(txn_id));
            assert(b[0] == 3);
        },
    }
}

/// Encoding a decoded record gives back the bytes it was decoded from.
pub proof fn lemma_serialize_deserialized(buf: Seq<u8>)
    requires
        deserialized(buf) is Some,
    ensures
        ({
            let (r, n) = deserialized(buf)->0;
            serialized(r) == buf.subrange(0, n as int)
        }),
{
    lemma_auto_spec_u16_to_from_le_bytes();
    lemma_auto_spec_u32_to_from_le_bytes();
    lemma_auto_spec_u64_to_from_le_bytes();
    let (r, n) = deserialized(buf)->0;
    let b = buf.subrange(0, n as int);
    match r {
        LogRecordView::Insert { txn_id, page_id, offset, data } => {
            assert(spec_u64_to_le_bytes(txn_id) == buf.subrange(1, 9));
            assert(spec_u32_to_le_bytes(page_id.file_id) == buf.subrange(9, 13));
            assert(spec_u32_to_le_bytes(page_id.page_num) == buf.subrange(13, 17));
            assert(spec_u16_to_le_bytes(offset) == buf.subrange(17, 19));
            assert(data.len() as u32 == u32_at(buf, 19));
            assert(spec_u32_to_le_bytes(data.len() as u32) == buf.subrange(19, 23));
            assert(serialized(r) =~= b);
        },
        LogRecordView::Commit { txn_id } => {
            assert(spec_u64_to_le_bytes(txn_id) == buf.subrange(1, 9));
            assert(serialized(r) =~= b);
        },
        LogRecordView::Abort { txn_id } => {
            assert(spec_u64_to_le_bytes(txn_id) == buf.subrange(1, 9));
            assert(serialized(r) =~= b);
        },
    }
}

/// The framed records, one after the other.
pub open spec fn log_image(lsns: Seq<LogSequenceNumber>, records: Seq<LogRecordView>) -> Seq<u8>
    decreases records.len(),
{
    if records.len() == 0 {
        Seq::empty()
    } else {
        framed(lsns[0], serialized(records[0])) + log_image(lsns.drop_first(), records.drop_first())
    }
}

/// Recovery reads back every record appended to the log, in order (for
/// records that survive their own encoding).
pub proof fn lemma_recover_appended(lsns: Seq<LogSequenceNumber>, records: Seq<LogRecordView>)
    requires
        lsns.len() == records.len(),
        forall|i: int| 0 <= i < records.len() ==> round_trips(#[trigger] records[i]) && fits_frame(records[i]),
    ensures
        recovered(log_image(lsns, records)) == records,
    decreases records.len(),
{
    if records.len() > 0 {
        lemma_auto_spec_u32_to_from_le_bytes();
        lemma_auto_spec_u64_to_from_le_bytes();
        let r = records[0];
        assert(round_trips(records[0]) && fits_frame(records[0]));
        let p = serialized(r);
        lemma_serialized_len(r);
        let tail = log_image(lsns.drop_first(), records.drop_first());
        assert forall|i: int| 0 <= i < records.drop_first().len() implies round_trips(#[trigger] records.drop_first()[i])
            && fits_frame(records.drop_first()[i]) by {
            assert(records.drop_first()[i] == records[i + 1]);
        }
        lemma_recover_appended(lsns.drop_first(), records.drop_first());
        let buf = framed(lsns[0], p) + tail;
        assert(buf.subrange(0, 4) =~= spec_u32_to_le_bytes(p.len() as u32));
        assert(u32_at(buf, 0) == p.len());
        assert(buf.subrange(12, 12 + p.len() as int) =~= p);
        assert(buf.subrange(12 + p.len() as int, buf.len() as int) =~= tail);
        lemma_deserialize_serialized(r, Seq::empty());
        assert(p + Seq::<u8>::empty() =~= p);
        assert(records =~= seq![r] + records.drop_first());
    }
}

impl LogRecord {
    /// The encoding of the record (see `serialized`).
    pub fn serialize(&self) -> (buf: Vec<u8>)
        ensures
            buf@ == serialized(self@),
    {
        let mut buf: Vec<u8> = Vec::new();
        match self {
            LogRecord::Insert { txn_id, page_id, offset, data } => {
                buf.push(1u8);
                push_all(&mut buf, u64_to_le_bytes(*txn_id).as_slice());
                push_all(&mut buf, u32_to_le_bytes(page_id.file_id).as_slice());
                push_all(&mut buf, u32_to_le_bytes(page_id.page_num).as_slice());
                push_all(&mut buf, u16_to_le_bytes(*offset).as_slice());
                let len = data.len() as u32;
                push_all(&mut buf, u32_to_le_bytes(len).as_slice());
                push_all(&mut buf, data.as_slice());
            },
            LogRecord::Commit { txn_id } => {
                buf.push(2u8);
                push_all(&mut buf, u64_to_le_bytes(*txn_id).as_slice());
            },
            LogRecord::Abort { txn_id } => {
                buf.push(3u8);
                push_all(&mut buf, u64_to_le_bytes(*txn_id).as_slice());
            },
        }
        proof {
            assert(buf@ =~= serialized(self@));
        }
        buf
    }

    /// Reads the record that `buf` starts with; returns it with the number of
    /// bytes it takes, or `None` when `buf` does not start with a whole record.
    pub fn deserialize(buf: &[u8]) -> (r: Option<(Self, usize)>)
        ensures
            match r {
                Some((rec, n)) => deserialized(buf@) == Some((rec@, n as nat)),
                None => deserialized(buf@) is None,
            },
    {
        if buf.len() == 0 {
            return None;
        }
        let tag = buf[0];
        if tag == 1 {
            if buf.len() < 25 {
                return None;
            }
            let txn_id = read_u64(buf, 1);
            let file_id = read_u32(buf, 9);
            let page_num = read_u32(buf, 13);
            let offset = read_u16(buf, 17);
            let len = read_u32(buf, 19) as usize;
            if buf.len() - 23 < len {
                return None;
            }
            let data = slice_to_vec(slice_subrange(buf, 23, 23 + len));
            Some((LogRecord::Insert { txn_id, page_id: PageId { file_id, page_num }, offset, data }, 23 + len))
        } else if tag == 2 {
            if buf.len() < 9 {
                return None;
            }
            let txn_id = read_u64(buf, 1);
            Some((LogRecord::Commit { txn_id }, 9))
        } else if tag == 3 {
            if buf.len() < 9 {
                return None;
            }
            let txn_id = read_u64(buf, 1);
            Some((LogRecord::Abort { txn_id }, 9))
        } else {
            None
        }
    }
}

/// The log sequence numbers of a log: the next one to hand out and the last
/// one known to be on stable storage. The log file itself is written by the
/// caller, with the bytes that `append_record` returns.
pub struct LogManager {
    next_lsn: u64,
    flushed_lsn: u64,
}

impl LogManager {
    /// The next log sequence number to hand out.
    pub closed spec fn next_lsn_view(&self) -> u64 {
        self.next_lsn
    }

    /// The last log sequence number known to be on stable storage.
    pub closed spec fn flushed_lsn_view(&self) -> u64 {
        self.flushed_lsn
    }

    /// The numbering of a log file of `file_len` bytes: the file length is
    /// taken as the last flushed number.
    pub fn new(file_len: u64) -> (r: Self)
        requires
            file_len < u64::MAX,
        ensures
            r.next_lsn_view() == file_len + 1,
            r.flushed_lsn_view() == file_len,
    {
        LogManager { next_lsn: file_len + 1, flushed_lsn: file_len }
    }

    /// Hands out the next log sequence number for `record` (wrapping around
    /// after `u64::MAX` as an atomic counter does) and returns it with the
    /// bytes to append to the log file.
    pub fn append_record(&mut self, record: &LogRecord) -> (r: (LogSequenceNumber, Vec<u8>))
        ensures
            r.0 == old(self).next_lsn_view(),
            r.1@ == framed(r.0, serialized(record@)),
            final(self).next_lsn_view() == (if old(self).next_lsn_view() == u64::MAX {
                0
            } else {
                (old(self).next_lsn_view() + 1) as u64
            }),
            final(self).flushed_lsn_view() == old(self).flushed_lsn_view(),
    {
        let serialized_bytes = record.serialize();
        let size = serialized_bytes.len() as u32;
        let lsn = self.next_lsn;
        self.next_lsn = self.next_lsn.wrapping_add(1);
        let mut frame: Vec<u8> = Vec::new();
        push_all(&mut frame, u32_to_le_bytes(size).as_slice());
        push_all(&mut frame, u64_to_le_bytes(lsn).as_slice());
        push_all(&mut frame, serialized_bytes.as_slice());
        proof {
            assert(frame@ =~= framed(lsn, serialized(record@)));
        }
        (lsn, frame)
    }

    /// Records that everything handed out so far is on stable storage (to be
    /// called once the log file is synced).
    pub fn flush(&mut self)
        requires
            old(self).next_lsn_view() > 0,
        ensures
            final(self).flushed_lsn_view() == old(self).next_lsn_view() - 1,
            final(self).next_lsn_view() == old(self).next_lsn_view(),
    {
        self.flushed_lsn = self.next_lsn - 1;
    }

    /// The next log sequence number to hand out.
    pub fn get_next_lsn(&self) -> (r: LogSequenceNumber)
        ensures
            r == self.next_lsn_view(),
    {
        self.next_lsn
    }

    /// The last log sequence number known to be on stable storage.
    pub fn get_flushed_lsn(&self) -> (r: LogSequenceNumber)
        ensures
            r == self.flushed_lsn_view(),
    {
        self.flushed_lsn
    }
}

/// Reads the records back from a log file.
pub struct RecoveryManager;

impl RecoveryManager {
    /// The records of a log file whose bytes are `buf` (see `recovered`).
    pub fn recover_records(buf: &[u8]) -> (r: Vec<LogRecord>)
        ensures
            r@.map_values(|x: LogRecord| x@) == recovered(buf@),
    {
        let mut records: Vec<LogRecord> = Vec::new();
        let mut cursor: usize = 0;
        let n = buf.len();
        proof {
            assert(buf@.subrange(0, n as int) =~= buf@);
            assert(records@.map_values(|x: LogRecord| x@) + recovered(buf@) =~= recovered(buf@));
        }
        while n - cursor >= 12
            invariant
                n == buf@.len(),
                cursor <= n,
                records@.map_values(|x: LogRecord| x@) + recovered(buf@.subrange(cursor as int, n as int))
                    == recovered(buf@),
            ensures
                records@.map_values(|x: LogRecord| x@) == recovered(buf@),
            decreases n - cursor,
        {
            let ghost rest = buf@.subrange(cursor as int, n as int);
            let size = read_u32(buf, cursor) as usize;
            proof {
                assert(rest.subrange(0, 4) =~= buf@.subrange(cursor as int, cursor + 4));
            }
            if size > n - cursor - 12 {
                proof {
                    assert(recovered(rest) == Seq::<LogRecordView>::empty());
                    assert(records@.map_values(|x: LogRecord| x@) + Seq::<LogRecordView>::empty()
                        =~= records@.map_values(|x: LogRecord| x@));
                }
                break;
            }
            cursor = cursor + 12;
            let payload = slice_subrange(buf, cursor, cursor + size);
            let ghost old_records = records@;
            match LogRecord::deserialize(payload) {
                Some((record, _)) => {
                    records.push(record);
                    proof {
                        assert(records@.map_values(|x: LogRecord| x@) =~= old_records.map_values(|x: LogRecord| x@).push(record@));
                    }
                },
                None => {},
            }
            cursor = cursor + size;
            proof {
                assert(rest.subrange(12, 12 + size as int) =~= payload@);
                assert(rest.subrange(12 + size as int, rest.len() as int) =~= buf@.subrange(cursor as int, n as int));
                assert(records@.map_values(|x: LogRecord| x@) + recovered(buf@.subrange(cursor as int, n as int))
                    =~= old_records.map_values(|x: LogRecord| x@) + recovered(rest));
            }
        }
        records
    }
}

} // verus!
