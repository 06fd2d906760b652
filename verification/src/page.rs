use vstd::prelude::*;
use vstd::bytes::*;
use vstd::slice::slice_subrange;
use crate::storage::{DiskManager, PageId, StorageError};
use crate::tx::TransactionId;
use crate::codec::{write_at, u16_at, u64_at, lemma_write_at_outside, lemma_write_at_inside, write_bytes, write_u16, write_u64, read_u16, read_u64};

verus! {

broadcast use vstd::seq_lib::group_seq_properties;

/// Size in bytes of the page header at the start of every slotted page.
pub const HEADER_SIZE: usize = 16;

/// Size in bytes of one entry of the slot array.
pub const SLOT_SIZE: usize = 4;

/// One entry of the slot array: where a record starts and how long it is.
/// A length of zero marks an empty slot.
#[derive(Debug, Clone, Copy)]
pub struct PageSlot {
    pub offset: u16,
    pub length: u16,
}

/// The header stored in the first `HEADER_SIZE` bytes of a page, little endian:
/// the log sequence number (8 bytes), the number of slots, the end of the slot
/// array, the start of the record area and the page flags (2 bytes each).
#[derive(Debug, Clone, Copy)]
pub struct SlottedPageHeader {
    pub log_sequence_number: u64,
    pub total_slots: u16,
    pub free_space_lower: u16,
    pub free_space_upper: u16,
    pub page_flags: u16,
}

/// The versioning header of a tuple: the transaction that created it and the
/// one that deleted it (`INVALID_TXN_ID` while it is not deleted).
#[derive(Debug, Clone, Copy)]
pub struct TupleHeader {
    pub xmin: TransactionId,
    pub xmax: TransactionId,
}

/// A page of `PAGE_SIZE` bytes: header, then the slot array growing upwards,
/// then free space, then records growing downwards from the end of the page.
/// The page always holds exactly `PAGE_SIZE` bytes.
pub struct SlottedPage<const PAGE_SIZE: usize> {
    data: Vec<u8>,
}

/// The encoding of a header.
pub open spec fn header_bytes(h: SlottedPageHeader) -> Seq<u8> {
    spec_u64_to_le_bytes(h.log_sequence_number) + spec_u16_to_le_bytes(h.total_slots)
        + spec_u16_to_le_bytes(h.free_space_lower) + spec_u16_to_le_bytes(h.free_space_upper)
        + spec_u16_to_le_bytes(h.page_flags)
}

/// The encoding of a slot.
pub open spec fn slot_bytes(s: PageSlot) -> Seq<u8> {
    spec_u16_to_le_bytes(s.offset) + spec_u16_to_le_bytes(s.length)
}

/// The header that page bytes hold.
pub open spec fn header_of(s: Seq<u8>) -> SlottedPageHeader {
    SlottedPageHeader {
        log_sequence_number: u64_at(s, 0),
        total_slots: u16_at(s, 8),
        free_space_lower: u16_at(s, 10),
        free_space_upper: u16_at(s, 12),
        page_flags: u16_at(s, 14),
    }
}

/// Position of slot `i` in the page.
pub open spec fn slot_pos(i: int) -> int {
    HEADER_SIZE + SLOT_SIZE * i
}

/// The slot `i` that page bytes hold.
pub open spec fn slot_of(s: Seq<u8>, i: int) -> PageSlot {
    PageSlot { offset: u16_at(s, slot_pos(i)), length: u16_at(s, slot_pos(i) + 2) }
}

/// The header of a freshly initialised page.
pub open spec fn initial_header(page_size: int) -> SlottedPageHeader {
    SlottedPageHeader {
        log_sequence_number: 0,
        total_slots: 0,
        free_space_lower: HEADER_SIZE as u16,
        free_space_upper: page_size as u16,
        page_flags: 0,
    }
}

/// The record stored in slot `i`, if the slot exists and is not empty.
pub open spec fn record_of(s: Seq<u8>, i: int) -> Option<Seq<u8>> {
    let h = header_of(s);
    if 0 <= i < h.total_slots && slot_of(s, i).length != 0 {
        let sl = slot_of(s, i);
        Some(s.subrange(sl.offset as int, sl.offset + sl.length))
    } else {
        None
    }
}

/// The slot array and every record lie where the header says: the slot array
/// fills `[HEADER_SIZE, free_space_lower)`, the records lie in
/// `[free_space_upper, page_size)`.
pub open spec fn page_consistent(s: Seq<u8>, page_size: int) -> bool {
    let h = header_of(s);
    &&& s.len() == page_size
    &&& page_size <= u16::MAX
    &&& HEADER_SIZE <= h.free_space_lower <= h.free_space_upper <= page_size
    &&& h.free_space_lower == slot_pos(h.total_slots as int)
    &&& forall|j: int|
        0 <= j < h.total_slots ==> {
            let sl = #[trigger] slot_of(s, j);
            sl.length == 0 || (h.free_space_upper <= sl.offset && sl.offset + sl.length
                <= page_size)
        }
}

/// The bytes of a page after inserting `record` into a page whose bytes are `s`
/// and whose header is `h`: the record is copied below the record area, then
/// the header is rewritten, then the new slot is written after the old ones.
pub open spec fn inserted_bytes(s: Seq<u8>, record: Seq<u8>) -> Seq<u8> {
    let h = header_of(s);
    let new_offset = (h.free_space_upper - record.len()) as u16;
    let new_h = SlottedPageHeader {
        total_slots: (h.total_slots + 1) as u16,
        free_space_upper: new_offset,
        free_space_lower: (h.free_space_lower + SLOT_SIZE) as u16,
        ..h
    };
    let with_record = write_at(s, new_offset as int, record);
    let with_header = write_at(with_record, 0, header_bytes(new_h));
    write_at(
        with_header,
        slot_pos(h.total_slots as int),
        slot_bytes(PageSlot { offset: new_offset, length: record.len() as u16 }),
    )
}

/// A header written at the start of a page reads back as written.
pub proof fn lemma_header_roundtrip(s: Seq<u8>, h: SlottedPageHeader)
    requires
        s.len() >= HEADER_SIZE,
    ensures
        header_of(write_at(s, 0, header_bytes(h))) == h,
        write_at(s, 0, header_bytes(h)).len() == s.len(),
{
    lemma_auto_spec_u16_to_from_le_bytes();
    lemma_auto_spec_u32_to_from_le_bytes();
    lemma_auto_spec_u64_to_from_le_bytes();
    let t = write_at(s, 0, header_bytes(h));
    let hb = header_bytes(h);
    assert(hb.len() == 16);
    assert(t.subrange(0, 8) =~= spec_u64_to_le_bytes(h.log_sequence_number));
    assert(t.subrange(8, 10) =~= spec_u16_to_le_bytes(h.total_slots));
    assert(t.subrange(10, 12) =~= spec_u16_to_le_bytes(h.free_space_lower));
    assert(t.subrange(12, 14) =~= spec_u16_to_le_bytes(h.free_space_upper));
    assert(t.subrange(14, 16) =~= spec_u16_to_le_bytes(h.page_flags));
}

/// Pages that agree on their first `HEADER_SIZE` bytes have the same header.
pub proof fn lemma_header_unchanged(s: Seq<u8>, t: Seq<u8>)
    requires
        s.len() >= HEADER_SIZE,
        t.len() >= HEADER_SIZE,
        s.subrange(0, HEADER_SIZE as int) == t.subrange(0, HEADER_SIZE as int),
    ensures
        header_of(s) == header_of(t),
{
    assert(s.subrange(0, 8) =~= s.subrange(0, 16).subrange(0, 8));
    assert(t.subrange(0, 8) =~= t.subrange(0, 16).subrange(0, 8));
    assert(s.subrange(8, 10) =~= s.subrange(0, 16).subrange(8, 10));
    assert(t.subrange(8, 10) =~= t.subrange(0, 16).subrange(8, 10));
    assert(s.subrange(10, 12) =~= s.subrange(0, 16).subrange(10, 12));
    assert(t.subrange(10, 12) =~= t.subrange(0, 16).subrange(10, 12));
    assert(s.subrange(12, 14) =~= s.subrange(0, 16).subrange(12, 14));
    assert(t.subrange(12, 14) =~= t.subrange(0, 16).subrange(12, 14));
    assert(s.subrange(14, 16) =~= s.subrange(0, 16).subrange(14, 16));
    assert(t.subrange(14, 16) =~= t.subrange(0, 16).subrange(14, 16));
}

/// A slot written at its place reads back as written.
pub proof fn lemma_slot_roundtrip(s: Seq<u8>, i: int, sl: PageSlot)
    requires
        0 <= i,
        slot_pos(i) + SLOT_SIZE <= s.len(),
    ensures
        slot_of(write_at(s, slot_pos(i), slot_bytes(sl)), i) == sl,
{
    lemma_auto_spec_u16_to_from_le_bytes();
    let t = write_at(s, slot_pos(i), slot_bytes(sl));
    assert(t.subrange(slot_pos(i), slot_pos(i) + 2) =~= spec_u16_to_le_bytes(sl.offset));
    assert(t.subrange(slot_pos(i) + 2, slot_pos(i) + 4) =~= spec_u16_to_le_bytes(sl.length));
}

/// Writes the encoding of `h` over the first `HEADER_SIZE` bytes of `data`.
fn write_header(data: &mut Vec<u8>, h: &SlottedPageHeader)
    requires
        HEADER_SIZE <= old(data)@.len(),
    ensures
        final(data)@ == write_at(old(data)@, 0, header_bytes(*h)),
        final(data)@.len() == old(data)@.len(),
{
    let ghost s0 = data@;
    proof {
        lemma_auto_spec_u16_to_from_le_bytes();
        lemma_auto_spec_u32_to_from_le_bytes();
        lemma_auto_spec_u64_to_from_le_bytes();
    }
    write_u64(data, 0, h.log_sequence_number);
    write_u16(data, 8, h.total_slots);
    write_u16(data, 10, h.free_space_lower);
    write_u16(data, 12, h.free_space_upper);
    write_u16(data, 14, h.page_flags);
    assert(data@ =~= write_at(s0, 0, header_bytes(*h)));
}

impl<const PAGE_SIZE: usize> SlottedPage<PAGE_SIZE> {
    /// The page holds exactly `PAGE_SIZE` bytes, and `PAGE_SIZE` leaves room
    /// for the header and fits the 16-bit offsets. Every operation keeps it.
    pub closed spec fn wf(&self) -> bool {
        &&& self.data@.len() == PAGE_SIZE
        &&& HEADER_SIZE <= PAGE_SIZE <= u16::MAX
    }

    /// The bytes of the page.
    pub closed spec fn bytes(&self) -> Seq<u8> {
        self.data@
    }

    /// The header that the page bytes hold.
    pub open spec fn header_view(&self) -> SlottedPageHeader {
        header_of(self.bytes())
    }

    /// The page holds `PAGE_SIZE` bytes, and `PAGE_SIZE` leaves room for the
    /// header and fits the 16-bit offsets.
    pub fn size_facts(&self)
        requires
            self.wf(),
        ensures
            self.bytes().len() == PAGE_SIZE,
            HEADER_SIZE <= PAGE_SIZE <= u16::MAX,
    {
    }

    /// The bytes of the page.
    pub fn data(&self) -> (r: &[u8])
        ensures
            r@ == self.bytes(),
    {
        self.data.as_slice()
    }

    /// A page holding `bytes`.
    pub fn from_bytes(bytes: Vec<u8>) -> (page: Self)
        requires
            bytes@.len() == PAGE_SIZE,
            HEADER_SIZE <= PAGE_SIZE <= u16::MAX,
        ensures
            page.wf(),
            page.bytes() == bytes@,
    {
        SlottedPage { data: bytes }
    }

    /// Copies `w` into the page at `pos`.
    pub fn write_raw(&mut self, pos: usize, w: &[u8])
        requires
            old(self).wf(),
            pos + w@.len() <= PAGE_SIZE,
        ensures
            final(self).wf(),
            final(self).bytes() == write_at(old(self).bytes(), pos as int, w@),
    {
        write_bytes(&mut self.data, pos, w);
    }

    /// Reads the page `page_id` from `disk` into this page.
    pub fn read_from<D: DiskManager<PAGE_SIZE>>(&mut self, disk: &D, page_id: PageId) -> (r: Result<(), StorageError>)
        requires
            old(self).wf(),
        ensures
            final(self).wf(),
            r is Ok ==> disk.pages().contains_key(page_id) ==> final(self).bytes() == disk.pages()[page_id],
    {
        disk.read_page(page_id, &mut self.data)
    }

    /// Writes this page to the page `page_id` of `disk`.
    pub fn write_to<D: DiskManager<PAGE_SIZE>>(&self, disk: &mut D, page_id: PageId) -> (r: Result<(), StorageError>)
        requires
            self.wf(),
        ensures
            r is Ok ==> final(disk).pages() == old(disk).pages().insert(page_id, self.bytes()),
    {
        disk.write_page(page_id, &self.data)
    }

    /// A zeroed page with a fresh header: no slots, the whole space between the
    /// header and the end of the page free.
    pub fn new() -> (page: Self)
        requires
            HEADER_SIZE <= PAGE_SIZE <= u16::MAX,
        ensures
            page.wf(),
            page.bytes() == header_bytes(initial_header(PAGE_SIZE as int)) + Seq::new(
                (PAGE_SIZE - HEADER_SIZE) as nat,
                |i: int| 0u8,
            ),
            page.header_view() == initial_header(PAGE_SIZE as int),
            page_consistent(page.bytes(), PAGE_SIZE as int),
    {
        let mut data: Vec<u8> = Vec::new();
        let mut i: usize = 0;
        while i < PAGE_SIZE
            invariant
                i <= PAGE_SIZE,
                data@.len() == i,
                forall|k: int| 0 <= k < i ==> data@[k] == 0u8,
            decreases PAGE_SIZE - i,
        {
            data.push(0u8);
            i = i + 1;
        }
        let mut page = SlottedPage { data };
        page.init();
        let ghost d = data@;
        proof {
            let z = Seq::new(PAGE_SIZE as nat, |i: int| 0u8);
            assert(data@ =~= z);
            assert(z.subrange(HEADER_SIZE as int, PAGE_SIZE as int) =~= Seq::new(
                (PAGE_SIZE - HEADER_SIZE) as nat,
                |i: int| 0u8,
            ));
            lemma_header_roundtrip(z, initial_header(PAGE_SIZE as int));
        }
        page
    }

    /// Writes a fresh header (no slots, everything free) over the page header;
    /// the rest of the page is left as it is.
    pub fn init(&mut self)
        requires
            old(self).wf(),
        ensures
            final(self).wf(),
            final(self).bytes() == header_bytes(initial_header(PAGE_SIZE as int)) + old(
                self,
            ).bytes().subrange(HEADER_SIZE as int, PAGE_SIZE as int),
            final(self).header_view() == initial_header(PAGE_SIZE as int),
    {
        let h = SlottedPageHeader {
            log_sequence_number: 0,
            total_slots: 0,
            free_space_lower: HEADER_SIZE as u16,
            free_space_upper: PAGE_SIZE as u16,
            page_flags: 0,
            };
        let ghost s0 = self.data@;
        write_header(&mut self.data, &h);
        proof {
            lemma_header_roundtrip(s0, h);
            lemma_auto_spec_u16_to_from_le_bytes();
            lemma_auto_spec_u32_to_from_le_bytes();
            lemma_auto_spec_u64_to_from_le_bytes();
            assert(header_bytes(h).len() == HEADER_SIZE);
            assert(self.data@ =~= header_bytes(h) + s0.subrange(HEADER_SIZE as int, PAGE_SIZE as int));
        }
    }

    /// The header stored in the page.
    pub fn header(&self) -> (h: SlottedPageHeader)
        requires
            self.wf(),
        ensures
            h == self.header_view(),
    {
        let d = self.data.as_slice();
        SlottedPageHeader {
            log_sequence_number: read_u64(d, 0),
            total_slots: read_u16(d, 8),
            free_space_lower: read_u16(d, 10),
            free_space_upper: read_u16(d, 12),
            page_flags: read_u16(d, 14),
        }
    }

    /// Replaces the header stored in the page; the rest of the page is kept.
    pub fn set_header(&mut self, h: SlottedPageHeader)
        requires
            old(self).wf(),
        ensures
            final(self).wf(),
            final(self).bytes() == write_at(old(self).bytes(), 0, header_bytes(h)),
            final(self).header_view() == h,
    {
        let ghost s0 = self.data@;
        write_header(&mut self.data, &h);
        proof {
            lemma_header_roundtrip(s0, h);
        }
    }

    /// The slot array, as many entries as the header counts.
    pub fn slots(&self) -> (r: Vec<PageSlot>)
        requires
            self.wf(),
            slot_pos(self.header_view().total_slots as int) <= PAGE_SIZE,
        ensures
            r@.len() == self.header_view().total_slots,
            forall|i: int| 0 <= i < r@.len() ==> #[trigger] r@[i] == slot_of(self.bytes(), i),
    {
        let total = self.header().total_slots as usize;
        let d = self.data.as_slice();
        let mut r: Vec<PageSlot> = Vec::new();
        let mut i: usize = 0;
        while i < total
            invariant
                i <= total,
                total == self.header_view().total_slots,
                d@ == self.data@,
                slot_pos(total as int) <= d@.len(),
                r@.len() == i,
                forall|k: int| 0 <= k < i ==> #[trigger] r@[k] == slot_of(d@, k),
            decreases total - i,
        {
            let p = HEADER_SIZE + SLOT_SIZE * i;
            let s = PageSlot { offset: read_u16(d, p), length: read_u16(d, p + 2) };
            r.push(s);
            i = i + 1;
        }
        r
    }

    /// Overwrites slot `slot_idx` of the slot array.
    pub fn set_slot(&mut self, slot_idx: usize, slot: PageSlot)
        requires
            old(self).wf(),
            slot_idx < old(self).header_view().total_slots,
            slot_pos(old(self).header_view().total_slots as int) <= PAGE_SIZE,
        ensures
            final(self).wf(),
            final(self).bytes() == write_at(
                old(self).bytes(),
                slot_pos(slot_idx as int),
                slot_bytes(slot),
            ),
            slot_of(final(self).bytes(), slot_idx as int) == slot,
    {
        let ghost s0 = self.data@;
        let p = HEADER_SIZE + SLOT_SIZE * slot_idx;
        write_u16(&mut self.data, p, slot.offset);
        write_u16(&mut self.data, p + 2, slot.length);
        proof {
            lemma_auto_spec_u16_to_from_le_bytes();
            assert(self.data@ =~= write_at(s0, slot_pos(slot_idx as int), slot_bytes(slot)));
            lemma_slot_roundtrip(s0, slot_idx as int, slot);
        }
    }

    /// The bytes of the record in slot `slot_idx`, or `None` when the slot does
    /// not exist or is empty.
    pub fn get_record(&self, slot_idx: usize) -> (r: Option<&[u8]>)
        requires
            self.wf(),
            slot_pos(self.header_view().total_slots as int) <= PAGE_SIZE,
            slot_idx < self.header_view().total_slots ==> {
                let sl = slot_of(self.bytes(), slot_idx as int);
                sl.length == 0 || sl.offset + sl.length <= PAGE_SIZE
            },
        ensures
            match r {
                Some(bytes) => record_of(self.bytes(), slot_idx as int) == Some(bytes@),
                None => record_of(self.bytes(), slot_idx as int) is None,
            },
    {
        let total = self.header().total_slots as usize;
        if slot_idx >= total {
            return None;
        }
        let d = self.data.as_slice();
        let p = HEADER_SIZE + SLOT_SIZE * slot_idx;
        let offset = read_u16(d, p);
        let length = read_u16(d, p + 2);
        if length == 0 {
            return None;
        }
        let start = offset as usize;
        let end = start + length as usize;
        Some(slice_subrange(d, start, end))
    }

    /// Stores `record` below the record area and appends a slot for it.
    /// Returns the new slot's index, or `None` (page unchanged) when the free
    /// space cannot hold the record and its slot.
    pub fn insert_record(&mut self, record: &[u8]) -> (r: Option<usize>)
        requires
            old(self).wf(),
            old(self).header_view().free_space_lower <= old(self).header_view().free_space_upper,
            record@.len() + SLOT_SIZE <= old(self).header_view().free_space_upper
                - old(self).header_view().free_space_lower ==> {
                &&& old(self).header_view().free_space_upper <= PAGE_SIZE
                &&& old(self).header_view().total_slots < u16::MAX
                &&& slot_pos(old(self).header_view().total_slots + 1) <= PAGE_SIZE
            },
        ensures
            final(self).wf(),
            ({
                let h = old(self).header_view();
                let fits = record@.len() + SLOT_SIZE <= h.free_space_upper - h.free_space_lower;
                match r {
                    Some(i) => {
                        &&& fits
                        &&& i == h.total_slots
                        &&& final(self).bytes() == inserted_bytes(old(self).bytes(), record@)
                    },
                    None => !fits && final(self).bytes() == old(self).bytes(),
                }
            }),
    {
        let record_len = record.len();
        let mut h = self.header();
        let free_space = h.free_space_upper - h.free_space_lower;
        if record_len > free_space as usize || free_space as usize - record_len < SLOT_SIZE {
            return None;
        }
        let ghost s0 = self.data@;
        let ghost h0 = h;
        let slot_idx = h.total_slots as usize;
        let new_offset = h.free_space_upper - record_len as u16;

        write_bytes(&mut self.data, new_offset as usize, record);

        h.total_slots = h.total_slots + 1;
        h.free_space_upper = new_offset;
        h.free_space_lower = h.free_space_lower + SLOT_SIZE as u16;
        write_header(&mut self.data, &h);

        let p = HEADER_SIZE + SLOT_SIZE * slot_idx;
        let ghost s2 = self.data@;
        write_u16(&mut self.data, p, new_offset);
        write_u16(&mut self.data, p + 2, record_len as u16);
        proof {
            lemma_auto_spec_u16_to_from_le_bytes();
            let sl = PageSlot { offset: new_offset, length: record_len as u16 };
            assert(self.data@ =~= write_at(s2, slot_pos(slot_idx as int), slot_bytes(sl)));
            assert(self.data@ =~= inserted_bytes(s0, record@));
        }
        Some(slot_idx)
    }
}

impl<const PAGE_SIZE: usize> SlottedPage<PAGE_SIZE> {
    /// Reading back a record just inserted gives the record, every record that
    /// was in the page before reads the same, and the page stays consistent.
    pub proof fn lemma_insert_then_get(s: Seq<u8>, record: Seq<u8>)
        requires
            page_consistent(s, PAGE_SIZE as int),
            record.len() + SLOT_SIZE <= header_of(s).free_space_upper - header_of(
                s,
            ).free_space_lower,
            header_of(s).total_slots < u16::MAX,
        ensures
            ({
                let t = inserted_bytes(s, record);
                let i = header_of(s).total_slots as int;
                &&& page_consistent(t, PAGE_SIZE as int)
                &&& header_of(t).total_slots == i + 1
                &&& record.len() > 0 ==> record_of(t, i) == Some(record)
                &&& record.len() == 0 ==> record_of(t, i) is None
                &&& forall|j: int| 0 <= j < i ==> #[trigger] record_of(t, j) == record_of(s, j)
            }),
    {
        lemma_insert_consistent(s, record, PAGE_SIZE as int);
    }
}

/// The header leaves the slot array and the record area inside a page of
/// `page_size` bytes, with room for one more slot number.
pub open spec fn header_sane(h: SlottedPageHeader, page_size: int) -> bool {
    &&& HEADER_SIZE <= h.free_space_lower <= h.free_space_upper <= page_size
    &&& h.free_space_lower == slot_pos(h.total_slots as int)
    &&& h.total_slots < u16::MAX
}

/// Slot `i` of the page bytes `s` can be read without leaving the page.
pub open spec fn slot_readable(s: Seq<u8>, i: int, page_size: int) -> bool {
    let h = header_of(s);
    &&& slot_pos(h.total_slots as int) <= page_size
    &&& 0 <= i < h.total_slots ==> {
        let sl = slot_of(s, i);
        sl.length == 0 || sl.offset + sl.length <= page_size
    }
}

/// Inserting into a page whose header is sane stores the record in the new
/// slot, where it can be read back, and leaves the header sane up to its slot
/// count.
pub proof fn lemma_insert_readback(s: Seq<u8>, record: Seq<u8>, n: int)
    requires
        s.len() == n,
        n <= u16::MAX,
        header_sane(header_of(s), n),
        0 < record.len(),
        record.len() + SLOT_SIZE <= header_of(s).free_space_upper - header_of(s).free_space_lower,
    ensures
        ({
            let t = inserted_bytes(s, record);
            let h = header_of(s);
            let i = h.total_slots as int;
            &&& t.len() == n
            &&& record_of(t, i) == Some(record)
            &&& slot_readable(t, i, n)
            &&& header_of(t).total_slots == i + 1
            &&& header_of(t).free_space_lower == h.free_space_lower + SLOT_SIZE
            &&& header_of(t).free_space_upper == h.free_space_upper - record.len()
            &&& header_of(t).free_space_lower <= header_of(t).free_space_upper
        }),
{
    let h = header_of(s);
    let i = h.total_slots as int;
    let new_offset = (h.free_space_upper - record.len()) as u16;
    let new_h = SlottedPageHeader {
        total_slots: (h.total_slots + 1) as u16,
        free_space_upper: new_offset,
        free_space_lower: (h.free_space_lower + SLOT_SIZE) as u16,
        ..h
    };
    let sl = PageSlot { offset: new_offset, length: record.len() as u16 };
    let t1 = write_at(s, new_offset as int, record);
    let t2 = write_at(t1, 0, header_bytes(new_h));
    let t = write_at(t2, slot_pos(i), slot_bytes(sl));
    lemma_auto_spec_u16_to_from_le_bytes();
    lemma_auto_spec_u32_to_from_le_bytes();
    lemma_auto_spec_u64_to_from_le_bytes();
    assert(header_bytes(new_h).len() == 16);
    assert(slot_bytes(sl).len() == 4);
    lemma_header_roundtrip(t1, new_h);
    lemma_write_at_outside(t2, slot_pos(i), slot_bytes(sl), 0, HEADER_SIZE as int);
    lemma_header_unchanged(t2, t);
    lemma_slot_roundtrip(t2, i, sl);
    lemma_write_at_inside(s, new_offset as int, record);
    lemma_write_at_outside(t1, 0, header_bytes(new_h), new_offset as int, new_offset + record.len());
    lemma_write_at_outside(t2, slot_pos(i), slot_bytes(sl), new_offset as int, new_offset + record.len());
}

proof fn lemma_insert_consistent(s: Seq<u8>, record: Seq<u8>, n: int)
    requires
        page_consistent(s, n),
        record.len() + SLOT_SIZE <= header_of(s).free_space_upper - header_of(s).free_space_lower,
        header_of(s).total_slots < u16::MAX,
    ensures
        ({
            let t = inserted_bytes(s, record);
            let i = header_of(s).total_slots as int;
            &&& page_consistent(t, n)
            &&& header_of(t).total_slots == i + 1
            &&& record.len() > 0 ==> record_of(t, i) == Some(record)
            &&& record.len() == 0 ==> record_of(t, i) is None
            &&& forall|j: int| 0 <= j < i ==> #[trigger] record_of(t, j) == record_of(s, j)
        }),
{
    let h = header_of(s);
    let i = h.total_slots as int;
    let new_offset = (h.free_space_upper - record.len()) as u16;
    let new_h = SlottedPageHeader {
        total_slots: (h.total_slots + 1) as u16,
        free_space_upper: new_offset,
        free_space_lower: (h.free_space_lower + SLOT_SIZE) as u16,
        ..h
    };
    let sl = PageSlot { offset: new_offset, length: record.len() as u16 };
    let t1 = write_at(s, new_offset as int, record);
    let t2 = write_at(t1, 0, header_bytes(new_h));
    let t = write_at(t2, slot_pos(i), slot_bytes(sl));
    lemma_auto_spec_u16_to_from_le_bytes();
    lemma_auto_spec_u32_to_from_le_bytes();
    lemma_auto_spec_u64_to_from_le_bytes();
    assert(header_bytes(new_h).len() == 16);
    assert(slot_bytes(sl).len() == 4);
    lemma_header_roundtrip(t1, new_h);
    lemma_write_at_outside(t2, slot_pos(i), slot_bytes(sl), 0, HEADER_SIZE as int);
    lemma_header_unchanged(t2, t);
    assert(header_of(t) == new_h);
    lemma_slot_roundtrip(t2, i, sl);
    // the new record survives the header and slot writes
    lemma_write_at_inside(s, new_offset as int, record);
    lemma_write_at_outside(t1, 0, header_bytes(new_h), new_offset as int, new_offset + record.len());
    lemma_write_at_outside(t2, slot_pos(i), slot_bytes(sl), new_offset as int, new_offset + record.len());
    assert forall|j: int| 0 <= j < i implies #[trigger] slot_of(t, j) == slot_of(s, j) && record_of(t, j) == record_of(s, j) by {
        lemma_write_at_outside(s, new_offset as int, record, slot_pos(j), slot_pos(j) + 2);
        lemma_write_at_outside(s, new_offset as int, record, slot_pos(j) + 2, slot_pos(j) + 4);
        lemma_write_at_outside(t1, 0, header_bytes(new_h), slot_pos(j), slot_pos(j) + 2);
        lemma_write_at_outside(t1, 0, header_bytes(new_h), slot_pos(j) + 2, slot_pos(j) + 4);
        lemma_write_at_outside(t2, slot_pos(i), slot_bytes(sl), slot_pos(j), slot_pos(j) + 2);
        lemma_write_at_outside(t2, slot_pos(i), slot_bytes(sl), slot_pos(j) + 2, slot_pos(j) + 4);
        let sj = slot_of(s, j);
        if sj.length != 0 {
            lemma_write_at_outside(s, new_offset as int, record, sj.offset as int, sj.offset + sj.length);
            lemma_write_at_outside(t1, 0, header_bytes(new_h), sj.offset as int, sj.offset + sj.length);
            lemma_write_at_outside(t2, slot_pos(i), slot_bytes(sl), sj.offset as int, sj.offset + sj.length);
        }
    }
    assert forall|j: int| 0 <= j < new_h.total_slots implies {
        let sl2 = #[trigger] slot_of(t, j);
        sl2.length == 0 || (new_h.free_space_upper <= sl2.offset && sl2.offset + sl2.length <= n)
    } by {
        if j < i {
            assert(slot_of(t, j) == slot_of(s, j));
        }
    }
}

} // verus!
