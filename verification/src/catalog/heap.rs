use vstd::prelude::*;
use vstd::bytes::*;
use vstd::slice::{slice_subrange, slice_to_vec};
use std::collections::HashMap;
use crate::buffer::BufferError;
use crate::buffer::buffer_pool::{
    BufferPoolManager, release, images_kept, kept_image, images_stay, lemma_marking_keeps_images,
    lemma_writing_keeps_images,
};
use crate::buffer::replacer::ReplacementPolicy;
use crate::codec::{u64_at, push_all, read_u64};
use crate::page::{
    TupleHeader, SlottedPage, SlottedPageHeader, HEADER_SIZE, SLOT_SIZE, header_of, record_of,
    slot_of, slot_pos, header_sane, slot_readable, inserted_bytes, initial_header,
    lemma_insert_readback, page_consistent,
};
use crate::storage::{DiskManager, PageId, CTID};

verus! {

broadcast use vstd::std_specs::hash::group_hash_axioms;

/// A tuple of the table heap: its versioning header and its bytes.
pub struct Tuple {
    pub header: TupleHeader,
    pub data: Vec<u8>,
}

/// How much free space each page of a table heap has, in bytes.
pub struct FreeSpaceMap {
    /// Page number to free space.
    pub space_map: HashMap<u32, u16>,
}

impl FreeSpaceMap {
    /// An empty map.
    pub fn new() -> (r: Self)
        ensures
            r.space_map@ == Map::<u32, u16>::empty(),
    {
        FreeSpaceMap { space_map: HashMap::new() }
    }

    /// Records the free space of a page.
    pub fn update(&mut self, page_num: u32, free_space: u16)
        ensures
            final(self).space_map@ == old(self).space_map@.insert(page_num, free_space),
    {
        self.space_map.insert(page_num, free_space);
    }

    /// A page with at least `required_space` free bytes, if the map knows one.
    /// Which of several such pages comes back depends on the map's order.
    pub fn find_page_with_space(&self, required_space: u16) -> (r: Option<u32>)
        ensures
            match r {
                Some(p) => self.space_map@.contains_key(p) && self.space_map@[p] >= required_space,
                None => forall|p: u32| #[trigger] self.space_map@.contains_key(p) ==> self.space_map@[p]
                    < required_space,
            },
    {
        let m = &self.space_map;
        for (page_num, free_space) in it: m.iter()
            invariant
                it.seq() == vstd::std_specs::iter::IteratorSpec::remaining(&m.iter()),
                *m == self.space_map,
                forall|i: int| 0 <= i < it.index() ==> *(#[trigger] it.seq()[i]).1 < required_space,
        {
            if *free_space >= required_space {
                proof {
                    let v = vstd::std_specs::iter::IteratorSpec::remaining(&m.iter());
                    let i = it.index();
                    assert(v[i] == (page_num, free_space));
                    assert(m@.contains_key(*v[i].0));
                    assert(m@[*v[i].0] == *v[i].1);
                    assert(*v[i].0 == *page_num && *v[i].1 == *free_space);
                    assert(self.space_map@.contains_key(*page_num));
                    assert(self.space_map@[*page_num] == *free_space);
                }
                return Some(*page_num);
            }
        }
        proof {
            let v = vstd::std_specs::iter::IteratorSpec::remaining(&m.iter());
            assert forall|p: u32| #[trigger] m@.contains_key(p) implies m@[p] < required_space by {
                assert(v.contains((&p, &m@[p])));
                let i = choose|i: int| 0 <= i < v.len() && v[i] == (&p, &m@[p]);
                assert(*v[i].1 < required_space);
            }
        }
        None
    }
}

impl Default for FreeSpaceMap {
    fn default() -> (r: Self)
        ensures
            r.space_map@ == Map::<u32, u16>::empty(),
    {
        Self::new()
    }
}


/// Size of the versioning header stored before the data of a tuple.
pub const TUPLE_HEADER_SIZE: usize = 16;

/// The record that stores a tuple: `xmin` and `xmax` (little endian), then the data.
pub open spec fn tuple_record(h: TupleHeader, data: Seq<u8>) -> Seq<u8> {
    spec_u64_to_le_bytes(h.xmin) + spec_u64_to_le_bytes(h.xmax) + data
}

/// The tuple that a record stores, if the record can hold a tuple header.
pub open spec fn record_tuple(r: Seq<u8>) -> Option<(TupleHeader, Seq<u8>)> {
    if r.len() >= TUPLE_HEADER_SIZE {
        Some(
            (
                TupleHeader { xmin: u64_at(r, 0), xmax: u64_at(r, 8) },
                r.subrange(TUPLE_HEADER_SIZE as int, r.len() as int),
            ),
        )
    } else {
        None
    }
}

/// The tuple stored in slot `slot` of the page bytes `s`, if the slot can be
/// read within the page and holds a tuple.
pub open spec fn stored_tuple(s: Seq<u8>, slot: int, page_size: int) -> Option<(TupleHeader, Seq<u8>)> {
    if slot_readable(s, slot, page_size) {
        match record_of(s, slot) {
            Some(r) => record_tuple(r),
            None => None,
        }
    } else {
        None
    }
}

/// The pool holds page `pid`, with a pin count that can still grow, and slot
/// `slot` of it stores the tuple with header `h` and data `d`.
pub open spec fn pool_holds_tuple<const PAGE_SIZE: usize, D: DiskManager<PAGE_SIZE>, R: ReplacementPolicy>(
    pool: BufferPoolManager<PAGE_SIZE, D, R>,
    pid: PageId,
    slot: int,
    h: TupleHeader,
    d: Seq<u8>,
) -> bool {
    &&& pool.lookup(pid) is Some
    &&& pool.pin_count(pool.lookup(pid)->0 as int) < u32::MAX
    &&& stored_tuple(pool.frame_view(pool.lookup(pid)->0 as int).bytes(), slot, PAGE_SIZE as int) == Some(
        (h, d),
    )
}

/// Page `pid` is in `pool` with a pin count that can still grow, its header
/// describes a page of this size, and it has room for a record of `len`
/// bytes and the record's slot.
pub open spec fn page_has_room<const PAGE_SIZE: usize, D: DiskManager<PAGE_SIZE>, R: ReplacementPolicy>(
    pool: BufferPoolManager<PAGE_SIZE, D, R>,
    pid: PageId,
    len: int,
) -> bool {
    let f = pool.lookup(pid)->0 as int;
    let h = header_of(pool.frame_view(f).bytes());
    &&& pool.lookup(pid) is Some
    &&& pool.pin_count(f) < u32::MAX
    &&& header_sane(h, PAGE_SIZE as int)
    &&& len + SLOT_SIZE <= h.free_space_upper - h.free_space_lower
}

/// The free space map lists a page with room for a record of `len` bytes and
/// its slot.
pub open spec fn fsm_lists_room(fsm: Map<u32, u16>, len: int) -> bool {
    &&& len + SLOT_SIZE <= u16::MAX
    &&& exists|q: u32| #[trigger] fsm.contains_key(q) && fsm[q] >= len + SLOT_SIZE
}

/// Every page of file `file` that the free space map lists with room for a
/// record of `len` bytes has that room in `pool`.
pub open spec fn listed_pages_have_room<const PAGE_SIZE: usize, D: DiskManager<PAGE_SIZE>, R: ReplacementPolicy>(
    pool: BufferPoolManager<PAGE_SIZE, D, R>,
    fsm: Map<u32, u16>,
    file: u32,
    len: int,
) -> bool {
    forall|q: u32|
        #[trigger] fsm.contains_key(q) && fsm[q] >= len + SLOT_SIZE ==> page_has_room(
            pool,
            PageId { file_id: file, page_num: q },
            len,
        )
}

/// The heap owes a successful insert of a record of `len` bytes: the free
/// space map offers pages with room and each of them has that room in the
/// pool, or the map offers none and the first page has room in the pool.
pub open spec fn insert_owed<const PAGE_SIZE: usize, D: DiskManager<PAGE_SIZE>, R: ReplacementPolicy>(
    pool: BufferPoolManager<PAGE_SIZE, D, R>,
    fsm: Map<u32, u16>,
    file: u32,
    first: u32,
    len: int,
) -> bool {
    ||| fsm_lists_room(fsm, len) && listed_pages_have_room(pool, fsm, file, len)
    ||| !fsm_lists_room(fsm, len) && page_has_room(pool, PageId { file_id: file, page_num: first }, len)
}

/// `b` holds the same pages as `a` in the same frames, with the same bytes
/// and pin counts.
spec fn same_frames<const PAGE_SIZE: usize, D: DiskManager<PAGE_SIZE>, R: ReplacementPolicy>(
    a: BufferPoolManager<PAGE_SIZE, D, R>,
    b: BufferPoolManager<PAGE_SIZE, D, R>,
) -> bool {
    &&& a.pool_size_view() == b.pool_size_view()
    &&& forall|g: int|
        0 <= g < a.pool_size_view() ==> {
            &&& #[trigger] b.frame_page(g) == a.frame_page(g)
            &&& b.frame_view(g) == a.frame_view(g)
            &&& b.pin_count(g) == a.pin_count(g)
        }
}

/// `b` has the disk of `a` and the same dirty frames.
spec fn same_marks<const PAGE_SIZE: usize, D: DiskManager<PAGE_SIZE>, R: ReplacementPolicy>(
    a: BufferPoolManager<PAGE_SIZE, D, R>,
    b: BufferPoolManager<PAGE_SIZE, D, R>,
) -> bool {
    &&& b.disk_pages() == a.disk_pages()
    &&& forall|g: int| 0 <= g < a.pool_size_view() ==> #[trigger] b.is_dirty(g) == a.is_dirty(g)
}

/// A later insert keeps an earlier tuple and gives it another place: when
/// `a` holds a tuple at `slot1` of page `p1`, and `b` differs from `a` only in
/// that a record went into page `p2` (a consistent page with room for it and
/// its slot) at that page's next slot, `b` still holds the tuple there, and
/// the new slot is not `slot1` when the pages are the same.
pub proof fn lemma_later_insert_keeps_tuple<const PAGE_SIZE: usize, D: DiskManager<PAGE_SIZE>, R: ReplacementPolicy>(
    a: BufferPoolManager<PAGE_SIZE, D, R>,
    b: BufferPoolManager<PAGE_SIZE, D, R>,
    p1: PageId,
    slot1: int,
    h: TupleHeader,
    d: Seq<u8>,
    p2: PageId,
    rec: Seq<u8>,
)
    requires
        a.wf(),
        b.wf(),
        a.pool_size_view() == b.pool_size_view(),
        pool_holds_tuple(a, p1, slot1, h, d),
        a.lookup(p2) is Some,
        ({
            let f = a.lookup(p2)->0 as int;
            let s = a.frame_view(f).bytes();
            &&& b.lookup(p2) == Some(f as usize)
            &&& b.frame_view(f).bytes() == inserted_bytes(s, rec)
            &&& b.pin_count(f) == a.pin_count(f)
            &&& forall|g: int|
                0 <= g < a.pool_size_view() && g != f ==> {
                    &&& #[trigger] b.frame_page(g) == a.frame_page(g)
                    &&& b.frame_view(g) == a.frame_view(g)
                    &&& b.pin_count(g) == a.pin_count(g)
                }
            &&& page_consistent(s, PAGE_SIZE as int)
            &&& rec.len() + SLOT_SIZE <= header_of(s).free_space_upper - header_of(s).free_space_lower
            &&& header_of(s).total_slots < u16::MAX
        }),
    ensures
        pool_holds_tuple(b, p1, slot1, h, d),
        p1 == p2 ==> slot1 != header_of(a.frame_view(a.lookup(p2)->0 as int).bytes()).total_slots,
{
    let f = a.lookup(p2)->0 as int;
    let s = a.frame_view(f).bytes();
    let g = a.lookup(p1)->0 as int;
    a.lemma_lookup(p1);
    a.lemma_lookup(p2);
    b.lemma_lookup(p1);
    if p1 == p2 {
        SlottedPage::<PAGE_SIZE>::lemma_insert_then_get(s, rec);
        let t = inserted_bytes(s, rec);
        assert(record_of(t, slot1) == record_of(s, slot1));
    } else {
        assert(g != f);
        assert(b.frame_page(g) == Some(p1));
        assert(b.lookup(p1) == Some(g as usize));
    }
}

/// A tuple that a page's kept image holds (in memory or on disk) survives
/// an insert into a page of the pool: when `b` differs from `a` only in that
/// a record went into page `p2` (a consistent page with room for it and its
/// slot) at that page's next slot, the frame now dirty, and the clean frames
/// of `a` agree with the disk, then so do those of `b`, the kept image of
/// `p1` in `b` still holds the tuple at `slot1`, and the new slot is not
/// `slot1` when the pages are the same.
pub proof fn lemma_insert_keeps_kept_tuple<const PAGE_SIZE: usize, D: DiskManager<PAGE_SIZE>, R: ReplacementPolicy>(
    a: BufferPoolManager<PAGE_SIZE, D, R>,
    b: BufferPoolManager<PAGE_SIZE, D, R>,
    p1: PageId,
    slot1: int,
    h: TupleHeader,
    d: Seq<u8>,
    p2: PageId,
    rec: Seq<u8>,
)
    requires
        a.wf(),
        b.wf(),
        images_kept(a),
        a.pool_size_view() == b.pool_size_view(),
        kept_image(a, p1) is Some,
        stored_tuple(kept_image(a, p1)->0, slot1, PAGE_SIZE as int) == Some((h, d)),
        a.lookup(p2) is Some,
        ({
            let f = a.lookup(p2)->0 as int;
            let s = a.frame_view(f).bytes();
            &&& b.lookup(p2) == Some(f as usize)
            &&& b.frame_view(f).bytes() == inserted_bytes(s, rec)
            &&& b.is_dirty(f)
            &&& b.disk_pages() == a.disk_pages()
            &&& forall|g: int|
                0 <= g < a.pool_size_view() && g != f ==> {
                    &&& #[trigger] b.frame_page(g) == a.frame_page(g)
                    &&& b.frame_view(g) == a.frame_view(g)
                    &&& b.is_dirty(g) == a.is_dirty(g)
                }
            &&& p1 == p2 ==> {
                &&& page_consistent(s, PAGE_SIZE as int)
                &&& rec.len() + SLOT_SIZE <= header_of(s).free_space_upper - header_of(s).free_space_lower
                &&& header_of(s).total_slots < u16::MAX
            }
        }),
    ensures
        images_kept(b),
        kept_image(b, p1) is Some,
        stored_tuple(kept_image(b, p1)->0, slot1, PAGE_SIZE as int) == Some((h, d)),
        p1 == p2 ==> slot1 != header_of(a.frame_view(a.lookup(p2)->0 as int).bytes()).total_slots,
{
    let f = a.lookup(p2)->0 as int;
    let s = a.frame_view(f).bytes();
    a.lemma_lookup(p2);
    b.lemma_lookup(p2);
    assert forall|g: int| 0 <= g < a.pool_size_view() implies {
        &&& #[trigger] b.frame_page(g) == a.frame_page(g)
        &&& g != f ==> b.frame_view(g) == a.frame_view(g)
        &&& a.is_dirty(g) ==> b.is_dirty(g)
    } by {}
    lemma_writing_keeps_images(a, b, f);
    if p1 == p2 {
        SlottedPage::<PAGE_SIZE>::lemma_insert_then_get(s, rec);
        let t = inserted_bytes(s, rec);
        assert(kept_image(a, p1) == Some(s));
        assert(record_of(t, slot1) == record_of(s, slot1));
    }
}

/// A page with room in `a` has it in every pool with the same frames, in the
/// same frame.
proof fn lemma_room_kept<const PAGE_SIZE: usize, D: DiskManager<PAGE_SIZE>, R: ReplacementPolicy>(
    a: BufferPoolManager<PAGE_SIZE, D, R>,
    b: BufferPoolManager<PAGE_SIZE, D, R>,
    pid: PageId,
    len: int,
)
    requires
        a.wf(),
        b.wf(),
        same_frames(a, b),
        page_has_room(a, pid, len),
    ensures
        b.lookup(pid) == a.lookup(pid),
        page_has_room(b, pid, len),
{
    a.lemma_lookup(pid);
    b.lemma_lookup(pid);
    let f = a.lookup(pid)->0 as int;
    assert(b.frame_page(f) == Some(pid));
}

/// Reading a tuple's record back gives the tuple's header and data.
pub proof fn lemma_tuple_record_roundtrip(h: TupleHeader, data: Seq<u8>)
    ensures
        record_tuple(tuple_record(h, data)) == Some((h, data)),
{
    lemma_auto_spec_u64_to_from_le_bytes();
    let r = tuple_record(h, data);
    assert(r.subrange(0, 8) =~= spec_u64_to_le_bytes(h.xmin));
    assert(r.subrange(8, 16) =~= spec_u64_to_le_bytes(h.xmax));
    assert(r.subrange(16, r.len() as int) =~= data);
}

/// The record for a tuple.
fn encode_tuple(tuple: &Tuple) -> (r: Vec<u8>)
    ensures
        r@ == tuple_record(tuple.header, tuple.data@),
{
    let mut r = u64_to_le_bytes(tuple.header.xmin);
    let xmax = u64_to_le_bytes(tuple.header.xmax);
    push_all(&mut r, xmax.as_slice());
    push_all(&mut r, tuple.data.as_slice());
    r
}

/// Whether a header is sane for a page of `PAGE_SIZE` bytes.
fn is_sane<const PAGE_SIZE: usize>(h: &SlottedPageHeader) -> (r: bool)
    ensures
        r == header_sane(*h, PAGE_SIZE as int),
{
    HEADER_SIZE <= h.free_space_lower as usize && h.free_space_lower <= h.free_space_upper
        && h.free_space_upper as usize <= PAGE_SIZE && h.free_space_lower as usize == HEADER_SIZE
        + SLOT_SIZE * h.total_slots as usize && h.total_slots < u16::MAX
}

/// The tuple in slot `slot` of `page`.
fn read_stored<const PAGE_SIZE: usize>(page: &SlottedPage<PAGE_SIZE>, slot: u16) -> (r: Option<Tuple>)
    requires
        page.wf(),
    ensures
        match stored_tuple(page.bytes(), slot as int, PAGE_SIZE as int) {
            Some((h, d)) => r matches Some(t) && t.header == h && t.data@ == d,
            None => r is None,
        },
{
    page.size_facts();
    let h = page.header();
    if HEADER_SIZE + SLOT_SIZE * (h.total_slots as usize) > PAGE_SIZE {
        return None;
    }
    if slot < h.total_slots {
        let slots = page.slots();
        let sl = slots[slot as usize];
        if sl.length != 0 && sl.offset as usize + sl.length as usize > PAGE_SIZE {
            return None;
        }
    }
    match page.get_record(slot as usize) {
        Some(bytes) => {
            if bytes.len() < TUPLE_HEADER_SIZE {
                None
            } else {
                let xmin = read_u64(bytes, 0);
                let xmax = read_u64(bytes, 8);
                let data = slice_to_vec(slice_subrange(bytes, TUPLE_HEADER_SIZE, bytes.len()));
                Some(Tuple { header: TupleHeader { xmin, xmax }, data })
            }
        },
        None => None,
    }
}

/// A table stored in a chain of slotted pages of one file: the first page,
/// then the pages the heap appended, in order. A free space map remembers
/// how much room the pages written to have left.
pub struct TableHeap {
    file_id: u32,
    first_page_num: u32,
    more_pages: Vec<u32>,
    fsm: FreeSpaceMap,
}

impl TableHeap {
    /// The file that holds the pages.
    pub closed spec fn file(&self) -> u32 {
        self.file_id
    }

    /// The number of the first page of the chain.
    pub closed spec fn first_page(&self) -> u32 {
        self.first_page_num
    }

    /// The page numbers of the chain, first page first.
    pub closed spec fn chain(&self) -> Seq<u32> {
        seq![self.first_page_num] + self.more_pages@
    }

    /// The free space map: page number to free bytes.
    pub closed spec fn free_space(&self) -> Map<u32, u16> {
        self.fsm.space_map@
    }

    /// A heap over the chain that starts at `first_page_num`, or over a new,
    /// initialised page of `file_id` when none is given.
    pub fn new<const PAGE_SIZE: usize, D: DiskManager<PAGE_SIZE>, R: ReplacementPolicy>(
        buffer_pool: &mut BufferPoolManager<PAGE_SIZE, D, R>,
        file_id: u32,
        first_page_num: Option<u32>,
    ) -> (r: Result<Self, BufferError>)
        requires
            old(buffer_pool).wf(),
        ensures
            final(buffer_pool).wf(),
            final(buffer_pool).pool_size_view() == old(buffer_pool).pool_size_view(),
            first_page_num is Some ==> *final(buffer_pool) == *old(buffer_pool),
            match r {
                Ok(heap) => {
                    &&& heap.file() == file_id
                    &&& heap.free_space() == Map::<u32, u16>::empty()
                    &&& heap.chain() == seq![heap.first_page()]
                    &&& first_page_num matches Some(pn) ==> heap.first_page() == pn
                    &&& first_page_num is None ==> exists|q: PageId|
                        #![trigger final(buffer_pool).lookup(q)]
                        q.page_num == heap.first_page() && final(buffer_pool).lookup(q) is Some
                            && final(buffer_pool).frame_view(
                            final(buffer_pool).lookup(q)->0 as int,
                        ).header_view() == initial_header(PAGE_SIZE as int)
                },
                Err(_) => first_page_num is None,
            },
    {
        let first_page = match first_page_num {
            Some(pn) => pn,
            None => {
                let (frame_id, page_id) = match buffer_pool.new_page(file_id) {
                    Ok(x) => x,
                    Err(e) => {
                        return Err(e);
                    },
                };
                {
                    let page = buffer_pool.write_page(frame_id);
                    page.init();
                }
                assert(buffer_pool.frame_view(frame_id as int).header_view() == initial_header(PAGE_SIZE as int));
                match release(buffer_pool, page_id, true) {
                    Ok(()) => {},
                    Err(e) => {
                        return Err(e);
                    },
                }
                proof {
                    buffer_pool.lemma_lookup(page_id);
                    assert(buffer_pool.lookup(page_id) == Some(frame_id));
                }
                page_id.page_num
            },
        };
        Ok(TableHeap { file_id, first_page_num: first_page, more_pages: Vec::new(), fsm: FreeSpaceMap::new() })
    }

    /// The number of the first page of the chain.
    pub fn get_first_page_num(&self) -> (r: u32)
        ensures
            r == self.first_page(),
    {
        self.first_page_num
    }

    /// The file that holds the pages.
    pub fn get_file_id(&self) -> (r: u32)
        ensures
            r == self.file(),
    {
        self.file_id
    }

    /// Inserts a tuple and returns its CTID `(page number, slot)`.
    ///
    /// The page is the one the free space map offers, else the first page of
    /// the chain with room, else a new page appended to the chain. On success
    /// the page stays in the pool holding the tuple's record in the returned
    /// slot, and the free space map records the page's remaining room. A page
    /// whose header does not describe a page of this size is taken to have no
    /// room. The insert succeeds when every page that the map offers has the
    /// room it claims in the pool, or, when the map offers none, when the
    /// first page of the chain has room in the pool (`page_has_room`); then
    /// the record goes into a fresh slot of that page, the page's other
    /// records are kept, and every other frame of the pool is left as it was.
    pub fn insert_tuple<const PAGE_SIZE: usize, D: DiskManager<PAGE_SIZE>, R: ReplacementPolicy>(
        &mut self,
        buffer_pool: &mut BufferPoolManager<PAGE_SIZE, D, R>,
        tuple: &Tuple,
    ) -> (r: Result<CTID, BufferError>)
        requires
            old(buffer_pool).wf(),
        ensures
            final(buffer_pool).wf(),
            final(buffer_pool).pool_size_view() == old(buffer_pool).pool_size_view(),
            final(self).file() == old(self).file(),
            final(self).first_page() == old(self).first_page(),
            final(self).chain() == old(self).chain() || exists|p: u32|
                final(self).chain() == #[trigger] old(self).chain().push(p),
            match r {
                Ok((pn, slot)) => {
                    let pid = PageId { file_id: old(self).file(), page_num: pn };
                    let f = final(buffer_pool).lookup(pid)->0 as int;
                    let bytes = final(buffer_pool).frame_view(f).bytes();
                    let h = header_of(bytes);
                    &&& pool_holds_tuple(*final(buffer_pool), pid, slot as int, tuple.header, tuple.data@)
                    &&& record_of(bytes, slot as int) == Some(tuple_record(tuple.header, tuple.data@))
                    &&& final(self).free_space() == old(self).free_space().insert(
                        pn,
                        (h.free_space_upper - h.free_space_lower) as u16,
                    )
                },
                Err(_) => final(self).free_space() == old(self).free_space(),
            },
            tuple_record(tuple.header, tuple.data@).len() + SLOT_SIZE + HEADER_SIZE > PAGE_SIZE
                ==> r is Err,
            ({
                let required = tuple_record(tuple.header, tuple.data@).len() + SLOT_SIZE;
                let pn = r->Ok_0.0;
                r is Ok && (exists|q: u32|
                    #[trigger] old(self).free_space().contains_key(q) && old(self).free_space()[q]
                        >= required) ==> old(self).free_space().contains_key(pn)
                    && old(self).free_space()[pn] >= required
            }),
            ({
                let len = tuple_record(tuple.header, tuple.data@).len() as int;
                fsm_lists_room(old(self).free_space(), len) && listed_pages_have_room(
                    *old(buffer_pool),
                    old(self).free_space(),
                    old(self).file(),
                    len,
                ) ==> r is Ok
            }),
            ({
                let len = tuple_record(tuple.header, tuple.data@).len() as int;
                let first = PageId { file_id: old(self).file(), page_num: old(self).first_page() };
                !fsm_lists_room(old(self).free_space(), len) && page_has_room(*old(buffer_pool), first, len)
                    ==> (r matches Ok((pn, _)) && pn == old(self).first_page())
            }),
            ({
                let rec = tuple_record(tuple.header, tuple.data@);
                let pid = PageId { file_id: old(self).file(), page_num: r->Ok_0.0 };
                let f = old(buffer_pool).lookup(pid)->0 as int;
                insert_owed(
                    *old(buffer_pool),
                    old(self).free_space(),
                    old(self).file(),
                    old(self).first_page(),
                    rec.len() as int,
                ) ==> {
                    &&& r is Ok
                    &&& old(buffer_pool).lookup(pid) is Some
                    &&& final(buffer_pool).lookup(pid) == Some(f as usize)
                    &&& r->Ok_0.1 == header_of(old(buffer_pool).frame_view(f).bytes()).total_slots
                    &&& final(buffer_pool).frame_view(f).bytes() == inserted_bytes(
                        old(buffer_pool).frame_view(f).bytes(),
                        rec,
                    )
                    &&& final(buffer_pool).pin_count(f) == old(buffer_pool).pin_count(f)
                    &&& final(buffer_pool).is_dirty(f)
                    &&& final(buffer_pool).disk_pages() == old(buffer_pool).disk_pages()
                    &&& forall|g: int|
                        0 <= g < old(buffer_pool).pool_size_view() && g != f ==> {
                            &&& #[trigger] final(buffer_pool).frame_page(g) == old(buffer_pool).frame_page(g)
                            &&& final(buffer_pool).frame_view(g) == old(buffer_pool).frame_view(g)
                            &&& final(buffer_pool).pin_count(g) == old(buffer_pool).pin_count(g)
                            &&& final(buffer_pool).is_dirty(g) == old(buffer_pool).is_dirty(g)
                        }
                }
            }),
    {
        let record = encode_tuple(tuple);
        let required: usize = if record.len() < u16::MAX as usize {
            record.len() + SLOT_SIZE
        } else {
            u16::MAX as usize + 1
        };
        let ghost len = record@.len() as int;
        let ghost fsm0 = old(self).free_space();
        let ghost first = PageId { file_id: old(self).file(), page_num: old(self).first_page() };
        let ghost fsm_owed = fsm_lists_room(fsm0, len) && listed_pages_have_room(
            *old(buffer_pool),
            fsm0,
            old(self).file(),
            len,
        );
        let ghost chain_owed = !fsm_lists_room(fsm0, len) && page_has_room(*old(buffer_pool), first, len);
        let target = if required <= u16::MAX as usize {
            self.fsm.find_page_with_space(required as u16)
        } else {
            None
        };
        proof {
            if fsm_owed {
                assert(required == len + SLOT_SIZE);
                if let Some(pn) = target {
                    assert(fsm0.contains_key(pn) && fsm0[pn] >= len + SLOT_SIZE);
                } else {
                    let q = choose|q: u32| #[trigger] fsm0.contains_key(q) && fsm0[q] >= len + SLOT_SIZE;
                    assert(fsm0[q] < required);
                }
            }
            if chain_owed {
                if let Some(pn) = target {
                    assert(fsm0.contains_key(pn) && fsm0[pn] >= len + SLOT_SIZE);
                }
            }
        }
        let page_num = match target {
            Some(pn) => pn,
            None => {
                let n = self.more_pages.len();
                let mut i: usize = 0;
                let mut found: Option<u32> = None;
                loop
                    invariant_except_break
                        chain_owed ==> (i == 0 && *buffer_pool == *old(buffer_pool)),
                    invariant
                        buffer_pool.wf(),
                        old(buffer_pool).wf(),
                        buffer_pool.pool_size_view() == old(buffer_pool).pool_size_view(),
                        i <= n,
                        n == self.more_pages@.len(),
                        *self == *old(self),
                        required == len + SLOT_SIZE || (required > u16::MAX && len + SLOT_SIZE > u16::MAX),
                        len == tuple_record(tuple.header, tuple.data@).len(),
                        fsm0 == old(self).free_space(),
                        first == (PageId { file_id: old(self).file(), page_num: old(self).first_page() }),
                        fsm_owed == (fsm_lists_room(fsm0, len) && listed_pages_have_room(
                            *old(buffer_pool),
                            fsm0,
                            old(self).file(),
                            len,
                        )),
                        chain_owed == (!fsm_lists_room(fsm0, len) && page_has_room(*old(buffer_pool), first, len)),
                        !fsm_owed,
                    ensures
                        buffer_pool.wf(),
                        buffer_pool.pool_size_view() == old(buffer_pool).pool_size_view(),
                        *self == *old(self),
                        chain_owed ==> (found == Some(self.first_page_num) && same_frames(
                            *old(buffer_pool),
                            *buffer_pool,
                        ) && same_marks(*old(buffer_pool), *buffer_pool)),
                    decreases n - i,
                {
                    let curr = if i == 0 {
                        self.first_page_num
                    } else {
                        self.more_pages[i - 1]
                    };
                    let pid = PageId { file_id: self.file_id, page_num: curr };
                    let ghost f0 = old(buffer_pool).lookup(pid)->0;
                    proof {
                        if chain_owed {
                            old(buffer_pool).lemma_lookup(pid);
                        }
                    }
                    let frame_id = match buffer_pool.fetch_page(pid) {
                        Ok(f) => f,
                        Err(e) => {
                            return Err(e);
                        },
                    };
                    proof {
                        if chain_owed {
                            buffer_pool.lemma_lookup(pid);
                            if f0 != frame_id {
                                assert(buffer_pool.frame_page(f0 as int) == Some(pid));
                            }
                            assert(f0 == frame_id);
                        }
                    }
                    let h = buffer_pool.read_page(frame_id).header();
                    let fits = is_sane::<PAGE_SIZE>(&h) && (h.free_space_upper
                        - h.free_space_lower) as usize >= required;
                    let ghost mid = *buffer_pool;
                    match release(buffer_pool, pid, false) {
                        Ok(()) => {},
                        Err(e) => {
                            return Err(e);
                        },
                    }
                    proof {
                        if chain_owed {
                            mid.lemma_lookup(pid);
                            assert(fits);
                            assert(same_frames(*old(buffer_pool), *buffer_pool));
                            assert forall|g: int| 0 <= g < old(buffer_pool).pool_size_view() implies #[trigger] buffer_pool.is_dirty(g)
                                == old(buffer_pool).is_dirty(g) by {
                                assert(mid.frame_page(g) == old(buffer_pool).frame_page(g));
                                if g == frame_id {
                                    assert(mid.is_dirty(g) == old(buffer_pool).is_dirty(g));
                                } else {
                                    assert(buffer_pool.pin_count(g) == mid.pin_count(g));
                                }
                            }
                        }
                    }
                    if fits {
                        found = Some(curr);
                        break;
                    }
                    if i == n {
                        break;
                    }
                    i = i + 1;
                }
                match found {
                    Some(pn) => pn,
                    None => {
                        // Append a new page to the chain.
                        let (new_frame, new_pid) = match buffer_pool.new_page(self.file_id) {
                            Ok(x) => x,
                            Err(e) => {
                                return Err(e);
                            },
                        };
                        {
                            let page = buffer_pool.write_page(new_frame);
                            page.init();
                        }
                        match release(buffer_pool, new_pid, true) {
                            Ok(()) => {},
                            Err(e) => {
                                return Err(e);
                            },
                        }
                        self.more_pages.push(new_pid.page_num);
                        proof {
                            assert(self.chain() =~= old(self).chain().push(new_pid.page_num));
                        }
                        new_pid.page_num
                    },
                }
            },
        };
        let page_id = PageId { file_id: self.file_id, page_num };
        let ghost owed = fsm_owed || chain_owed;
        let ghost f1 = buffer_pool.lookup(page_id)->0;
        let ghost pre = *buffer_pool;
        proof {
            if owed {
                assert(page_has_room(*old(buffer_pool), page_id, len));
                assert(same_frames(*old(buffer_pool), *buffer_pool));
                assert(same_marks(*old(buffer_pool), *buffer_pool));
                lemma_room_kept(*old(buffer_pool), *buffer_pool, page_id, len);
                buffer_pool.lemma_lookup(page_id);
            }
        }
        let frame_id = match buffer_pool.fetch_page(page_id) {
            Ok(f) => f,
            Err(e) => {
                return Err(e);
            },
        };
        proof {
            if owed {
                buffer_pool.lemma_lookup(page_id);
                if f1 != frame_id {
                    assert(buffer_pool.frame_page(f1 as int) == Some(page_id));
                }
                assert(f1 == frame_id);
                assert(old(buffer_pool).lookup(page_id) == Some(f1));
            }
        }
        let ghost before = buffer_pool.frame_view(frame_id as int).bytes();
        let ghost after_fetch = *buffer_pool;
        buffer_pool.read_page(frame_id).size_facts();
        proof {
            lemma_auto_spec_u64_to_from_le_bytes();
        }
        assert(record@.len() >= TUPLE_HEADER_SIZE);
        let slot = {
            let page = buffer_pool.write_page(frame_id);
            let h = page.header();
            if is_sane::<PAGE_SIZE>(&h) {
                page.insert_record(record.as_slice())
            } else {
                None
            }
        };
        let slot_idx = match slot {
            Some(i) => i,
            None => {
                return Err(BufferError::NoFreeFrames);
            },
        };
        let ghost after = buffer_pool.frame_view(frame_id as int).bytes();
        proof {
            lemma_insert_readback(before, record@, PAGE_SIZE as int);
            lemma_tuple_record_roundtrip(tuple.header, tuple.data@);
        }
        let h = buffer_pool.read_page(frame_id).header();
        let free_space = h.free_space_upper - h.free_space_lower;
        proof {
            if owed {
                assert(buffer_pool.frame_page(frame_id as int) == Some(page_id));
                assert(buffer_pool.lookup(page_id) == Some(frame_id));
                assert(buffer_pool.pin_count(frame_id as int) > 0);
            }
        }
        let ghost before_rel = *buffer_pool;
        match release(buffer_pool, page_id, true) {
            Ok(()) => {},
            Err(e) => {
                return Err(e);
            },
        }
        self.fsm.update(page_num, free_space);
        proof {
            buffer_pool.lemma_lookup(page_id);
            if owed {
                assert(before == old(buffer_pool).frame_view(f1 as int).bytes());
                assert(buffer_pool.frame_view(f1 as int).bytes() == after);
                assert forall|g: int| 0 <= g < old(buffer_pool).pool_size_view() && g != f1 implies {
                    &&& #[trigger] buffer_pool.frame_page(g) == old(buffer_pool).frame_page(g)
                    &&& buffer_pool.frame_view(g) == old(buffer_pool).frame_view(g)
                    &&& buffer_pool.pin_count(g) == old(buffer_pool).pin_count(g)
                    &&& buffer_pool.is_dirty(g) == old(buffer_pool).is_dirty(g)
                } by {
                    assert(pre.frame_page(g) == old(buffer_pool).frame_page(g));
                    assert(pre.is_dirty(g) == old(buffer_pool).is_dirty(g));
                    assert(after_fetch.frame_page(g) == pre.frame_page(g));
                    assert(before_rel.frame_page(g) == after_fetch.frame_page(g));
                    assert(buffer_pool.pin_count(g) == before_rel.pin_count(g));
                }
                assert(before_rel.lookup(page_id) == Some(f1));
            }
        }
        Ok((page_num, slot_idx as u16))
    }

    /// Reads the tuple at `ctid`. When the page is in the pool and its pin
    /// count can grow, the tuple comes back exactly when the slot holds one;
    /// else `PageNotFound`. When the pool's clean frames agree with the disk
    /// (`images_kept`), the same holds of the page's kept image, in memory or
    /// on disk, unless the pool or the disk fails, and the images stay.
    pub fn get_tuple<const PAGE_SIZE: usize, D: DiskManager<PAGE_SIZE>, R: ReplacementPolicy>(
        &self,
        buffer_pool: &mut BufferPoolManager<PAGE_SIZE, D, R>,
        ctid: CTID,
    ) -> (r: Result<Tuple, BufferError>)
        requires
            old(buffer_pool).wf(),
        ensures
            final(buffer_pool).wf(),
            final(buffer_pool).pool_size_view() == old(buffer_pool).pool_size_view(),
            ({
                let pid = PageId { file_id: self.file(), page_num: ctid.0 };
                &&& forall|h: TupleHeader, d: Seq<u8>|
                    #[trigger] pool_holds_tuple(*old(buffer_pool), pid, ctid.1 as int, h, d) ==> (r matches Ok(
                        t,
                    ) && t.header == h && t.data@ == d)
                &&& r matches Ok(t) ==> {
                    &&& final(buffer_pool).lookup(pid) is Some
                    &&& stored_tuple(
                        final(buffer_pool).frame_view(final(buffer_pool).lookup(pid)->0 as int).bytes(),
                        ctid.1 as int,
                        PAGE_SIZE as int,
                    ) == Some((t.header, t.data@))
                }
                &&& old(buffer_pool).lookup(pid) matches Some(f) ==> {
                    &&& final(buffer_pool).lookup(pid) == Some(f)
                    &&& final(buffer_pool).frame_view(f as int) == old(buffer_pool).frame_view(f as int)
                    &&& old(buffer_pool).pin_count(f as int) < u32::MAX ==> match stored_tuple(
                        old(buffer_pool).frame_view(f as int).bytes(),
                        ctid.1 as int,
                        PAGE_SIZE as int,
                    ) {
                        Some((h, d)) => r matches Ok(t) && t.header == h && t.data@ == d,
                        None => r matches Err(BufferError::PageNotFound),
                    }
                }
            }),
            images_kept(*old(buffer_pool)) ==> ({
                let pid = PageId { file_id: self.file(), page_num: ctid.0 };
                &&& kept_image(*old(buffer_pool), pid) matches Some(s) ==> match stored_tuple(
                    s,
                    ctid.1 as int,
                    PAGE_SIZE as int,
                ) {
                    Some((h, d)) => (r matches Ok(t) && t.header == h && t.data@ == d) || (r matches Err(e)
                        && !(e is PageNotFound)),
                    None => r is Err,
                }
                &&& !(r matches Err(BufferError::StorageError(_))) ==> images_kept(*final(buffer_pool))
                    && images_stay(*old(buffer_pool), *final(buffer_pool))
            }),
    {
        let (page_num, slot_index) = ctid;
        let page_id = PageId { file_id: self.file_id, page_num };
        let frame_id = match buffer_pool.fetch_page(page_id) {
            Ok(f) => f,
            Err(e) => {
                return Err(e);
            },
        };
        proof {
            old(buffer_pool).lemma_lookup(page_id);
            buffer_pool.lemma_lookup(page_id);
            if let Some(g) = old(buffer_pool).lookup(page_id) {
                assert(old(buffer_pool).frame_page(g as int) == Some(page_id));
                if g != frame_id {
                    assert(buffer_pool.frame_page(g as int) == Some(page_id));
                }
                assert(g == frame_id);
            }
        }
        proof {
            if images_kept(*old(buffer_pool)) {
                old(buffer_pool).lemma_fetch_keeps_images(*buffer_pool, page_id, frame_id);
            }
        }
        let ghost mid = *buffer_pool;
        let tuple_res = read_stored(buffer_pool.read_page(frame_id), slot_index);
        let r0 = release(buffer_pool, page_id, false);
        proof {
            if images_kept(*old(buffer_pool)) {
                lemma_marking_keeps_images(mid, *buffer_pool);
                assert forall|p: PageId| #[trigger] kept_image(*old(buffer_pool), p) is Some implies kept_image(
                    *buffer_pool,
                    p,
                ) == kept_image(*old(buffer_pool), p) by {
                    assert(kept_image(mid, p) == kept_image(*old(buffer_pool), p));
                }
            }
        }
        match r0 {
            Ok(()) => {},
            Err(e) => {
                return Err(e);
            },
        }
        proof {
            buffer_pool.lemma_lookup(page_id);
        }
        match tuple_res {
            Some(t) => Ok(t),
            None => Err(BufferError::PageNotFound),
        }
    }
}

} // verus!
