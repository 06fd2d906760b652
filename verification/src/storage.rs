use vstd::prelude::*;
use vstd::string::StringExecFns;
use std::collections::HashMap;

verus! {

broadcast use vstd::std_specs::hash::group_hash_axioms;

/// Identifies a page by the file that holds it and its number inside that file.
#[derive(Debug, Clone, Copy, PartialEq, Eq, Hash, Default, Structural)]
pub struct PageId {
    pub file_id: u32,
    pub page_num: u32,
}

/// The physical address of a tuple: the page number and the slot inside it.
pub type CTID = (u32, u16);

/// Errors that a disk manager reports.
#[derive(Debug)]
pub enum StorageError {
    /// The underlying device failed; the text describes the failure.
    IoError(String),
    /// The page lies outside the file.
    OutOfBounds { file_id: u32, page_num: u32 },
}

/// A device that stores pages of `PAGE_SIZE` bytes.
///
/// Implementations live next to the device they drive (a file, memory, ...).
/// `pages` is what the device holds of the pages written so far: a successful
/// write stores the bytes, a successful read gives back the stored bytes.
/// Reading a page that was never written fills the buffer with bytes the
/// device chooses (a file device gives zeros).
pub trait DiskManager<const PAGE_SIZE: usize> {
    /// The pages the device holds.
    spec fn pages(&self) -> Map<PageId, Seq<u8>>;

    /// Reads the page into `data`, which keeps its length.
    fn read_page(&self, page_id: PageId, data: &mut Vec<u8>) -> (r: Result<(), StorageError>)
        requires
            old(data)@.len() == PAGE_SIZE,
        ensures
            final(data)@.len() == PAGE_SIZE,
            r is Ok ==> self.pages().contains_key(page_id) ==> final(data)@ == self.pages()[page_id],
    ;

    /// Writes the `PAGE_SIZE` bytes of `data` to the page.
    fn write_page(&mut self, page_id: PageId, data: &Vec<u8>) -> (r: Result<(), StorageError>)
        requires
            data@.len() == PAGE_SIZE,
        ensures
            r is Ok ==> final(self).pages() == old(self).pages().insert(page_id, data@),
    ;

    /// Reserves a fresh page in the given file; the stored pages stay as they are.
    fn allocate_page(&mut self, file_id: u32) -> (r: PageId)
        ensures
            final(self).pages() == old(self).pages(),
    ;

    /// Gives a page back to the device.
    fn deallocate_page(&mut self, page_id: PageId);
}

/// The key under which a page is filed: the file id, then the page number.
pub open spec fn page_key(p: PageId) -> u64 {
    (p.file_id as int * 0x1_0000_0000 + p.page_num as int) as u64
}

/// Distinct page ids have distinct keys.
pub proof fn lemma_page_key_injective(a: PageId, b: PageId)
    ensures
        page_key(a) == page_key(b) ==> a == b,
        page_key(a) == a.file_id as int * 0x1_0000_0000 + a.page_num as int,
{
    let fa = a.file_id as int;
    let fb = b.file_id as int;
    let pa = a.page_num as int;
    let pb = b.page_num as int;
    assert(0 <= fa * 0x1_0000_0000 + pa <= u64::MAX) by (nonlinear_arith)
        requires
            0 <= fa <= u32::MAX,
            0 <= pa <= u32::MAX,
    ;
    assert(0 <= fb * 0x1_0000_0000 + pb <= u64::MAX) by (nonlinear_arith)
        requires
            0 <= fb <= u32::MAX,
            0 <= pb <= u32::MAX,
    ;
    assert(fa * 0x1_0000_0000 + pa == fb * 0x1_0000_0000 + pb ==> fa == fb && pa == pb)
        by (nonlinear_arith)
        requires
            0 <= pa < 0x1_0000_0000,
            0 <= pb < 0x1_0000_0000,
    ;
}

pub(crate) fn key_of(page_id: PageId) -> (k: u64)
    ensures
        k == page_key(page_id),
{
    proof {
        lemma_page_key_injective(page_id, page_id);
    }
    (page_id.file_id as u64) * 0x1_0000_0000u64 + page_id.page_num as u64
}

/// A device that stores whole pages (a file, memory, ...). Nothing is
/// promised of what it reads back: `DeviceDiskManager` keeps the pages written
/// through it.
pub trait PageDevice {
    /// Reads the page into `data`.
    fn read_block(&self, page_id: PageId, data: &mut Vec<u8>) -> Result<(), StorageError>;

    /// Writes `data` as the page.
    fn write_block(&mut self, page_id: PageId, data: &[u8]) -> Result<(), StorageError>;

    /// Reserves a fresh page in the given file.
    fn allocate_block(&mut self, file_id: u32) -> PageId;

    /// Gives a page back.
    fn deallocate_block(&mut self, page_id: PageId);
}

/// A disk manager over a page device: every page written goes to the device
/// and is kept, so that it reads back as written; a page never written is
/// read from the device.
pub struct DeviceDiskManager<const PAGE_SIZE: usize, B: PageDevice> {
    device: B,
    written: HashMap<u64, Vec<u8>>,
}

impl<const PAGE_SIZE: usize, B: PageDevice> DeviceDiskManager<PAGE_SIZE, B> {

    /// A disk manager over `device`, with no page written yet.
    pub fn new(device: B) -> (r: Self)
        ensures
            r.written_pages() == Map::<PageId, Seq<u8>>::empty(),
    {
        DeviceDiskManager { device, written: HashMap::new() }
    }

    /// The pages written so far, with their bytes.
    pub closed spec fn written_pages(&self) -> Map<PageId, Seq<u8>> {
        Map::new(
            |p: PageId| self.written@.contains_key(page_key(p)),
            |p: PageId| self.written@[page_key(p)]@,
        )
    }
}

impl<const PAGE_SIZE: usize, B: PageDevice> DiskManager<PAGE_SIZE> for DeviceDiskManager<PAGE_SIZE, B> {
    closed spec fn pages(&self) -> Map<PageId, Seq<u8>> {
        self.written_pages()
    }

    /// A page written through this manager reads back from memory, and does so
    /// exactly when it is a whole page (as every page written through
    /// `write_page` is); any other page comes from the device.
    fn read_page(&self, page_id: PageId, data: &mut Vec<u8>) -> (r: Result<(), StorageError>)
        ensures
            self.pages().contains_key(page_id) ==> (r is Ok <==> self.pages()[page_id].len() == PAGE_SIZE),
    {
        let key = key_of(page_id);
        match self.written.get(&key) {
            Some(bytes) => {
                if bytes.len() != data.len() {
                    return Err(StorageError::IoError(String::from_str("stored page of the wrong size")));
                }
                let mut i: usize = 0;
                while i < bytes.len()
                    invariant
                        i <= bytes@.len(),
                        data@.len() == bytes@.len(),
                        forall|k: int| 0 <= k < i ==> data@[k] == bytes@[k],
                    decreases bytes@.len() - i,
                {
                    data.set(i, bytes[i]);
                    i = i + 1;
                }
                proof {
                    assert(data@ =~= bytes@);
                    assert(self.written@.contains_key(page_key(page_id)));
                }
                Ok(())
            },
            None => {
                let mut buf: Vec<u8> = Vec::new();
                let mut i: usize = 0;
                while i < data.len()
                    invariant
                        i <= data@.len(),
                        buf@.len() == i,
                    decreases data@.len() - i,
                {
                    buf.push(0u8);
                    i = i + 1;
                }
                let r = self.device.read_block(page_id, &mut buf);
                if buf.len() != data.len() {
                    return Err(StorageError::IoError(String::from_str("short read")));
                }
                let mut i: usize = 0;
                while i < buf.len()
                    invariant
                        i <= buf@.len(),
                        data@.len() == buf@.len(),
                    decreases buf@.len() - i,
                {
                    data.set(i, buf[i]);
                    i = i + 1;
                }
                r
            },
        }
    }

    /// The page goes to the device first; only when the device takes it is it
    /// kept, and a failed write leaves the written pages as they were.
    fn write_page(&mut self, page_id: PageId, data: &Vec<u8>) -> (r: Result<(), StorageError>)
        ensures
            r is Err ==> final(self).pages() == old(self).pages(),
    {
        match self.device.write_block(page_id, data.as_slice()) {
            Ok(()) => {},
            Err(e) => {
                return Err(e);
            },
        }
        let key = key_of(page_id);
        let copy = data.clone();
        self.written.insert(key, copy);
        proof {
            assert forall|p: PageId| #![auto]
                self.written_pages().contains_key(p) == old(self).written_pages().insert(page_id, data@).contains_key(p)
                && (self.written_pages().contains_key(p) ==> self.written_pages()[p]
                    == old(self).written_pages().insert(page_id, data@)[p]) by {
                lemma_page_key_injective(p, page_id);
            }
            assert(self.written_pages() =~= old(self).written_pages().insert(page_id, data@));
        }
        Ok(())
    }

    fn allocate_page(&mut self, file_id: u32) -> (r: PageId) {
        let r = self.device.allocate_block(file_id);
        assert(self.written_pages() =~= old(self).written_pages());
        r
    }

    /// Hands the page back to the device; the pages written here stay.
    fn deallocate_page(&mut self, page_id: PageId)
        ensures
            final(self).pages() == old(self).pages(),
    {
        self.device.deallocate_block(page_id);
        assert(self.written_pages() =~= old(self).written_pages());
    }
}

} // verus!
