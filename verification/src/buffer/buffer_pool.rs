use vstd::prelude::*;
use std::collections::HashMap;
use crate::buffer::frame::FrameDescriptor;
use crate::buffer::replacer::ReplacementPolicy;
use crate::buffer::BufferError;
use crate::page::{SlottedPage, HEADER_SIZE};
use crate::storage::{DiskManager, PageId, page_key, lemma_page_key_injective, key_of};

verus! {

broadcast use vstd::std_specs::hash::group_hash_axioms;

/// `a` and `b` agree on page `p`.
pub open spec fn same_entry(a: Map<PageId, Seq<u8>>, b: Map<PageId, Seq<u8>>, p: PageId) -> bool {
    &&& a.contains_key(p) == b.contains_key(p)
    &&& a.contains_key(p) ==> a[p] == b[p]
}

/// Every frame of `b` but `f` holds the same page, bytes, pin count and
/// dirty bit as in `a`.
pub open spec fn same_but<const PAGE_SIZE: usize, D: DiskManager<PAGE_SIZE>, R: ReplacementPolicy>(
    a: BufferPoolManager<PAGE_SIZE, D, R>,
    b: BufferPoolManager<PAGE_SIZE, D, R>,
    f: int,
) -> bool {
    forall|g: int|
        0 <= g < a.pool_size_view() && g != f ==> {
            &&& #[trigger] b.frame_page(g) == a.frame_page(g)
            &&& b.frame_view(g) == a.frame_view(g)
            &&& b.pin_count(g) == a.pin_count(g)
            &&& b.is_dirty(g) == a.is_dirty(g)
        }
}

/// Every frame's pin count can still grow.
pub open spec fn pins_can_grow<const PAGE_SIZE: usize, D: DiskManager<PAGE_SIZE>, R: ReplacementPolicy>(
    a: BufferPoolManager<PAGE_SIZE, D, R>,
) -> bool {
    forall|g: int| 0 <= g < a.pool_size_view() ==> #[trigger] a.pin_count(g) < u32::MAX
}

/// Every frame of `b` has the pin count it has in `a`.
pub open spec fn same_pins<const PAGE_SIZE: usize, D: DiskManager<PAGE_SIZE>, R: ReplacementPolicy>(
    a: BufferPoolManager<PAGE_SIZE, D, R>,
    b: BufferPoolManager<PAGE_SIZE, D, R>,
) -> bool {
    forall|g: int| 0 <= g < a.pool_size_view() ==> #[trigger] b.pin_count(g) == a.pin_count(g)
}

/// What an error of fetching a page that `pool` does not hold tells: no
/// frame could be freed (every frame holds a page and every candidate of the
/// policy is pinned), or the disk failed.
pub open spec fn fetch_failed<const PAGE_SIZE: usize, D: DiskManager<PAGE_SIZE>, R: ReplacementPolicy>(
    pool: BufferPoolManager<PAGE_SIZE, D, R>,
    e: BufferError,
) -> bool {
    match e {
        BufferError::NoFreeFrames => {
            &&& forall|g: int| 0 <= g < pool.pool_size_view() ==> #[trigger] pool.frame_page(g) is Some
            &&& forall|c: usize|
                #[trigger] pool.replacer_view().candidates().contains(c) ==> pool.replacer_view().is_pinned(c)
        },
        BufferError::StorageError(_) => true,
        BufferError::PageNotFound => false,
    }
}

/// Every frame that holds a page which the disk holds too, and is not dirty,
/// has the disk's bytes of the page.
pub open spec fn images_kept<const PAGE_SIZE: usize, D: DiskManager<PAGE_SIZE>, R: ReplacementPolicy>(
    pool: BufferPoolManager<PAGE_SIZE, D, R>,
) -> bool {
    forall|f: int|
        0 <= f < pool.pool_size_view() && #[trigger] pool.frame_page(f) is Some && !pool.is_dirty(f)
            && pool.disk_pages().contains_key(pool.frame_page(f)->0) ==> pool.disk_pages()[pool.frame_page(f)->0]
            == pool.frame_view(f).bytes()
}

/// What `pool` keeps of page `p` whether or not the page stays in memory:
/// the bytes of its frame when it is in the pool, dirty or also on disk;
/// else the disk's bytes of it, if any.
pub open spec fn kept_image<const PAGE_SIZE: usize, D: DiskManager<PAGE_SIZE>, R: ReplacementPolicy>(
    pool: BufferPoolManager<PAGE_SIZE, D, R>,
    p: PageId,
) -> Option<Seq<u8>> {
    match pool.lookup(p) {
        Some(f) => if pool.is_dirty(f as int) || pool.disk_pages().contains_key(p) {
            Some(pool.frame_view(f as int).bytes())
        } else {
            None
        },
        None => if pool.disk_pages().contains_key(p) {
            Some(pool.disk_pages()[p])
        } else {
            None
        },
    }
}

/// Every page that `a` keeps an image of is kept by `b` with the same bytes.
pub open spec fn images_stay<const PAGE_SIZE: usize, D: DiskManager<PAGE_SIZE>, R: ReplacementPolicy>(
    a: BufferPoolManager<PAGE_SIZE, D, R>,
    b: BufferPoolManager<PAGE_SIZE, D, R>,
) -> bool {
    forall|p: PageId| #[trigger] kept_image(a, p) is Some ==> kept_image(b, p) == kept_image(a, p)
}

/// The pin count after one more pin, wrapping around at `u32::MAX`.
pub open spec fn pinned_once(c: u32) -> u32 {
    if c == u32::MAX {
        0
    } else {
        (c + 1) as u32
    }
}

/// Caches pages of a disk in a fixed number of frames. A page is fetched
/// into a frame (read from disk on a miss, evicting a victim chosen by the
/// replacement policy and writing it back first when it is dirty) and stays
/// pinned until its users unpin it.
pub struct BufferPoolManager<const PAGE_SIZE: usize, D: DiskManager<PAGE_SIZE>, R: ReplacementPolicy> {
    pool_size: usize,
    /// The pages in memory.
    frames: Vec<SlottedPage<PAGE_SIZE>>,
    /// What is known of each frame.
    descriptors: Vec<FrameDescriptor>,
    /// Which frame holds which page.
    page_table: HashMap<u64, usize>,
    disk_manager: D,
    replacer: R,
}

impl<const PAGE_SIZE: usize, D: DiskManager<PAGE_SIZE>, R: ReplacementPolicy> BufferPoolManager<
    PAGE_SIZE,
    D,
    R,
> {
    /// The number of frames.
    pub closed spec fn pool_size_view(&self) -> nat {
        self.pool_size as nat
    }

    /// The page held by frame `f`.
    pub closed spec fn frame_page(&self, f: int) -> Option<PageId> {
        self.descriptors@[f].page_id
    }

    /// The pin count of frame `f`.
    pub closed spec fn pin_count(&self, f: int) -> u32 {
        self.descriptors@[f].pin_count
    }

    /// Whether frame `f` was modified since its page was last written.
    pub closed spec fn is_dirty(&self, f: int) -> bool {
        self.descriptors@[f].is_dirty
    }

    /// The page in memory in frame `f`.
    pub closed spec fn frame_view(&self, f: int) -> SlottedPage<PAGE_SIZE> {
        self.frames@[f]
    }

    /// The frame that holds `p`, if `p` is in the pool.
    pub closed spec fn lookup(&self, p: PageId) -> Option<usize> {
        if self.page_table@.contains_key(page_key(p)) {
            Some(self.page_table@[page_key(p)])
        } else {
            None
        }
    }

    /// The pages in memory, frame by frame.
    pub closed spec fn frames_view(&self) -> Seq<SlottedPage<PAGE_SIZE>> {
        self.frames@
    }

    /// The frame descriptors.
    pub closed spec fn descriptors_view(&self) -> Seq<FrameDescriptor> {
        self.descriptors@
    }

    /// The page table.
    pub closed spec fn table_view(&self) -> Map<u64, usize> {
        self.page_table@
    }

    /// The disk manager.
    pub closed spec fn disk_view(&self) -> D {
        self.disk_manager
    }

    /// What the disk holds.
    pub closed spec fn disk_pages(&self) -> Map<PageId, Seq<u8>> {
        self.disk_manager.pages()
    }

    /// The replacement policy.
    pub closed spec fn replacer_view(&self) -> R {
        self.replacer
    }

    /// The page table and the frame descriptors agree, every frame holds a
    /// whole page, and the policy only knows frames of this pool.
    pub closed spec fn wf(&self) -> bool {
        let n = self.pool_size as int;
        &&& self.frames@.len() == n
        &&& self.descriptors@.len() == n
        &&& forall|f: int| 0 <= f < n ==> (#[trigger] self.frames@[f]).wf()
        &&& forall|k: u64|
            #[trigger] self.page_table@.contains_key(k) ==> {
                let f = self.page_table@[k] as int;
                &&& 0 <= f < n
                &&& self.descriptors@[f].page_id is Some
                &&& page_key(self.descriptors@[f].page_id->0) == k
            }
        &&& forall|f: int|
            0 <= f < n && (#[trigger] self.descriptors@[f]).page_id is Some ==> {
                let k = page_key(self.descriptors@[f].page_id->0);
                &&& self.page_table@.contains_key(k)
                &&& self.page_table@[k] == f
            }
        &&& forall|f: int|
            0 <= f < n && (#[trigger] self.descriptors@[f]).page_id is None
                ==> !self.descriptors@[f].is_dirty
        &&& self.replacer.inv()
        &&& forall|f: usize| f < n ==> #[trigger] self.replacer.accepts(f)
        &&& forall|f: usize| #[trigger] self.replacer.candidates().contains(f) ==> f < n
        &&& forall|f: usize| f < n && (#[trigger] self.descriptors@[f as int]).pin_count > 0
            ==> self.replacer.is_pinned(f)
    }

    /// `p` is in the pool exactly when some frame holds it, and that frame is
    /// the one the page table gives.
    pub proof fn lemma_lookup(&self, p: PageId)
        requires
            self.wf(),
        ensures
            self.lookup(p) matches Some(f) ==> f < self.pool_size_view() && self.frame_page(
                f as int,
            ) == Some(p),
            self.lookup(p) is None ==> forall|f: int|
                0 <= f < self.pool_size_view() ==> self.frame_page(f) != Some(p),
            forall|f: int|
                0 <= f < self.pool_size_view() && #[trigger] self.frame_page(f) == Some(p)
                    ==> self.lookup(p) == Some(f as usize),
    {
        if self.page_table@.contains_key(page_key(p)) {
            let f = self.page_table@[page_key(p)] as int;
            lemma_page_key_injective(self.descriptors@[f].page_id->0, p);
            assert forall|g: int|
                0 <= g < self.pool_size_view() && #[trigger] self.frame_page(g) == Some(p)
                implies self.lookup(p) == Some(g as usize) by {
                assert(self.page_table@[page_key(p)] == g);
            }
        } else {
            assert forall|f: int| 0 <= f < self.pool_size_view() implies self.frame_page(f) != Some(p) by {
                if self.descriptors@[f].page_id == Some(p) {
                    assert(self.page_table@.contains_key(page_key(p)));
                }
            }
        }
    }

    /// A dirty frame holds a page.
    pub proof fn lemma_dirty_has_page(&self, f: int)
        requires
            self.wf(),
            0 <= f < self.pool_size_view(),
            self.is_dirty(f),
        ensures
            self.frame_page(f) is Some,
    {
    }

    /// A fetch that succeeds keeps the images: the frame it gives holds the
    /// kept image of the page, every image of `self` stays in `b`, and the
    /// frames of `b` still agree with the disk (the premises are what
    /// `fetch_page` states of a success).
    pub proof fn lemma_fetch_keeps_images(&self, b: Self, page_id: PageId, f: usize)
        requires
            self.wf(),
            b.wf(),
            images_kept(*self),
            b.pool_size_view() == self.pool_size_view(),
            f < self.pool_size_view(),
            b.lookup(page_id) == Some(f),
            b.frame_page(f as int) == Some(page_id),
            self.lookup(page_id) == Some(f) ==> {
                &&& b.frame_view(f as int) == self.frame_view(f as int)
                &&& b.is_dirty(f as int) == self.is_dirty(f as int)
                &&& b.disk_pages() == self.disk_pages()
            },
            self.lookup(page_id) is None ==> {
                &&& !b.is_dirty(f as int)
                &&& b.disk_pages().contains_key(page_id) ==> b.frame_view(f as int).bytes() == b.disk_pages()[page_id]
                &&& (self.is_dirty(f as int) ==> b.disk_pages() == self.disk_pages().insert(
                    self.frame_page(f as int)->0,
                    self.frame_view(f as int).bytes(),
                ))
                &&& (!self.is_dirty(f as int) ==> b.disk_pages() == self.disk_pages())
            },
            forall|g: int|
                0 <= g < self.pool_size_view() && g != f ==> {
                    &&& #[trigger] b.frame_page(g) == self.frame_page(g)
                    &&& b.frame_view(g) == self.frame_view(g)
                    &&& b.is_dirty(g) == self.is_dirty(g)
                },
        ensures
            images_kept(b),
            images_stay(*self, b),
            kept_image(*self, page_id) is Some ==> b.frame_view(f as int).bytes() == kept_image(*self, page_id)->0,
    {
        self.lemma_lookup(page_id);
        b.lemma_lookup(page_id);
        let old_page = self.frame_page(f as int);
        if self.is_dirty(f as int) {
            assert(old_page is Some);
        }
        if let Some(q) = old_page {
            self.lemma_lookup(q);
        }
        let hit = self.lookup(page_id) is Some;
        if let Some(g) = self.lookup(page_id) {
            if g != f {
                assert(b.frame_page(g as int) == self.frame_page(g as int));
            }
            assert(g == f);
        }
        assert forall|g: int|
            0 <= g < b.pool_size_view() && #[trigger] b.frame_page(g) is Some && !b.is_dirty(g)
                && b.disk_pages().contains_key(b.frame_page(g)->0) implies b.disk_pages()[b.frame_page(g)->0]
            == b.frame_view(g).bytes() by {
            if g == f {
                if hit {
                    assert(self.frame_page(f as int) == Some(page_id));
                    assert(self.frame_page(g) is Some);
                }
            } else {
                let pg = self.frame_page(g)->0;
                assert(self.frame_page(g) == b.frame_page(g));
                self.lemma_lookup(pg);
                if !hit && self.is_dirty(f as int) {
                    let q = old_page->0;
                    assert(pg != q);
                    assert(b.disk_pages()[pg] == self.disk_pages()[pg]);
                    assert(self.disk_pages().contains_key(pg));
                }
                assert(self.frame_page(g) is Some);
            }
        }
        assert forall|p: PageId| #[trigger] kept_image(*self, p) is Some implies kept_image(b, p) == kept_image(*self, p) by {
            self.lemma_lookup(p);
            b.lemma_lookup(p);
            if p == page_id {
                if !hit {
                    if self.is_dirty(f as int) {
                        let q = old_page->0;
                        assert(self.lookup(q) == Some(f));
                        assert(q != page_id);
                        assert(b.disk_pages()[page_id] == self.disk_pages()[page_id]);
                    }
                    assert(b.disk_pages().contains_key(page_id));
                }
            } else if old_page == Some(p) {
                assert(self.lookup(p) == Some(f));
                assert(b.frame_page(f as int) != Some(p));
                assert(b.lookup(p) is None);
                if self.is_dirty(f as int) {
                    assert(b.disk_pages()[p] == self.frame_view(f as int).bytes());
                } else {
                    assert(self.frame_page(f as int) is Some);
                }
            } else {
                if !hit && self.is_dirty(f as int) {
                    let q = old_page->0;
                    assert(p != q);
                    assert(b.disk_pages().contains_key(p) == self.disk_pages().contains_key(p));
                    assert(b.disk_pages()[p] == self.disk_pages()[p]);
                }
                if let Some(g) = self.lookup(p) {
                    assert(g != f);
                    assert(b.frame_page(g as int) == Some(p));
                    assert(b.lookup(p) == Some(g));
                } else {
                    if let Some(g) = b.lookup(p) {
                        assert(g != f);
                        assert(self.frame_page(g as int) == Some(p));
                    }
                }
            }
        }
    }

    /// A pool of `pool_size` empty frames over `disk_manager`, evicting with
    /// `replacer`.
    pub fn new(pool_size: usize, disk_manager: D, replacer: R) -> (r: Self)
        requires
            HEADER_SIZE <= PAGE_SIZE <= u16::MAX,
            replacer.inv(),
            forall|f: usize| f < pool_size ==> #[trigger] replacer.accepts(f),
            forall|f: usize| #[trigger] replacer.candidates().contains(f) ==> f < pool_size,
        ensures
            r.wf(),
            r.pool_size_view() == pool_size,
            forall|f: int|
                0 <= f < pool_size ==> #[trigger] r.frame_page(f) is None && r.pin_count(f) == 0
                    && !r.is_dirty(f),
            r.disk_pages() == disk_manager.pages(),
            r.replacer_view() == replacer,
    {
        let mut frames: Vec<SlottedPage<PAGE_SIZE>> = Vec::new();
        let mut descriptors: Vec<FrameDescriptor> = Vec::new();
        let mut i: usize = 0;
        while i < pool_size
            invariant
                HEADER_SIZE <= PAGE_SIZE <= u16::MAX,
                i <= pool_size,
                frames@.len() == i,
                descriptors@.len() == i,
                forall|f: int| 0 <= f < i ==> (#[trigger] frames@[f]).wf(),
                forall|f: int|
                    0 <= f < i ==> (#[trigger] descriptors@[f]).page_id is None
                        && descriptors@[f].pin_count == 0 && !descriptors@[f].is_dirty,
            decreases pool_size - i,
        {
            frames.push(SlottedPage::new());
            descriptors.push(FrameDescriptor::new());
            i = i + 1;
        }
        BufferPoolManager {
            pool_size,
            frames,
            descriptors,
            page_table: HashMap::new(),
            disk_manager,
            replacer,
        }
    }

    /// A frame to load a page into: the first empty frame, or else the victim
    /// of the replacement policy.
    fn find_victim_frame(&mut self) -> (r: Result<usize, BufferError>)
        requires
            old(self).wf(),
        ensures
            final(self).wf(),
            final(self).frames@ == old(self).frames@,
            final(self).descriptors@ == old(self).descriptors@,
            final(self).page_table@ == old(self).page_table@,
            final(self).disk_manager == old(self).disk_manager,
            final(self).pool_size == old(self).pool_size,
            match r {
                Ok(f) => {
                    &&& f < old(self).pool_size
                    &&& (exists|g: int|
                        0 <= g < old(self).pool_size && (#[trigger] old(self).descriptors@[g]).page_id is None)
                        ==> old(self).descriptors@[f as int].page_id is None && forall|g: int|
                        0 <= g < f ==> (#[trigger] old(self).descriptors@[g]).page_id is Some
                    &&& (forall|g: int|
                        0 <= g < old(self).pool_size ==> (#[trigger] old(self).descriptors@[g]).page_id is Some)
                        ==> old(self).replacer.candidates().contains(f) && !old(self).replacer.is_pinned(f)
                },
                Err(e) => e is NoFreeFrames && (forall|g: int|
                    0 <= g < old(self).pool_size ==> (#[trigger] old(self).descriptors@[g]).page_id is Some)
                    && forall|c: usize| #[trigger] old(self).replacer.candidates().contains(c)
                    ==> old(self).replacer.is_pinned(c),
            },
    {
        let mut i: usize = 0;
        while i < self.descriptors.len()
            invariant
                self.wf(),
                self == old(self),
                i <= self.descriptors@.len(),
                forall|g: int| 0 <= g < i ==> (#[trigger] self.descriptors@[g]).page_id is Some,
            decreases self.descriptors@.len() - i,
        {
            if self.descriptors[i].page_id.is_none() {
                return Ok(i);
            }
            i = i + 1;
        }
        match self.replacer.evict() {
            Some(victim) => Ok(victim),
            None => Err(BufferError::NoFreeFrames),
        }
    }

    /// Pins the page and returns its frame. On a miss the page is read from
    /// disk into the first free frame or, when every frame holds a page, into
    /// the policy's victim, whose page is first written back when dirty.
    pub fn fetch_page(&mut self, page_id: PageId) -> (r: Result<usize, BufferError>)
        requires
            old(self).wf(),
        ensures
            final(self).wf(),
            final(self).pool_size_view() == old(self).pool_size_view(),
            match r {
                Ok(f) => {
                    &&& f < old(self).pool_size_view()
                    &&& final(self).lookup(page_id) == Some(f)
                    &&& final(self).frame_page(f as int) == Some(page_id)
                    &&& final(self).pin_count(f as int) == pinned_once(old(self).pin_count(f as int))
                    &&& final(self).replacer_view().is_pinned(f)
                    &&& final(self).replacer_view().candidates().contains(f)
                    &&& old(self).lookup(page_id) == Some(f) ==> {
                        &&& final(self).frame_view(f as int) == old(self).frame_view(f as int)
                        &&& final(self).is_dirty(f as int) == old(self).is_dirty(f as int)
                        &&& final(self).disk_pages() == old(self).disk_pages()
                    }
                    &&& old(self).lookup(page_id) is None ==> {
                        &&& (exists|g: int| 0 <= g < old(self).pool_size_view() && #[trigger] old(self).frame_page(g) is None)
                            ==> old(self).frame_page(f as int) is None && forall|g: int|
                            0 <= g < f ==> #[trigger] old(self).frame_page(g) is Some
                        &&& (forall|g: int| 0 <= g < old(self).pool_size_view() ==> #[trigger] old(self).frame_page(g) is Some)
                            ==> {
                            &&& old(self).replacer_view().candidates().contains(f)
                            &&& !old(self).replacer_view().is_pinned(f)
                            &&& old(self).pin_count(f as int) == 0
                        }
                        &&& !final(self).is_dirty(f as int)
                        &&& final(self).disk_pages().contains_key(page_id) ==> final(self).frame_view(f as int).bytes() == final(self).disk_pages()[page_id]
                        &&& (old(self).is_dirty(f as int) ==> final(self).disk_pages() == old(self).disk_pages().insert(
                            old(self).frame_page(f as int)->0,
                            old(self).frame_view(f as int).bytes(),
                        ))
                        &&& (!old(self).is_dirty(f as int) ==> final(self).disk_pages() == old(self).disk_pages())
                        &&& old(self).frame_page(f as int) matches Some(q) ==> final(self).lookup(q)
                            is None
                    }
                    &&& forall|g: int|
                        0 <= g < old(self).pool_size_view() && g != f ==> {
                            &&& #[trigger] final(self).frame_page(g) == old(self).frame_page(g)
                            &&& final(self).frame_view(g) == old(self).frame_view(g)
                            &&& final(self).pin_count(g) == old(self).pin_count(g)
                            &&& final(self).is_dirty(g) == old(self).is_dirty(g)
                        }
                },
                Err(BufferError::NoFreeFrames) => {
                    &&& old(self).lookup(page_id) is None
                    &&& final(self).disk_pages() == old(self).disk_pages()
                    &&& forall|g: int|
                        0 <= g < old(self).pool_size_view() ==> {
                            &&& #[trigger] final(self).frame_page(g) == old(self).frame_page(g)
                            &&& final(self).frame_view(g) == old(self).frame_view(g)
                            &&& final(self).pin_count(g) == old(self).pin_count(g)
                            &&& final(self).is_dirty(g) == old(self).is_dirty(g)
                        }
                    &&& forall|g: int|
                        0 <= g < old(self).pool_size_view() ==> #[trigger] old(self).frame_page(g)
                            is Some
                    &&& forall|c: usize|
                        #[trigger] old(self).replacer_view().candidates().contains(c) ==> old(
                            self,
                        ).replacer_view().is_pinned(c)
                },
                Err(BufferError::PageNotFound) => false,
                Err(BufferError::StorageError(_)) => {
                    &&& old(self).lookup(page_id) is None
                    &&& exists|f: int|
                        0 <= f < old(self).pool_size_view() && final(self).pin_count(f) == old(self).pin_count(f)
                            && (final(self).frame_page(f) == old(self).frame_page(f) || final(self).frame_page(f)
                            == Some(page_id)) && #[trigger] same_but(*old(self), *final(self), f)
                },
            },
            old(self).lookup(page_id) is None && (forall|g: int|
                0 <= g < old(self).pool_size_view() ==> #[trigger] old(self).frame_page(g) is Some) && (forall|c: usize|
                #[trigger] old(self).replacer_view().candidates().contains(c) ==> old(self).replacer_view().is_pinned(c))
                ==> r matches Err(BufferError::NoFreeFrames),
            images_kept(*old(self)) && !(r matches Err(BufferError::StorageError(_))) ==> images_kept(*final(self))
                && images_stay(*old(self), *final(self)),
    {
        proof {
            self.lemma_lookup(page_id);
        }
        let key = key_of(page_id);
        match self.page_table.get(&key) {
            Some(frame_ref) => {
                let frame_id = *frame_ref;
                self.descriptors[frame_id].pin();
                self.replacer.set_pin(frame_id, true);
                self.replacer.record_access(frame_id);
                proof {
                    assert(self.descriptors@ =~= old(self).descriptors@.update(frame_id as int, self.descriptors@[frame_id as int]));
                    assert forall|k: u64| #[trigger] self.page_table@.contains_key(k) implies {
                        let f = self.page_table@[k] as int;
                        &&& 0 <= f < self.pool_size
                        &&& self.descriptors@[f].page_id is Some
                        &&& page_key(self.descriptors@[f].page_id->0) == k
                    } by {
                        assert(old(self).page_table@.contains_key(k));
                    }
                    assert forall|f: usize| #[trigger] self.replacer.candidates().contains(f) implies f < self.pool_size by {
                        assert(old(self).replacer.candidates().insert(frame_id).contains(f));
                    }
                    if images_kept(*old(self)) {
                        assert forall|p: PageId| #[trigger] kept_image(*old(self), p) is Some implies kept_image(*self, p)
                            == kept_image(*old(self), p) by {
                            assert(self.lookup(p) == old(self).lookup(p));
                        }
                        assert forall|g: int|
                            0 <= g < self.pool_size_view() && #[trigger] self.frame_page(g) is Some && !self.is_dirty(g)
                                && self.disk_pages().contains_key(self.frame_page(g)->0) implies self.disk_pages()[self.frame_page(g)->0]
                            == self.frame_view(g).bytes() by {
                            assert(old(self).frame_page(g) == self.frame_page(g));
                        }
                    }
                }
                return Ok(frame_id);
            },
            None => {},
        }
        let frame_id = match self.find_victim_frame() {
            Ok(f) => f,
            Err(e) => {
                proof {
                    if images_kept(*old(self)) {
                        assert forall|p: PageId| #[trigger] kept_image(*old(self), p) is Some implies kept_image(*self, p)
                            == kept_image(*old(self), p) by {
                            assert(self.lookup(p) == old(self).lookup(p));
                        }
                        assert forall|g: int|
                            0 <= g < self.pool_size_view() && #[trigger] self.frame_page(g) is Some && !self.is_dirty(g)
                                && self.disk_pages().contains_key(self.frame_page(g)->0) implies self.disk_pages()[self.frame_page(g)->0]
                            == self.frame_view(g).bytes() by {
                            assert(old(self).frame_page(g) == self.frame_page(g));
                        }
                    }
                }
                return Err(e);
            },
        };
        let ghost after_victim = *self;
        proof {
            if forall|g: int| 0 <= g < old(self).pool_size_view() ==> #[trigger] old(self).frame_page(g) is Some {
                assert forall|g: int| 0 <= g < old(self).pool_size implies (#[trigger] old(self).descriptors@[g]).page_id is Some by {
                    assert(old(self).frame_page(g) is Some);
                }
                assert(old(self).replacer_view().candidates().contains(frame_id));
            }
        }
        if self.descriptors[frame_id].is_dirty {
            if let Some(old_page_id) = self.descriptors[frame_id].page_id {
                match self.frames[frame_id].write_to(&mut self.disk_manager, old_page_id) {
                    Ok(()) => {},
                    Err(e) => {
                        proof {
                            assert(same_but(*old(self), *self, frame_id as int));
                        }
                        return Err(BufferError::StorageError(e));
                    },
                }
                self.descriptors[frame_id].is_dirty = false;
            }
        }
        let ghost after_flush = *self;
        if let Some(old_page_id) = self.descriptors[frame_id].page_id {
            let old_key = key_of(old_page_id);
            self.page_table.remove(&old_key);
        }
        self.descriptors[frame_id].page_id = Some(page_id);
        self.page_table.insert(key, frame_id);
        let ghost after_map = *self;
        proof {
            assert forall|k: u64| #[trigger] self.page_table@.contains_key(k) implies {
                let f = self.page_table@[k] as int;
                &&& 0 <= f < self.pool_size
                &&& self.descriptors@[f].page_id is Some
                &&& page_key(self.descriptors@[f].page_id->0) == k
            } by {
                if k != key {
                    assert(after_flush.page_table@.contains_key(k));
                    let g = after_flush.page_table@[k] as int;
                    if g == frame_id {
                        lemma_page_key_injective(after_flush.descriptors@[g].page_id->0, after_flush.descriptors@[g].page_id->0);
                    }
                }
            }
            assert forall|f: int|
                0 <= f < self.pool_size && (#[trigger] self.descriptors@[f]).page_id is Some implies {
                let k = page_key(self.descriptors@[f].page_id->0);
                &&& self.page_table@.contains_key(k)
                &&& self.page_table@[k] == f
            } by {
                if f != frame_id {
                    let q = after_flush.descriptors@[f].page_id->0;
                    assert(after_flush.descriptors@[f] == self.descriptors@[f]);
                    lemma_page_key_injective(q, page_id);
                    if let Some(o) = after_flush.descriptors@[frame_id as int].page_id {
                        lemma_page_key_injective(q, o);
                    }
                }
            }
        }
        match self.frames[frame_id].read_from(&self.disk_manager, page_id) {
            Ok(()) => {},
            Err(e) => {
                proof {
                    assert forall|f: int| 0 <= f < self.pool_size implies (#[trigger] self.frames@[f]).wf() by {
                        if f != frame_id {
                            assert(self.frames@[f] == after_map.frames@[f]);
                        }
                    }
                    assert forall|g: int| 0 <= g < old(self).pool_size_view() && g != frame_id implies {
                        &&& #[trigger] self.frame_page(g) == old(self).frame_page(g)
                        &&& self.frame_view(g) == old(self).frame_view(g)
                        &&& self.pin_count(g) == old(self).pin_count(g)
                        &&& self.is_dirty(g) == old(self).is_dirty(g)
                    } by {
                        assert(self.frames@[g] == after_map.frames@[g]);
                    }
                    assert(same_but(*old(self), *self, frame_id as int));
                }
                return Err(BufferError::StorageError(e));
            },
        }
        self.descriptors[frame_id].pin();
        self.replacer.set_pin(frame_id, true);
        self.replacer.record_access(frame_id);
        proof {
            assert forall|f: int| 0 <= f < self.pool_size implies (#[trigger] self.frames@[f]).wf() by {
                if f != frame_id {
                    assert(self.frames@[f] == after_map.frames@[f]);
                }
            }
            assert forall|f: usize| #[trigger] self.replacer.candidates().contains(f) implies f < self.pool_size by {
                assert(after_map.replacer.candidates().insert(frame_id).contains(f));
            }
            lemma_page_key_injective(page_id, page_id);
            if let Some(q) = old(self).descriptors@[frame_id as int].page_id {
                self.lemma_lookup(q);
            }
            if images_kept(*old(self)) {
                old(self).lemma_fetch_keeps_images(*self, page_id, frame_id);
            }
        }
        Ok(frame_id)
    }

    /// Drops one pin of a page in the pool, marking it dirty when `is_dirty`.
    /// When the last pin goes the policy may evict the frame again.
    pub fn unpin_page(&mut self, page_id: PageId, is_dirty: bool) -> (r: Result<(), BufferError>)
        requires
            old(self).wf(),
            old(self).lookup(page_id) matches Some(f) ==> old(self).pin_count(f as int) > 0,
        ensures
            final(self).wf(),
            final(self).pool_size_view() == old(self).pool_size_view(),
            final(self).disk_pages() == old(self).disk_pages(),
            forall|g: int|
                0 <= g < old(self).pool_size_view() ==> {
                    &&& #[trigger] final(self).frame_page(g) == old(self).frame_page(g)
                    &&& final(self).frame_view(g) == old(self).frame_view(g)
                },
            match old(self).lookup(page_id) {
                Some(f) => {
                    &&& r is Ok
                    &&& final(self).pin_count(f as int) == old(self).pin_count(f as int) - 1
                    &&& final(self).replacer_view().is_pinned(f) == (final(self).pin_count(f as int) > 0)
                    &&& final(self).is_dirty(f as int) == (old(self).is_dirty(f as int) || is_dirty)
                    &&& forall|g: int|
                        0 <= g < old(self).pool_size_view() && g != f ==> {
                            &&& #[trigger] final(self).pin_count(g) == old(self).pin_count(g)
                            &&& final(self).is_dirty(g) == old(self).is_dirty(g)
                        }
                    &&& forall|g: usize|
                        g != f ==> #[trigger] final(self).replacer_view().is_pinned(g) == old(
                            self,
                        ).replacer_view().is_pinned(g)
                    &&& final(self).pin_count(f as int) > 0 ==> final(self).replacer_view() == old(
                        self,
                    ).replacer_view()
                    &&& final(self).replacer_view().candidates().subset_of(
                        old(self).replacer_view().candidates().insert(f),
                    )
                },
                None => {
                    &&& r matches Err(BufferError::PageNotFound)
                    &&& final(self).descriptors_view() == old(self).descriptors_view()
                    &&& final(self).replacer_view() == old(self).replacer_view()
                },
            },
            forall|p: PageId| #[trigger] final(self).lookup(p) == old(self).lookup(p),
            forall|g: int|
                0 <= g < old(self).pool_size_view() && #[trigger] old(self).is_dirty(g) ==> final(self).is_dirty(g),
    {
        proof {
            self.lemma_lookup(page_id);
        }
        let key = key_of(page_id);
        match self.page_table.get(&key) {
            Some(frame_ref) => {
                let frame_id = *frame_ref;
                if is_dirty {
                    self.descriptors[frame_id].is_dirty = true;
                }
                self.descriptors[frame_id].unpin();
                if self.descriptors[frame_id].pin_count == 0 {
                    self.replacer.set_pin(frame_id, false);
                }
                proof {
                    assert forall|k: u64| #[trigger] self.page_table@.contains_key(k) implies {
                        let f = self.page_table@[k] as int;
                        &&& 0 <= f < self.pool_size
                        &&& self.descriptors@[f].page_id is Some
                        &&& page_key(self.descriptors@[f].page_id->0) == k
                    } by {
                        assert(old(self).page_table@.contains_key(k));
                    }
                    assert forall|f: usize| #[trigger] self.replacer.candidates().contains(f) implies f < self.pool_size by {
                        assert(old(self).replacer.candidates().insert(frame_id).contains(f));
                    }
                }
                Ok(())
            },
            None => Err(BufferError::PageNotFound),
        }
    }

    /// Writes a page in the pool to disk and marks it clean.
    pub fn flush_page(&mut self, page_id: PageId) -> (r: Result<(), BufferError>)
        requires
            old(self).wf(),
        ensures
            final(self).wf(),
            final(self).pool_size_view() == old(self).pool_size_view(),
            forall|g: int|
                0 <= g < old(self).pool_size_view() ==> {
                    &&& #[trigger] final(self).frame_page(g) == old(self).frame_page(g)
                    &&& final(self).frame_view(g) == old(self).frame_view(g)
                    &&& final(self).pin_count(g) == old(self).pin_count(g)
                },
            match old(self).lookup(page_id) {
                Some(f) => {
                    &&& r is Ok ==> {
                        &&& final(self).disk_pages() == old(self).disk_pages().insert(
                            page_id,
                            old(self).frame_view(f as int).bytes(),
                        )
                        &&& !final(self).is_dirty(f as int)
                    }
                    &&& r matches Err(e) ==> e is StorageError
                    &&& forall|g: int|
                        0 <= g < old(self).pool_size_view() && g != f ==> #[trigger] final(
                            self).is_dirty(g) == old(self).is_dirty(g)
                },
                None => r matches Err(BufferError::PageNotFound) && final(self).disk_pages() == old(
                    self).disk_pages() && final(self).descriptors_view() == old(self).descriptors_view(),
            },
    {
        proof {
            self.lemma_lookup(page_id);
        }
        let key = key_of(page_id);
        match self.page_table.get(&key) {
            Some(frame_ref) => {
                let frame_id = *frame_ref;
                match self.frames[frame_id].write_to(&mut self.disk_manager, page_id) {
                    Ok(()) => {},
                    Err(e) => return Err(BufferError::StorageError(e)),
                }
                self.descriptors[frame_id].is_dirty = false;
                proof {
                    assert forall|k: u64| #[trigger] self.page_table@.contains_key(k) implies {
                        let f = self.page_table@[k] as int;
                        &&& 0 <= f < self.pool_size
                        &&& self.descriptors@[f].page_id is Some
                        &&& page_key(self.descriptors@[f].page_id->0) == k
                    } by {
                        assert(old(self).page_table@.contains_key(k));
                    }
                }
                Ok(())
            },
            None => Err(BufferError::PageNotFound),
        }
    }

    /// Some frame below `bound` holds `p` and is dirty.
    pub closed spec fn dirty_below(&self, p: PageId, bound: int) -> bool {
        exists|g: int|
            0 <= g < bound && #[trigger] self.descriptors@[g].page_id == Some(p)
                && self.descriptors@[g].is_dirty
    }

    /// Writes every dirty page in the pool to disk, in frame order, and marks
    /// it clean; stops at the first failing write.
    pub fn flush_all_pages(&mut self) -> (r: Result<(), BufferError>)
        requires
            old(self).wf(),
        ensures
            final(self).wf(),
            final(self).pool_size_view() == old(self).pool_size_view(),
            forall|g: int|
                0 <= g < old(self).pool_size_view() ==> {
                    &&& #[trigger] final(self).frame_page(g) == old(self).frame_page(g)
                    &&& final(self).frame_view(g) == old(self).frame_view(g)
                    &&& final(self).pin_count(g) == old(self).pin_count(g)
                },
            r is Ok ==> {
                let n = old(self).pool_size_view() as int;
                &&& forall|g: int| 0 <= g < n ==> !#[trigger] final(self).is_dirty(g)
                &&& forall|g: int|
                    0 <= g < n && #[trigger] old(self).is_dirty(g) ==> final(self).disk_pages()
                        == final(self).disk_pages().insert(
                        old(self).frame_page(g)->0,
                        old(self).frame_view(g).bytes(),
                    )
                &&& forall|p: PageId|
                    !old(self).dirty_below(p, n) ==> #[trigger] same_entry(final(self).disk_pages(), old(self).disk_pages(), p)
            },
            r matches Err(e) ==> e is StorageError,
    {
        let mut i: usize = 0;
        while i < self.descriptors.len()
            invariant
                old(self).wf(),
                self.wf(),
                i <= self.pool_size,
                self.pool_size == old(self).pool_size,
                self.frames@ == old(self).frames@,
                self.page_table@ == old(self).page_table@,
                forall|g: int|
                    0 <= g < self.pool_size ==> {
                        &&& (#[trigger] self.descriptors@[g]).page_id == old(self).descriptors@[g].page_id
                        &&& self.descriptors@[g].pin_count == old(self).descriptors@[g].pin_count
                        &&& g >= i ==> self.descriptors@[g].is_dirty == old(self).descriptors@[g].is_dirty
                        &&& g < i ==> !self.descriptors@[g].is_dirty
                    },
                forall|g: int|
                    0 <= g < i && #[trigger] old(self).descriptors@[g].is_dirty ==> self.disk_manager.pages()
                        == self.disk_manager.pages().insert(
                        old(self).descriptors@[g].page_id->0,
                        old(self).frames@[g].bytes(),
                    ),
                forall|p: PageId|
                    !old(self).dirty_below(p, i as int) ==> #[trigger] same_entry(self.disk_manager.pages(), old(self).disk_manager.pages(), p),
            decreases self.pool_size - i,
        {
            let ghost before = self.disk_manager.pages();
            if self.descriptors[i].is_dirty {
                if let Some(page_id) = self.descriptors[i].page_id {
                    match self.frames[i].write_to(&mut self.disk_manager, page_id) {
                        Ok(()) => {},
                        Err(e) => return Err(BufferError::StorageError(e)),
                    }
                    self.descriptors[i].is_dirty = false;
                    proof {
                        // distinct frames hold distinct pages
                        assert forall|g: int| 0 <= g < i && #[trigger] old(self).descriptors@[g].is_dirty implies
                            old(self).descriptors@[g].page_id->0 != page_id by {
                            if old(self).descriptors@[g].page_id->0 == page_id {
                                let k = page_key(page_id);
                                assert(old(self).descriptors@[g].page_id is Some);
                                assert(old(self).page_table@[k] == g);
                                assert(old(self).page_table@[k] == i);
                            }
                        }
                        assert forall|g: int| 0 <= g < i + 1 && #[trigger] old(self).descriptors@[g].is_dirty implies
                            self.disk_manager.pages() == self.disk_manager.pages().insert(
                            old(self).descriptors@[g].page_id->0,
                            old(self).frames@[g].bytes(),
                        ) by {
                            if g < i {
                                let q = old(self).descriptors@[g].page_id->0;
                                assert(before == before.insert(q, old(self).frames@[g].bytes()));
                                assert(self.disk_manager.pages() =~= self.disk_manager.pages().insert(q, old(self).frames@[g].bytes()));
                            } else {
                                assert(self.disk_manager.pages() =~= self.disk_manager.pages().insert(page_id, old(self).frames@[g].bytes()));
                            }
                        }
                        assert forall|p: PageId| !old(self).dirty_below(p, i + 1) implies #[trigger] same_entry(self.disk_manager.pages(), old(self).disk_manager.pages(), p) by {
                            assert(!old(self).dirty_below(p, i as int));
                            assert(same_entry(before, old(self).disk_manager.pages(), p));
                            if p == page_id {
                                assert(old(self).descriptors@[i as int].page_id == Some(p));
                            }
                        }
                    }
                }
            }
            proof {
                assert forall|k: u64| #[trigger] self.page_table@.contains_key(k) implies {
                    let f = self.page_table@[k] as int;
                    &&& 0 <= f < self.pool_size
                    &&& self.descriptors@[f].page_id is Some
                    &&& page_key(self.descriptors@[f].page_id->0) == k
                } by {
                    assert(old(self).page_table@.contains_key(k));
                }
                if self.disk_manager.pages() == before {
                    assert forall|p: PageId| !old(self).dirty_below(p, i + 1) implies #[trigger] same_entry(self.disk_manager.pages(), old(self).disk_manager.pages(), p) by {
                        if old(self).dirty_below(p, i as int) {
                            let g = choose|g: int| 0 <= g < i && #[trigger] old(self).descriptors@[g].page_id == Some(p)
                                && old(self).descriptors@[g].is_dirty;
                            assert(old(self).descriptors@[g].page_id == Some(p));
                        }
                        assert(same_entry(before, old(self).disk_manager.pages(), p));
                    }
                }
            }
            i = i + 1;
        }
        Ok(())
    }

    /// Read access to the page in a frame.
    pub fn read_page(&self, frame_id: usize) -> (r: &SlottedPage<PAGE_SIZE>)
        requires
            self.wf(),
            frame_id < self.pool_size_view(),
        ensures
            *r == self.frame_view(frame_id as int),
            r.wf(),
    {
        &self.frames[frame_id]
    }

    /// Write access to the page in a frame; nothing else changes.
    pub fn write_page(&mut self, frame_id: usize) -> (r: &mut SlottedPage<PAGE_SIZE>)
        requires
            old(self).wf(),
            frame_id < old(self).pool_size_view(),
        ensures
            *r == old(self).frame_view(frame_id as int),
            r.wf(),
            final(self).frames_view() == old(self).frames_view().update(frame_id as int, *final(r)),
            final(self).descriptors_view() == old(self).descriptors_view(),
            final(self).table_view() == old(self).table_view(),
            final(self).pool_size_view() == old(self).pool_size_view(),
            final(self).disk_view() == old(self).disk_view(),
            final(self).replacer_view() == old(self).replacer_view(),
            final(r).wf() ==> final(self).wf(),
            forall|p: PageId| #[trigger] final(self).lookup(p) == old(self).lookup(p),
            forall|g: int|
                0 <= g < old(self).pool_size_view() ==> {
                    &&& #[trigger] final(self).frame_page(g) == old(self).frame_page(g)
                    &&& final(self).pin_count(g) == old(self).pin_count(g)
                    &&& final(self).is_dirty(g) == old(self).is_dirty(g)
                },
            forall|g: int|
                0 <= g < old(self).pool_size_view() && g != frame_id ==> #[trigger] final(self).frame_view(g)
                    == old(self).frame_view(g),
            final(self).frame_view(frame_id as int) == *final(r),
            final(self).disk_pages() == old(self).disk_pages(),
    {
        &mut self.frames[frame_id]
    }

    /// The pin count of the frame that holds `page_id`, if the page is in the pool.
    pub fn pin_count_of_page(&self, page_id: PageId) -> (r: Option<u32>)
        requires
            self.wf(),
        ensures
            match self.lookup(page_id) {
                Some(f) => r == Some(self.pin_count(f as int)),
                None => r is None,
            },
    {
        let key = key_of(page_id);
        match self.page_table.get(&key) {
            Some(f) => Some(self.descriptors[*f].pin_count),
            None => None,
        }
    }

    /// Allocates a new page on disk and fetches it into the pool, pinned.
    pub fn new_page(&mut self, file_id: u32) -> (r: Result<(usize, PageId), BufferError>)
        requires
            old(self).wf(),
        ensures
            final(self).wf(),
            final(self).pool_size_view() == old(self).pool_size_view(),
            match r {
                Ok((f, p)) => {
                    &&& f < old(self).pool_size_view()
                    &&& final(self).lookup(p) == Some(f)
                    &&& final(self).frame_page(f as int) == Some(p)
                    &&& final(self).pin_count(f as int) == pinned_once(old(self).pin_count(f as int))
                    &&& forall|g: int|
                        0 <= g < old(self).pool_size_view() && g != f ==> {
                            &&& #[trigger] final(self).frame_page(g) == old(self).frame_page(g)
                            &&& final(self).frame_view(g) == old(self).frame_view(g)
                            &&& final(self).pin_count(g) == old(self).pin_count(g)
                            &&& final(self).is_dirty(g) == old(self).is_dirty(g)
                        }
                },
                Err(BufferError::NoFreeFrames) => {
                    &&& forall|g: int|
                        0 <= g < old(self).pool_size_view() ==> #[trigger] old(self).frame_page(g) is Some
                    &&& forall|c: usize|
                        #[trigger] old(self).replacer_view().candidates().contains(c) ==> old(
                            self,
                        ).replacer_view().is_pinned(c)
                    &&& same_but(*old(self), *final(self), -1)
                },
                Err(BufferError::PageNotFound) => false,
                Err(BufferError::StorageError(_)) => exists|f: int|
                    0 <= f < old(self).pool_size_view() && final(self).pin_count(f) == old(self).pin_count(f)
                        && (final(self).frame_page(f) == old(self).frame_page(f) || old(self).lookup(
                        final(self).frame_page(f)->0,
                    ) is None) && #[trigger] same_but(*old(self), *final(self), f),
            },
            (forall|g: int|
                0 <= g < old(self).pool_size_view() ==> #[trigger] old(self).frame_page(g) is Some) && (forall|c: usize|
                #[trigger] old(self).replacer_view().candidates().contains(c) ==> old(self).replacer_view().is_pinned(c))
                ==> (r matches Err(BufferError::NoFreeFrames) || (r matches Ok((f, p)) && old(self).lookup(p)
                == Some(f))),
            images_kept(*old(self)) && r is Ok ==> images_kept(*final(self)) && images_stay(*old(self), *final(self)),
    {
        let page_id = self.disk_manager.allocate_page(file_id);
        proof {
            assert(self.wf()) by {
                assert forall|k: u64| #[trigger] self.page_table@.contains_key(k) implies {
                    let f = self.page_table@[k] as int;
                    &&& 0 <= f < self.pool_size
                    &&& self.descriptors@[f].page_id is Some
                    &&& page_key(self.descriptors@[f].page_id->0) == k
                } by {
                    assert(old(self).page_table@.contains_key(k));
                }
            }
        }
        let ghost mid = *self;
        assert(mid.replacer_view() == old(self).replacer_view());
        assert(mid.lookup(page_id) == old(self).lookup(page_id));
        assert forall|g: int| 0 <= g < old(self).pool_size_view() implies #[trigger] old(self).frame_page(g)
            == mid.frame_page(g) by {}
        proof {
            if (forall|g: int| 0 <= g < old(self).pool_size_view() ==> #[trigger] old(self).frame_page(g) is Some) {
                assert forall|g: int| 0 <= g < mid.pool_size_view() implies #[trigger] mid.frame_page(g) is Some by {
                    assert(old(self).frame_page(g) is Some);
                }
            }
        }
        let frame_id = match self.fetch_page(page_id) {
            Ok(f) => f,
            Err(e) => {
                proof {
                    assert forall|g: int| 0 <= g < old(self).pool_size_view() implies #[trigger] old(
                        self,
                    ).frame_page(g) == mid.frame_page(g) by {}
                    if let BufferError::StorageError(_) = e {
                        let f = choose|f: int|
                            0 <= f < mid.pool_size_view() && self.pin_count(f) == mid.pin_count(f) && (
                            self.frame_page(f) == mid.frame_page(f) || self.frame_page(f) == Some(page_id))
                                && #[trigger] same_but(mid, *self, f);
                        assert(same_but(*old(self), *self, f));
                        if self.frame_page(f) != mid.frame_page(f) {
                            assert(mid.lookup(page_id) is None);
                            assert(old(self).lookup(page_id) is None);
                        }
                    }
                    if let BufferError::NoFreeFrames = e {
                        assert(same_but(*old(self), *self, -1));
                    }
                }
                return Err(e);
            },
        };
        proof {
            assert forall|g: int| 0 <= g < old(self).pool_size_view() implies #[trigger] old(
                self,
            ).frame_page(g) == mid.frame_page(g) by {}
            if images_kept(*old(self)) {
                assert forall|q: PageId| #[trigger] kept_image(*old(self), q) is Some implies kept_image(mid, q)
                    == kept_image(*old(self), q) by {
                    assert(mid.lookup(q) == old(self).lookup(q));
                }
                assert forall|g: int|
                    0 <= g < mid.pool_size_view() && #[trigger] mid.frame_page(g) is Some && !mid.is_dirty(g)
                        && mid.disk_pages().contains_key(mid.frame_page(g)->0) implies mid.disk_pages()[mid.frame_page(g)->0]
                    == mid.frame_view(g).bytes() by {
                    assert(old(self).frame_page(g) == mid.frame_page(g));
                }
                assert forall|q: PageId| #[trigger] kept_image(*old(self), q) is Some implies kept_image(*self, q)
                    == kept_image(*old(self), q) by {
                    assert(kept_image(mid, q) == kept_image(*old(self), q));
                }
            }
            mid.lemma_lookup(page_id);
            self.lemma_lookup(page_id);
            if let Some(g) = mid.lookup(page_id) {
                if g != frame_id {
                    assert(self.frame_page(g as int) == mid.frame_page(g as int));
                }
            }
        }
        Ok((frame_id, page_id))
    }
}

/// A step that keeps every frame's page and bytes and the disk, and only
/// marks frames dirty, keeps the images.
pub proof fn lemma_marking_keeps_images<const PAGE_SIZE: usize, D: DiskManager<PAGE_SIZE>, R: ReplacementPolicy>(
    a: BufferPoolManager<PAGE_SIZE, D, R>,
    b: BufferPoolManager<PAGE_SIZE, D, R>,
)
    requires
        a.wf(),
        b.wf(),
        images_kept(a),
        b.pool_size_view() == a.pool_size_view(),
        b.disk_pages() == a.disk_pages(),
        forall|g: int|
            0 <= g < a.pool_size_view() ==> {
                &&& #[trigger] b.frame_page(g) == a.frame_page(g)
                &&& b.frame_view(g) == a.frame_view(g)
                &&& a.is_dirty(g) ==> b.is_dirty(g)
            },
    ensures
        images_kept(b),
        images_stay(a, b),
{
    assert forall|g: int|
        0 <= g < b.pool_size_view() && #[trigger] b.frame_page(g) is Some && !b.is_dirty(g)
            && b.disk_pages().contains_key(b.frame_page(g)->0) implies b.disk_pages()[b.frame_page(g)->0]
        == b.frame_view(g).bytes() by {
        assert(a.frame_page(g) is Some);
    }
    assert forall|p: PageId| #[trigger] kept_image(a, p) is Some implies kept_image(b, p) == kept_image(a, p) by {
        a.lemma_lookup(p);
        b.lemma_lookup(p);
        if let Some(g) = a.lookup(p) {
            assert(b.frame_page(g as int) == Some(p));
        } else if let Some(g) = b.lookup(p) {
            assert(a.frame_page(g as int) == Some(p));
        }
    }
}

/// Writing frame `f` and marking it dirty keeps the images of every other
/// page and makes the frame's bytes the image of its page.
pub proof fn lemma_writing_keeps_images<const PAGE_SIZE: usize, D: DiskManager<PAGE_SIZE>, R: ReplacementPolicy>(
    a: BufferPoolManager<PAGE_SIZE, D, R>,
    b: BufferPoolManager<PAGE_SIZE, D, R>,
    f: int,
)
    requires
        a.wf(),
        b.wf(),
        images_kept(a),
        b.pool_size_view() == a.pool_size_view(),
        b.disk_pages() == a.disk_pages(),
        0 <= f < a.pool_size_view(),
        a.frame_page(f) is Some,
        b.is_dirty(f),
        forall|g: int|
            0 <= g < a.pool_size_view() ==> {
                &&& #[trigger] b.frame_page(g) == a.frame_page(g)
                &&& g != f ==> b.frame_view(g) == a.frame_view(g)
                &&& a.is_dirty(g) ==> b.is_dirty(g)
            },
    ensures
        images_kept(b),
        kept_image(b, a.frame_page(f)->0) == Some(b.frame_view(f).bytes()),
        forall|p: PageId|
            p != a.frame_page(f)->0 && #[trigger] kept_image(a, p) is Some ==> kept_image(b, p) == kept_image(a, p),
{
    let q = a.frame_page(f)->0;
    b.lemma_lookup(q);
    assert(b.frame_page(f) == Some(q));
    assert forall|g: int|
        0 <= g < b.pool_size_view() && #[trigger] b.frame_page(g) is Some && !b.is_dirty(g)
            && b.disk_pages().contains_key(b.frame_page(g)->0) implies b.disk_pages()[b.frame_page(g)->0]
        == b.frame_view(g).bytes() by {
        assert(a.frame_page(g) is Some);
    }
    assert forall|p: PageId|
        p != q && #[trigger] kept_image(a, p) is Some implies kept_image(b, p) == kept_image(a, p) by {
        a.lemma_lookup(p);
        b.lemma_lookup(p);
        if let Some(g) = a.lookup(p) {
            assert(b.frame_page(g as int) == Some(p));
        } else if let Some(g) = b.lookup(p) {
            assert(a.frame_page(g as int) == Some(p));
        }
    }
}

/// Unpins `page_id`; a frame whose pin count went round to zero is not
/// unpinned again and gives `NoFreeFrames`.
pub(crate) fn release<const PAGE_SIZE: usize, D: DiskManager<PAGE_SIZE>, R: ReplacementPolicy>(
    pool: &mut BufferPoolManager<PAGE_SIZE, D, R>,
    page_id: PageId,
    dirty: bool,
) -> (r: Result<(), BufferError>)
    requires
        old(pool).wf(),
    ensures
        final(pool).wf(),
        final(pool).pool_size_view() == old(pool).pool_size_view(),
        final(pool).disk_pages() == old(pool).disk_pages(),
        forall|g: int|
            0 <= g < old(pool).pool_size_view() ==> #[trigger] final(pool).frame_page(g) == old(
                pool,
            ).frame_page(g),
        forall|g: int|
            0 <= g < old(pool).pool_size_view() ==> #[trigger] final(pool).frame_view(g) == old(
                pool,
            ).frame_view(g),
        forall|p: PageId| #[trigger] final(pool).lookup(p) == old(pool).lookup(p),
        forall|g: int|
            0 <= g < old(pool).pool_size_view() && #[trigger] old(pool).is_dirty(g) ==> final(pool).is_dirty(g),
        match old(pool).lookup(page_id) {
            Some(f) => if old(pool).pin_count(f as int) > 0 {
                &&& r is Ok
                &&& final(pool).pin_count(f as int) == old(pool).pin_count(f as int) - 1
                &&& final(pool).is_dirty(f as int) == (old(pool).is_dirty(f as int) || dirty)
                &&& forall|g: int|
                    0 <= g < old(pool).pool_size_view() && g != f ==> #[trigger] final(pool).pin_count(g)
                        == old(pool).pin_count(g) && final(pool).is_dirty(g) == old(pool).is_dirty(g)
            } else {
                r matches Err(BufferError::NoFreeFrames)
            },
            None => true,
        },
{
    match pool.pin_count_of_page(page_id) {
        Some(0) => {
            return Err(BufferError::NoFreeFrames);
        },
        _ => {},
    }
    let r = pool.unpin_page(page_id, dirty);
    proof {
        old(pool).lemma_lookup(page_id);
        assert forall|g: int| 0 <= g < old(pool).pool_size_view() implies #[trigger] pool.frame_view(g)
            == old(pool).frame_view(g) by {
            assert(pool.frame_page(g) == old(pool).frame_page(g));
        }
        assert forall|g: int| 0 <= g < old(pool).pool_size_view() && #[trigger] old(pool).is_dirty(g) implies pool.is_dirty(
            g,
        ) by {
            if let Some(f) = old(pool).lookup(page_id) {
                if g != f as int {
                    assert(pool.pin_count(g) == old(pool).pin_count(g));
                }
            }
        }
    }
    r
}

} // verus!
