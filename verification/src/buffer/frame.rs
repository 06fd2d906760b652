use vstd::prelude::*;
use crate::storage::PageId;

verus! {

/// What the buffer pool knows about one frame.
pub struct FrameDescriptor {
    /// The page in the frame, or `None` when the frame is empty.
    pub page_id: Option<PageId>,
    /// How many users hold the page; a pinned page is not evicted.
    pub pin_count: u32,
    /// Whether the frame was modified since the page was last written to disk.
    pub is_dirty: bool,
}

impl FrameDescriptor {
    /// An empty, unpinned, clean frame.
    pub fn new() -> (r: Self)
        ensures
            r.page_id is None,
            r.pin_count == 0,
            !r.is_dirty,
    {
        FrameDescriptor { page_id: None, pin_count: 0, is_dirty: false }
    }

    /// Decrements the pin count, which must be positive.
    pub fn unpin(&mut self)
        requires
            old(self).pin_count > 0,
        ensures
            final(self).pin_count == old(self).pin_count - 1,
            final(self).page_id == old(self).page_id,
            final(self).is_dirty == old(self).is_dirty,
    {
        self.pin_count = self.pin_count - 1;
    }

    /// Increments the pin count, wrapping around at `u32::MAX` as an atomic
    /// increment does.
    pub fn pin(&mut self)
        ensures
            final(self).pin_count == (if old(self).pin_count == u32::MAX {
                0
            } else {
                old(self).pin_count + 1
            }),
            final(self).page_id == old(self).page_id,
            final(self).is_dirty == old(self).is_dirty,
    {
        self.pin_count = self.pin_count.wrapping_add(1);
    }
}

impl Default for FrameDescriptor {
    fn default() -> (r: Self)
        ensures
            r.page_id is None,
            r.pin_count == 0,
            !r.is_dirty,
    {
        Self::new()
    }
}

} // verus!
