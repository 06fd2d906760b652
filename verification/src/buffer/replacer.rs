use vstd::prelude::*;

verus! {

/// A policy that picks which frame of the buffer pool to evict.
///
/// The policy keeps a set of candidate frames; pinned frames are never evicted. The
/// contract below is what every policy promises; each policy states its exact
/// behaviour on its own methods.
pub trait ReplacementPolicy {
    /// The frames the policy currently keeps as eviction candidates.
    spec fn candidates(&self) -> Set<usize>;

    /// The policy's internal invariant.
    spec fn inv(&self) -> bool;

    /// Whether the policy can be told about accesses to `frame_id`.
    spec fn accepts(&self, frame_id: usize) -> bool;

    /// Whether the frame is pinned: a pinned frame is never evicted.
    spec fn is_pinned(&self, frame_id: usize) -> bool;

    /// Records an access to a frame.
    fn record_access(&mut self, frame_id: usize)
        requires
            old(self).inv(),
            old(self).accepts(frame_id),
        ensures
            final(self).inv(),
            forall|f: usize| #[trigger] final(self).accepts(f) == old(self).accepts(f),
            final(self).candidates().subset_of(old(self).candidates().insert(frame_id)),
            final(self).candidates().contains(frame_id),
            forall|f: usize| #[trigger] final(self).is_pinned(f) == old(self).is_pinned(f),
    ;

    /// Sets whether a frame is pinned; pinned frames cannot be evicted.
    fn set_pin(&mut self, frame_id: usize, pinned: bool)
        requires
            old(self).inv(),
        ensures
            final(self).inv(),
            forall|f: usize| #[trigger] final(self).accepts(f) == old(self).accepts(f),
            final(self).candidates().subset_of(old(self).candidates().insert(frame_id)),
            old(self).accepts(frame_id) ==> final(self).is_pinned(frame_id) == pinned,
            forall|f: usize| f != frame_id ==> #[trigger] final(self).is_pinned(f) == old(self).is_pinned(f),
    ;

    /// Picks a victim among the candidate, unpinned frames and drops it from the candidates.
    /// Returns `None` exactly when every candidate frame is pinned.
    fn evict(&mut self) -> (r: Option<usize>)
        requires
            old(self).inv(),
        ensures
            final(self).inv(),
            forall|f: usize| #[trigger] final(self).accepts(f) == old(self).accepts(f),
            final(self).candidates().subset_of(old(self).candidates()),
            r matches Some(f) ==> old(self).candidates().contains(f)
                && !final(self).candidates().contains(f) && !old(self).is_pinned(f),
            r is None ==> forall|f: usize| #[trigger] old(self).candidates().contains(f) ==> old(self).is_pinned(f),
            forall|f: usize| #[trigger] final(self).is_pinned(f) == old(self).is_pinned(f),
    ;

    /// Drops a frame from the candidates (for instance when its page is deallocated).
    fn remove(&mut self, frame_id: usize)
        requires
            old(self).inv(),
        ensures
            final(self).inv(),
            forall|f: usize| #[trigger] final(self).accepts(f) == old(self).accepts(f),
            final(self).candidates() == old(self).candidates().remove(frame_id),
            forall|f: usize| f != frame_id ==> #[trigger] final(self).is_pinned(f) == old(self).is_pinned(f),
    ;

    /// The number of frames the policy manages.
    fn size(&self) -> (r: usize)
        requires
            self.inv(),
    ;
}

} // verus!
