use vstd::prelude::*;
use crate::buffer::replacer::ReplacementPolicy;

verus! {

/// Least-recently-used replacement: frames are kept in access order, the
/// least recently used at the front; eviction takes the first unpinned frame.
pub struct LRUReplacer {
    capacity: usize,
    /// Frames ordered by access time, the most recent at the back.
    access_queue: Vec<usize>,
    /// Whether each frame is pinned.
    is_pinned: Vec<bool>,
}

/// Index of the first unpinned frame in `q`, or `q.len()` when every frame in
/// `q` is pinned.
pub open spec fn first_unpinned(q: Seq<usize>, pinned: Seq<bool>) -> int
    decreases q.len(),
{
    if q.len() == 0 {
        0
    } else if !pinned[q[0] as int] {
        0
    } else {
        1 + first_unpinned(q.drop_first(), pinned)
    }
}

proof fn lemma_first_unpinned(q: Seq<usize>, pinned: Seq<bool>)
    ensures
        0 <= first_unpinned(q, pinned) <= q.len(),
        first_unpinned(q, pinned) < q.len() ==> !pinned[q[first_unpinned(q, pinned)] as int],
        forall|j: int| 0 <= j < first_unpinned(q, pinned) ==> pinned[#[trigger] q[j] as int],
    decreases q.len(),
{
    if q.len() > 0 && pinned[q[0] as int] {
        lemma_first_unpinned(q.drop_first(), pinned);
        assert forall|j: int| 0 <= j < first_unpinned(q, pinned) implies pinned[#[trigger] q[j] as int] by {
            if j > 0 {
                assert(q[j] == q.drop_first()[j - 1]);
            }
        }
    }
}

impl LRUReplacer {
    /// Frames in access order, least recently used first.
    pub closed spec fn queue(&self) -> Seq<usize> {
        self.access_queue@
    }

    /// Pin flags, one per frame below the capacity.
    pub closed spec fn pinned(&self) -> Seq<bool> {
        self.is_pinned@
    }

    /// The number of frames this replacer manages.
    pub closed spec fn capacity_view(&self) -> nat {
        self.capacity as nat
    }

    /// A replacer for frames `0..capacity`, with no candidates and no pins.
    pub fn new(capacity: usize) -> (r: Self)
        ensures
            r.inv(),
            r.capacity_view() == capacity,
            r.queue() == Seq::<usize>::empty(),
            r.pinned() == Seq::new(capacity as nat, |i: int| false),
            forall|f: usize| f < capacity ==> #[trigger] r.accepts(f),
            forall|f: usize| !#[trigger] r.is_pinned(f),
            r.candidates() == Set::<usize>::empty(),
    {
        let mut is_pinned: Vec<bool> = Vec::new();
        let mut i: usize = 0;
        while i < capacity
            invariant
                i <= capacity,
                is_pinned@ == Seq::new(i as nat, |k: int| false),
            decreases capacity - i,
        {
            is_pinned.push(false);
            i = i + 1;
        }
        LRUReplacer { capacity, access_queue: Vec::new(), is_pinned }
    }

    /// Position of `frame_id` in the access queue.
    fn position(&self, frame_id: usize) -> (r: Option<usize>)
        ensures
            match r {
                Some(p) => p < self.queue().len() && self.queue()[p as int] == frame_id,
                None => !self.queue().contains(frame_id),
            },
    {
        let mut i: usize = 0;
        while i < self.access_queue.len()
            invariant
                i <= self.access_queue@.len(),
                forall|k: int| 0 <= k < i ==> self.access_queue@[k] != frame_id,
            decreases self.access_queue@.len() - i,
        {
            if self.access_queue[i] == frame_id {
                return Some(i);
            }
            i = i + 1;
        }
        None
    }
}

impl ReplacementPolicy for LRUReplacer {
    closed spec fn candidates(&self) -> Set<usize> {
        self.access_queue@.to_set()
    }

    closed spec fn inv(&self) -> bool {
        &&& self.access_queue@.no_duplicates()
        &&& self.is_pinned@.len() == self.capacity
        &&& forall|i: int|
            0 <= i < self.access_queue@.len() ==> #[trigger] self.access_queue@[i] < self.capacity
    }

    closed spec fn accepts(&self, frame_id: usize) -> bool {
        frame_id < self.capacity
    }

    closed spec fn is_pinned(&self, frame_id: usize) -> bool {
        frame_id < self.capacity && self.is_pinned@[frame_id as int]
    }

    /// Moves the frame to the back of the queue (most recently used).
    fn record_access(&mut self, frame_id: usize)
        ensures
            final(self).capacity_view() == old(self).capacity_view(),
            final(self).pinned() == old(self).pinned(),
            old(self).queue().contains(frame_id) ==> exists|p: int|
                0 <= p < old(self).queue().len() && old(self).queue()[p] == frame_id
                    && final(self).queue() == old(self).queue().remove(p).push(frame_id),
            !old(self).queue().contains(frame_id) ==> final(self).queue() == old(
                self,
            ).queue().push(frame_id),
    {
        let ghost q0 = self.access_queue@;
        if let Some(pos) = self.position(frame_id) {
            self.access_queue.remove(pos);
            proof {
                assert(q0.remove(pos as int).to_set() =~= q0.to_set().remove(frame_id)) by {
                    assert forall|x: usize| q0.remove(pos as int).contains(x) <==> q0.to_set().remove(frame_id).contains(x) by {
                        if q0.remove(pos as int).contains(x) {
                            let k = choose|k: int| 0 <= k < q0.remove(pos as int).len() && q0.remove(pos as int)[k] == x;
                            if k < pos { assert(q0[k] == x); } else { assert(q0[k + 1] == x); }
                        }
                        if q0.to_set().remove(frame_id).contains(x) {
                            let k = choose|k: int| 0 <= k < q0.len() && q0[k] == x;
                            if k < pos { assert(q0.remove(pos as int)[k] == x); }
                            else { assert(q0.remove(pos as int)[k - 1] == x); }
                        }
                    }
                }
            }
        }
        let ghost q1 = self.access_queue@;
        self.access_queue.push(frame_id);
        proof {
            assert(self.access_queue@.to_set() =~= q1.to_set().insert(frame_id)) by {
                assert forall|x: usize| self.access_queue@.contains(x) <==> q1.to_set().insert(frame_id).contains(x) by {
                    if self.access_queue@.contains(x) && x != frame_id {
                        let k = choose|k: int| 0 <= k < self.access_queue@.len() && self.access_queue@[k] == x;
                        assert(q1[k] == x);
                    }
                    if q1.contains(x) {
                        let k = choose|k: int| 0 <= k < q1.len() && q1[k] == x;
                        assert(self.access_queue@[k] == x);
                    }
                    if x == frame_id {
                        assert(self.access_queue@[q1.len() as int] == x);
                    }
                }
            }
        }
    }

    /// Updates the pin flag of a frame below the capacity; other frames are ignored.
    fn set_pin(&mut self, frame_id: usize, pinned: bool)
        ensures
            final(self).capacity_view() == old(self).capacity_view(),
            final(self).queue() == old(self).queue(),
            frame_id < old(self).capacity_view() ==> final(self).pinned() == old(
                self,
            ).pinned().update(frame_id as int, pinned),
            frame_id >= old(self).capacity_view() ==> final(self).pinned() == old(self).pinned(),
    {
        if frame_id < self.capacity {
            self.is_pinned.set(frame_id, pinned);
        }
    }

    /// Evicts the least recently used unpinned frame.
    fn evict(&mut self) -> (r: Option<usize>)
        ensures
            final(self).capacity_view() == old(self).capacity_view(),
            final(self).pinned() == old(self).pinned(),
            ({
                let q = old(self).queue();
                let i = first_unpinned(q, old(self).pinned());
                &&& i < q.len() ==> r == Some(q[i]) && final(self).queue() == q.remove(i)
                &&& i == q.len() ==> r is None && final(self).queue() == q
            }),
    {
        let ghost q0 = self.access_queue@;
        proof {
            lemma_first_unpinned(q0, self.is_pinned@);
        }
        let mut i: usize = 0;
        while i < self.access_queue.len()
            invariant
                self.access_queue@ == q0,
                self.capacity == old(self).capacity,
                self.is_pinned@ == old(self).is_pinned@,
                q0 == old(self).access_queue@,
                self.inv(),
                i <= q0.len(),
                i <= first_unpinned(q0, self.is_pinned@),
            decreases q0.len() - i,
        {
            let frame_id = self.access_queue[i];
            proof {
                lemma_first_unpinned(q0, self.is_pinned@);
            }
            if !self.is_pinned[frame_id] {
                self.access_queue.remove(i);
                proof {
                    assert(i == first_unpinned(q0, self.is_pinned@)) by {
                        if i < first_unpinned(q0, self.is_pinned@) {
                            assert(self.is_pinned@[q0[i as int] as int]);
                        }
                    }
                    let q1 = self.access_queue@;
                    assert(q1.to_set() =~= q0.to_set().remove(frame_id)) by {
                        assert forall|x: usize| q1.contains(x) <==> q0.to_set().remove(frame_id).contains(x) by {
                            if q1.contains(x) {
                                let k = choose|k: int| 0 <= k < q1.len() && q1[k] == x;
                                if k < i { assert(q0[k] == x); } else { assert(q0[k + 1] == x); }
                            }
                            if q0.to_set().remove(frame_id).contains(x) {
                                let k = choose|k: int| 0 <= k < q0.len() && q0[k] == x;
                                if k < i { assert(q1[k] == x); }
                                else { assert(q1[k - 1] == x); }
                            }
                        }
                    }
                    assert forall|a: int| 0 <= a < q1.len() implies #[trigger] q1[a] < self.capacity by {
                        if a < i { assert(q1[a] == q0[a]); } else { assert(q1[a] == q0[a + 1]); }
                    }
                }
                return Some(frame_id);
            }
            i = i + 1;
        }
        None
    }

    /// Drops the frame from the queue.
    fn remove(&mut self, frame_id: usize)
        ensures
            final(self).capacity_view() == old(self).capacity_view(),
            final(self).pinned() == old(self).pinned(),
            old(self).queue().contains(frame_id) ==> exists|p: int|
                0 <= p < old(self).queue().len() && old(self).queue()[p] == frame_id
                    && final(self).queue() == old(self).queue().remove(p),
            !old(self).queue().contains(frame_id) ==> final(self).queue() == old(self).queue(),
    {
        let ghost q0 = self.access_queue@;
        if let Some(pos) = self.position(frame_id) {
            self.access_queue.remove(pos);
            proof {
                let q1 = self.access_queue@;
                assert(q1.to_set() =~= q0.to_set().remove(frame_id)) by {
                    assert forall|x: usize| q1.contains(x) <==> q0.to_set().remove(frame_id).contains(x) by {
                        if q1.contains(x) {
                            let k = choose|k: int| 0 <= k < q1.len() && q1[k] == x;
                            if k < pos { assert(q0[k] == x); } else { assert(q0[k + 1] == x); }
                        }
                        if q0.to_set().remove(frame_id).contains(x) {
                            let k = choose|k: int| 0 <= k < q0.len() && q0[k] == x;
                            if k < pos { assert(q1[k] == x); }
                            else { assert(q1[k - 1] == x); }
                        }
                    }
                }
                assert forall|a: int| 0 <= a < q1.len() implies #[trigger] q1[a] < self.capacity by {
                    if a < pos { assert(q1[a] == q0[a]); } else { assert(q1[a] == q0[a + 1]); }
                }
            }
        } else {
            assert(q0.to_set().remove(frame_id) =~= q0.to_set());
        }
    }

    /// The number of frames in the access queue.
    fn size(&self) -> (r: usize)
        ensures
            r == self.queue().len(),
    {
        self.access_queue.len()
    }
}

} // verus!
