use vstd::prelude::*;
use crate::buffer::replacer::ReplacementPolicy;

verus! {

/// Clock (second chance) replacement. The frames form a circle swept by a
/// hand. A frame that was accessed since the hand last passed has its
/// reference bit set: the hand clears the bit and moves on. The first active,
/// unpinned frame whose bit is clear is evicted.
pub struct ClockReplacer {
    capacity: usize,
    /// Whether each frame was accessed since the hand last passed it.
    ref_bits: Vec<bool>,
    /// Whether each frame is pinned.
    is_pinned: Vec<bool>,
    /// Whether each frame is managed by the clock.
    is_active: Vec<bool>,
    /// The current position of the hand.
    clock_hand: usize,
    /// The number of active frames.
    size: usize,
}

/// The number of `true` entries of `s`.
pub open spec fn count_true(s: Seq<bool>) -> nat
    decreases s.len(),
{
    if s.len() == 0 {
        0
    } else {
        count_true(s.drop_last()) + if s.last() {
            1nat
        } else {
            0nat
        }
    }
}

/// The position `k` steps after `hand` on a circle of `cap` positions.
pub open spec fn pos_after(hand: int, k: int, cap: int) -> int {
    if hand + k < cap {
        hand + k
    } else {
        hand + k - cap
    }
}

/// How many steps the hand at `hand` needs to reach position `i`.
pub open spec fn dist_from(hand: int, i: int, cap: int) -> int {
    if i >= hand {
        i - hand
    } else {
        i + cap - hand
    }
}

/// The position after `i` on a circle of `cap` positions.
pub open spec fn next_pos(i: int, cap: int) -> int {
    if i + 1 == cap {
        0
    } else {
        i + 1
    }
}

/// `refs` with the bit of every evictable frame fewer than `bound` steps
/// after `hand` cleared.
pub open spec fn cleared_before(
    refs: Seq<bool>,
    active: Seq<bool>,
    pinned: Seq<bool>,
    hand: int,
    cap: int,
    bound: int,
) -> Seq<bool> {
    Seq::new(
        cap as nat,
        |i: int|
            if active[i] && !pinned[i] && dist_from(hand, i, cap) < bound {
                false
            } else {
                refs[i]
            },
    )
}

proof fn lemma_count_bounds(s: Seq<bool>)
    ensures
        count_true(s) <= s.len(),
        (exists|i: int| 0 <= i < s.len() && !s[i]) ==> count_true(s) < s.len(),
        (exists|i: int| 0 <= i < s.len() && s[i]) ==> count_true(s) > 0,
    decreases s.len(),
{
    if s.len() > 0 {
        lemma_count_bounds(s.drop_last());
        if exists|i: int| 0 <= i < s.len() && !s[i] {
            let i = choose|i: int| 0 <= i < s.len() && !s[i];
            if i < s.len() - 1 {
                assert(!s.drop_last()[i]);
            }
        }
        if exists|i: int| 0 <= i < s.len() && s[i] {
            let i = choose|i: int| 0 <= i < s.len() && s[i];
            if i < s.len() - 1 {
                assert(s.drop_last()[i]);
            }
        }
    }
}

proof fn lemma_count_update(s: Seq<bool>, i: int, b: bool)
    requires
        0 <= i < s.len(),
    ensures
        count_true(s.update(i, b)) == count_true(s) - (if s[i] {
            1int
        } else {
            0int
        }) + (if b {
            1int
        } else {
            0int
        }),
    decreases s.len(),
{
    if i < s.len() - 1 {
        lemma_count_update(s.drop_last(), i, b);
        assert(s.update(i, b).drop_last() =~= s.drop_last().update(i, b));
    } else {
        assert(s.update(i, b).drop_last() =~= s.drop_last());
    }
}

proof fn lemma_pos_at(hand: int, k: int, cap: int)
    requires
        0 <= hand < cap,
        0 <= k < cap,
    ensures
        0 <= pos_after(hand, k, cap) < cap,
        dist_from(hand, pos_after(hand, k, cap), cap) == k,
        next_pos(pos_after(hand, k, cap), cap) == pos_after(hand, k + 1, cap),
{
}

proof fn lemma_dist_at(hand: int, i: int, cap: int)
    requires
        0 <= hand < cap,
        0 <= i < cap,
    ensures
        0 <= dist_from(hand, i, cap) < cap,
        pos_after(hand, dist_from(hand, i, cap), cap) == i,
{
}

impl ClockReplacer {
    /// The number of frames the replacer was made for.
    pub closed spec fn capacity_view(&self) -> nat {
        self.capacity as nat
    }

    /// Reference bits, one per frame.
    pub closed spec fn ref_view(&self) -> Seq<bool> {
        self.ref_bits@
    }

    /// Pin flags, one per frame.
    pub closed spec fn pinned_view(&self) -> Seq<bool> {
        self.is_pinned@
    }

    /// Active flags, one per frame.
    pub closed spec fn active_view(&self) -> Seq<bool> {
        self.is_active@
    }

    /// The position of the hand.
    pub closed spec fn hand_view(&self) -> int {
        self.clock_hand as int
    }

    /// Whether frame `i` may be evicted: it is active and not pinned.
    pub open spec fn evictable(&self, i: int) -> bool {
        self.active_view()[i] && !self.pinned_view()[i]
    }

    /// Every evictable frame has its reference bit set.
    pub open spec fn all_referenced(&self) -> bool {
        forall|i: int|
            0 <= i < self.capacity_view() && self.evictable(i) ==> #[trigger] self.ref_view()[i]
    }

    /// A clock over frames `0..capacity`, none active, the hand at 0.
    pub fn new(capacity: usize) -> (r: Self)
        ensures
            r.inv(),
            r.capacity_view() == capacity,
            r.ref_view() == Seq::new(capacity as nat, |i: int| false),
            r.pinned_view() == Seq::new(capacity as nat, |i: int| false),
            r.active_view() == Seq::new(capacity as nat, |i: int| false),
            r.hand_view() == 0,
            forall|f: usize| f < capacity ==> #[trigger] r.accepts(f),
            forall|f: usize| !#[trigger] r.is_pinned(f),
            r.candidates() == Set::<usize>::empty(),
    {
        let mut v: Vec<bool> = Vec::new();
        let mut i: usize = 0;
        while i < capacity
            invariant
                i <= capacity,
                v@ == Seq::new(i as nat, |k: int| false),
            decreases capacity - i,
        {
            v.push(false);
            i = i + 1;
        }
        proof {
            assert(count_true(v@) == 0) by {
                lemma_count_bounds(v@);
                if count_true(v@) > 0 {
                    assert(false) by {
                        lemma_count_zero(v@);
                    }
                }
            }
        }
        ClockReplacer {
            capacity,
            ref_bits: v.clone(),
            is_pinned: v.clone(),
            is_active: v,
            clock_hand: 0,
            size: 0,
        }
    }

    /// Marks an in-range frame active, counting it if it was not.
    fn activate(&mut self, frame_id: usize)
        requires
            old(self).inv(),
            frame_id < old(self).capacity,
        ensures
            final(self).inv(),
            final(self).capacity == old(self).capacity,
            final(self).ref_bits@ == old(self).ref_bits@,
            final(self).is_pinned@ == old(self).is_pinned@,
            final(self).clock_hand == old(self).clock_hand,
            final(self).is_active@ == old(self).is_active@.update(frame_id as int, true),
    {
        if !self.is_active[frame_id] {
            proof {
                lemma_count_bounds(self.is_active@);
                lemma_count_update(self.is_active@, frame_id as int, true);
            }
            self.is_active.set(frame_id, true);
            self.size = self.size + 1;
        } else {
            assert(self.is_active@.update(frame_id as int, true) =~= self.is_active@);
        }
    }

    /// Whether some frame is active and unpinned.
    fn any_evictable(&self) -> (r: bool)
        requires
            self.inv(),
        ensures
            r == exists|i: int| 0 <= i < self.capacity && self.is_active@[i] && !self.is_pinned@[i],
    {
        let mut i: usize = 0;
        while i < self.capacity
            invariant
                self.inv(),
                i <= self.capacity,
                forall|j: int| 0 <= j < i ==> !(self.is_active@[j] && !self.is_pinned@[j]),
            decreases self.capacity - i,
        {
            if self.is_active[i] && !self.is_pinned[i] {
                return true;
            }
            i = i + 1;
        }
        false
    }

    /// One turn of the hand from its position: clears the bit of evictable
    /// frames whose bit is set and evicts the first evictable frame whose bit
    /// is clear. Without such a frame the hand is back where it started.
    fn first_turn(&mut self) -> (r: Option<usize>)
        requires
            old(self).inv(),
            old(self).capacity > 0,
        ensures
            final(self).inv(),
            final(self).capacity == old(self).capacity,
            final(self).is_pinned@ == old(self).is_pinned@,
            ({
                let cap = old(self).capacity as int;
                let hand = old(self).clock_hand as int;
                let act = old(self).is_active@;
                let pin = old(self).is_pinned@;
                let refs = old(self).ref_bits@;
                match r {
                    None => {
                        &&& forall|i: int| 0 <= i < cap && act[i] && !pin[i] ==> refs[i]
                        &&& final(self).ref_bits@ == cleared_before(refs, act, pin, hand, cap, cap)
                        &&& final(self).is_active@ == act
                        &&& final(self).clock_hand == hand
                    },
                    Some(v) => {
                        &&& v < cap
                        &&& act[v as int] && !pin[v as int] && !refs[v as int]
                        &&& forall|i: int|
                            0 <= i < cap && act[i] && !pin[i] && !refs[i] ==> dist_from(
                                hand,
                                v as int,
                                cap,
                            ) <= dist_from(hand, i, cap)
                        &&& final(self).is_active@ == act.update(v as int, false)
                        &&& final(self).clock_hand == next_pos(v as int, cap)
                        &&& final(self).ref_bits@ == cleared_before(
                            refs,
                            act,
                            pin,
                            hand,
                            cap,
                            dist_from(hand, v as int, cap),
                        )
                    },
                }
            }),
    {
        let ghost o_ref = self.ref_bits@;
        let ghost act = self.is_active@;
        let ghost pin = self.is_pinned@;
        let ghost start = self.clock_hand as int;
        let ghost cap = self.capacity as int;
        let mut k: usize = 0;
        while k < self.capacity
            invariant
                self.inv(),
                0 <= start < cap,
                cap == self.capacity,
                self.capacity == old(self).capacity,
                act == old(self).is_active@,
                pin == old(self).is_pinned@,
                start == old(self).clock_hand,
                self.is_active@ == act,
                self.is_pinned@ == pin,
                k <= cap,
                self.clock_hand == pos_after(start, k as int, cap),
                o_ref == old(self).ref_bits@,
                self.ref_bits@ == cleared_before(o_ref, act, pin, start, cap, k as int),
                forall|i: int|
                    0 <= i < cap && act[i] && !pin[i] && dist_from(start, i, cap) < k
                        ==> #[trigger] o_ref[i],
            decreases cap - k,
        {
            let current = self.clock_hand;
            proof {
                lemma_pos_at(start, k as int, cap);
            }
            assert(dist_from(start, current as int, cap) == k);
            let next = if current + 1 == self.capacity {
                0
            } else {
                current + 1
            };
            if self.is_active[current] && !self.is_pinned[current] {
                if self.ref_bits[current] {
                    self.ref_bits.set(current, false);
                    proof {
                        assert(self.ref_bits@ =~= cleared_before(o_ref, act, pin, start, cap, k + 1));
                    }
                } else {
                    proof {
                        lemma_count_bounds(act);
                        lemma_count_update(act, current as int, false);
                    }
                    self.is_active.set(current, false);
                    self.size = self.size - 1;
                    self.clock_hand = next;
                    return Some(current);
                }
            } else {
                proof {
                    assert(self.ref_bits@ =~= cleared_before(o_ref, act, pin, start, cap, k + 1));
                }
            }
            self.clock_hand = next;
            k = k + 1;
        }
        proof {
            assert forall|i: int| 0 <= i < cap && act[i] && !pin[i] implies o_ref[i] by {
                lemma_dist_at(start, i, cap);
            }
            assert(pos_after(start, cap, cap) == start);
        }
        None
    }

    /// A second turn, once every evictable frame has its bit clear: evicts the
    /// first evictable frame from the hand's position.
    fn second_turn(&mut self, Ghost(refs): Ghost<Seq<bool>>) -> (v: usize)
        requires
            old(self).inv(),
            old(self).capacity > 0,
            exists|i: int| 0 <= i < old(self).capacity && old(self).is_active@[i] && !old(self).is_pinned@[i],
            old(self).ref_bits@ == cleared_before(
                refs,
                old(self).is_active@,
                old(self).is_pinned@,
                old(self).clock_hand as int,
                old(self).capacity as int,
                old(self).capacity as int,
            ),
        ensures
            final(self).inv(),
            final(self).capacity == old(self).capacity,
            final(self).is_pinned@ == old(self).is_pinned@,
            final(self).ref_bits@ == old(self).ref_bits@,
            ({
                let cap = old(self).capacity as int;
                let hand = old(self).clock_hand as int;
                let act = old(self).is_active@;
                let pin = old(self).is_pinned@;
                &&& v < cap
                &&& act[v as int] && !pin[v as int]
                &&& forall|i: int|
                    0 <= i < cap && act[i] && !pin[i] ==> dist_from(hand, v as int, cap)
                        <= dist_from(hand, i, cap)
                &&& final(self).is_active@ == act.update(v as int, false)
                &&& final(self).clock_hand == next_pos(v as int, cap)
            }),
    {
        let ghost act = self.is_active@;
        let ghost pin = self.is_pinned@;
        let ghost start = self.clock_hand as int;
        let ghost cap = self.capacity as int;
        let mut k: usize = 0;
        while k < self.capacity
            invariant
                self.inv(),
                0 <= start < cap,
                cap == self.capacity,
                self.capacity == old(self).capacity,
                act == old(self).is_active@,
                pin == old(self).is_pinned@,
                start == old(self).clock_hand,
                self.is_active@ == act,
                self.is_pinned@ == pin,
                self.ref_bits@ == old(self).ref_bits@,
                exists|i: int| 0 <= i < cap && act[i] && !pin[i],
                k <= cap,
                self.clock_hand == pos_after(start, k as int, cap),
                forall|i: int|
                    0 <= i < cap && act[i] && !pin[i] ==> #[trigger] dist_from(start, i, cap) >= k,
            decreases cap - k,
        {
            let current = self.clock_hand;
            proof {
                lemma_pos_at(start, k as int, cap);
            }
            assert(dist_from(start, current as int, cap) == k);
            let next = if current + 1 == self.capacity {
                0
            } else {
                current + 1
            };
            if self.is_active[current] && !self.is_pinned[current] {
                proof {
                    lemma_count_bounds(act);
                    lemma_count_update(act, current as int, false);
                }
                self.is_active.set(current, false);
                self.size = self.size - 1;
                self.clock_hand = next;
                return current;
            }
            proof {
                assert forall|i: int| 0 <= i < cap && act[i] && !pin[i] implies #[trigger] dist_from(start, i, cap) >= k + 1 by {
                    lemma_dist_at(start, i, cap);
                }
            }
            self.clock_hand = next;
            k = k + 1;
        }
        proof {
            let i = choose|i: int| 0 <= i < cap && act[i] && !pin[i];
            lemma_dist_at(start, i, cap);
            assert(dist_from(start, i, cap) >= cap);
        }
        0
    }
}

proof fn lemma_count_zero(s: Seq<bool>)
    requires
        forall|i: int| 0 <= i < s.len() ==> !s[i],
    ensures
        count_true(s) == 0,
    decreases s.len(),
{
    if s.len() > 0 {
        lemma_count_zero(s.drop_last());
    }
}

impl ReplacementPolicy for ClockReplacer {
    closed spec fn candidates(&self) -> Set<usize> {
        Set::new(|i: usize| i < self.capacity && self.is_active@[i as int])
    }

    closed spec fn inv(&self) -> bool {
        &&& self.ref_bits@.len() == self.capacity
        &&& self.is_pinned@.len() == self.capacity
        &&& self.is_active@.len() == self.capacity
        &&& (self.clock_hand < self.capacity || (self.capacity == 0 && self.clock_hand == 0))
        &&& self.size == count_true(self.is_active@)
    }

    closed spec fn accepts(&self, frame_id: usize) -> bool {
        frame_id < self.capacity
    }

    closed spec fn is_pinned(&self, frame_id: usize) -> bool {
        frame_id < self.capacity && self.is_pinned@[frame_id as int]
    }

    /// Sets the reference bit of an in-range frame and makes it active;
    /// frames beyond the capacity are ignored.
    fn record_access(&mut self, frame_id: usize)
        ensures
            final(self).capacity_view() == old(self).capacity_view(),
            final(self).pinned_view() == old(self).pinned_view(),
            final(self).hand_view() == old(self).hand_view(),
            frame_id < old(self).capacity_view() ==> {
                &&& final(self).ref_view() == old(self).ref_view().update(frame_id as int, true)
                &&& final(self).active_view() == old(self).active_view().update(
                    frame_id as int,
                    true,
                )
            },
            frame_id >= old(self).capacity_view() ==> {
                &&& final(self).ref_view() == old(self).ref_view()
                &&& final(self).active_view() == old(self).active_view()
            },
    {
        if frame_id < self.capacity {
            self.ref_bits.set(frame_id, true);
            self.activate(frame_id);
            proof {
                assert(self.candidates() =~= old(self).candidates().insert(frame_id));
            }
        } else {
            assert(self.candidates() =~= old(self).candidates());
        }
    }

    /// Sets the pin flag of an in-range frame and makes it active; frames
    /// beyond the capacity are ignored.
    fn set_pin(&mut self, frame_id: usize, pinned: bool)
        ensures
            final(self).capacity_view() == old(self).capacity_view(),
            final(self).ref_view() == old(self).ref_view(),
            final(self).hand_view() == old(self).hand_view(),
            frame_id < old(self).capacity_view() ==> {
                &&& final(self).pinned_view() == old(self).pinned_view().update(
                    frame_id as int,
                    pinned,
                )
                &&& final(self).active_view() == old(self).active_view().update(
                    frame_id as int,
                    true,
                )
            },
            frame_id >= old(self).capacity_view() ==> {
                &&& final(self).pinned_view() == old(self).pinned_view()
                &&& final(self).active_view() == old(self).active_view()
            },
    {
        if frame_id < self.capacity {
            self.is_pinned.set(frame_id, pinned);
            self.activate(frame_id);
            proof {
                assert(self.candidates() =~= old(self).candidates().insert(frame_id));
            }
        } else {
            assert(self.candidates() =~= old(self).candidates());
        }
    }

    /// Sweeps the hand from its position. An evictable frame whose reference
    /// bit is set has the bit cleared; the first evictable frame whose bit is
    /// clear is evicted and the hand stops just after it. If a full turn finds
    /// evictable frames but all had their bit set, the next turn evicts the
    /// first of them. With no evictable frame nothing changes.
    fn evict(&mut self) -> (r: Option<usize>)
        ensures
            final(self).capacity_view() == old(self).capacity_view(),
            final(self).pinned_view() == old(self).pinned_view(),
            ({
                let cap = old(self).capacity_view() as int;
                let hand = old(self).hand_view();
                let o = old(self);
                let all_set = o.all_referenced();
                match r {
                    None => {
                        &&& forall|i: int| 0 <= i < cap ==> !o.evictable(i)
                        &&& final(self).ref_view() == o.ref_view()
                        &&& final(self).active_view() == o.active_view()
                        &&& final(self).hand_view() == hand
                    },
                    Some(v) => {
                        &&& v < cap
                        &&& o.evictable(v as int)
                        &&& !all_set ==> !o.ref_view()[v as int] && forall|i: int|
                            0 <= i < cap && o.evictable(i) && !o.ref_view()[i] ==> dist_from(
                                hand,
                                v as int,
                                cap,
                            ) <= dist_from(hand, i, cap)
                        &&& all_set ==> forall|i: int|
                            0 <= i < cap && o.evictable(i) ==> dist_from(hand, v as int, cap)
                                <= dist_from(hand, i, cap)
                        &&& final(self).active_view() == o.active_view().update(v as int, false)
                        &&& count_true(final(self).active_view()) + 1 == count_true(o.active_view())
                        &&& final(self).hand_view() == next_pos(v as int, cap)
                        &&& final(self).ref_view() == cleared_before(
                            o.ref_view(),
                            o.active_view(),
                            o.pinned_view(),
                            hand,
                            cap,
                            if all_set {
                                cap
                            } else {
                                dist_from(hand, v as int, cap)
                            },
                        )
                    },
                }
            }),
    {
        if self.size == 0 {
            proof {
                assert forall|i: int| 0 <= i < self.capacity implies !self.evictable(i) by {
                    if self.is_active@[i] {
                        lemma_count_bounds(self.is_active@);
                    }
                }
                assert forall|f: usize| #[trigger] self.candidates().contains(f) implies self.is_pinned(f) by {
                    assert(!self.evictable(f as int));
                    if self.is_active@[f as int] {
                        lemma_count_bounds(self.is_active@);
                    }
                }
            }
            return None;
        }
        proof {
            lemma_count_bounds(self.is_active@);
        }
        match self.first_turn() {
            Some(v) => {
                proof {
                    assert(old(self).evictable(v as int));
                    assert(!old(self).ref_view()[v as int]);
                    assert(!old(self).all_referenced());
                    lemma_count_update(old(self).is_active@, v as int, false);
                }
                Some(v)
            },
            None => {
                if self.any_evictable() {
                    let v = self.second_turn(Ghost(old(self).ref_bits@));
                    proof {
                        assert(old(self).all_referenced());
                        lemma_count_update(old(self).is_active@, v as int, false);
                    }
                    Some(v)
                } else {
                    proof {
                        assert(self.ref_bits@ =~= old(self).ref_bits@);
                    }
                    None
                }
            },
        }
    }

    /// Clears an active in-range frame: it is no longer active, pinned or referenced.
    fn remove(&mut self, frame_id: usize)
        ensures
            final(self).capacity_view() == old(self).capacity_view(),
            final(self).hand_view() == old(self).hand_view(),
            frame_id < old(self).capacity_view() && old(self).active_view()[frame_id as int]
                ==> {
                &&& final(self).ref_view() == old(self).ref_view().update(frame_id as int, false)
                &&& final(self).pinned_view() == old(self).pinned_view().update(
                    frame_id as int,
                    false,
                )
                &&& final(self).active_view() == old(self).active_view().update(
                    frame_id as int,
                    false,
                )
            },
            !(frame_id < old(self).capacity_view() && old(self).active_view()[frame_id as int])
                ==> {
                &&& final(self).ref_view() == old(self).ref_view()
                &&& final(self).pinned_view() == old(self).pinned_view()
                &&& final(self).active_view() == old(self).active_view()
            },
    {
        if frame_id < self.capacity && self.is_active[frame_id] {
            proof {
                lemma_count_bounds(self.is_active@);
                lemma_count_update(self.is_active@, frame_id as int, false);
            }
            self.ref_bits.set(frame_id, false);
            self.is_pinned.set(frame_id, false);
            self.is_active.set(frame_id, false);
            self.size = self.size - 1;
            proof {
                assert(self.candidates() =~= old(self).candidates().remove(frame_id));
            }
        } else {
            assert(self.candidates() =~= old(self).candidates().remove(frame_id));
        }
    }

    /// The number of active frames.
    fn size(&self) -> (r: usize)
        ensures
            r == count_true(self.active_view()),
    {
        self.size
    }
}

} // verus!
