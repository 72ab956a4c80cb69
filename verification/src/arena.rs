//! Generation-indexed storage with stable handles.
//!
//! Each slot carries a generation counter. A handle pairs a slot index with
//! the generation the slot had when its entry was inserted; removal bumps the
//! slot's generation, so a handle to a removed entry can never resolve again
//! and can never compare equal to the handle of a later entry in the same
//! slot. A slot whose generation counter is exhausted is retired instead of
//! being reused, which keeps the strict-increase guarantee.

use vstd::prelude::*;

verus! {

/// Stable identifier for an arena entry: a slot index paired with the
/// generation the slot carried when the entry was inserted.
#[derive(Clone, Copy, PartialEq, Eq, Structural, Debug, Hash)]
pub struct Index {
    pub index: usize,
    pub generation: u64,
}

/// One storage slot: its current generation and, when occupied, a value.
struct Slot<T> {
    generation: u64,
    value: Option<T>,
}

/// Number of occupied slots in a sequence of slots.
spec fn occ_count<T>(s: Seq<Slot<T>>) -> nat
    decreases s.len(),
{
    if s.len() == 0 {
        0
    } else {
        occ_count(s.drop_last()) + (if s.last().value is Some {
            1nat
        } else {
            0nat
        })
    }
}

proof fn lemma_occ_count_le_len<T>(s: Seq<Slot<T>>)
    ensures
        occ_count(s) <= s.len(),
    decreases s.len(),
{
    if s.len() > 0 {
        lemma_occ_count_le_len(s.drop_last());
    }
}

proof fn lemma_occ_count_update<T>(s: Seq<Slot<T>>, i: int, v: Slot<T>)
    requires
        0 <= i < s.len(),
    ensures
        occ_count(s.update(i, v)) as int == occ_count(s) as int - (if s[i].value is Some {
            1int
        } else {
            0int
        }) + (if v.value is Some {
            1int
        } else {
            0int
        }),
    decreases s.len(),
{
    let s2 = s.update(i, v);
    if i == s.len() - 1 {
        assert(s2.drop_last() =~= s.drop_last());
    } else {
        assert(s2.drop_last() =~= s.drop_last().update(i, v));
        assert(s2.last() == s.last());
        lemma_occ_count_update(s.drop_last(), i, v);
    }
}

proof fn lemma_occ_count_push<T>(s: Seq<Slot<T>>, v: Slot<T>)
    ensures
        occ_count(s.push(v)) as int == occ_count(s) as int + (if v.value is Some {
            1int
        } else {
            0int
        }),
{
    assert(s.push(v).drop_last() =~= s);
}

broadcast proof fn lemma_occ_count_update_occupied<T>(s: Seq<Slot<T>>, i: int, v: Slot<T>)
    requires
        0 <= i < s.len(),
        s[i].value is Some,
        v.value is Some,
    ensures
        #[trigger] occ_count(s.update(i, v)) == occ_count(s),
{
    lemma_occ_count_update(s, i, v);
}

proof fn lemma_occ_count_at<T>(s: Seq<Slot<T>>, i: int)
    requires
        0 <= i < s.len(),
        s[i].value is Some,
    ensures
        occ_count(s) >= 1,
    decreases s.len(),
{
    if i < s.len() - 1 {
        lemma_occ_count_at(s.drop_last(), i);
    }
}

/// Generation-indexed arena. Handles are weak references: every lookup
/// re-validates the generation, so a stale handle fails gracefully instead of
/// silently aliasing a newer entry.
pub struct Arena<T> {
    slots: Vec<Slot<T>>,
    free: Vec<usize>,
    count: usize,
}

impl<T> Arena<T> {
    /// The handle `h` currently resolves to a value.
    pub closed spec fn live(self, h: Index) -> bool {
        &&& (h.index as int) < self.slots@.len()
        &&& self.slots@[h.index as int].value is Some
        &&& self.slots@[h.index as int].generation == h.generation
    }

    /// The value the live handle `h` resolves to.
    pub closed spec fn value_at(self, h: Index) -> T {
        self.slots@[h.index as int].value->0
    }

    /// The handle `h` is outdated: its slot has since moved to a strictly
    /// greater generation. A removed handle is stale forever after.
    pub closed spec fn stale(self, h: Index) -> bool {
        (h.index as int) < self.slots@.len() && h.generation < self.slots@[
            h.index as int
        ].generation
    }

    /// Number of live entries.
    pub closed spec fn len_spec(self) -> nat {
        self.count as nat
    }

    /// Slot `i` currently holds a value.
    pub closed spec fn occupied_at(self, i: int) -> bool {
        0 <= i < self.slots@.len() && self.slots@[i].value is Some
    }

    /// The handle slot `i` would answer to right now.
    pub closed spec fn slot_handle(self, i: int) -> Index {
        Index { index: i as usize, generation: self.slots@[i].generation }
    }

    /// An occupied slot's current handle is live and points at the slot.
    pub proof fn lemma_slot_handle_live(self, i: int)
        requires
            self.occupied_at(i),
            i <= usize::MAX,
        ensures
            self.live(self.slot_handle(i)),
            self.slot_handle(i).index == i,
    {
    }

    /// A live handle's slot is occupied and answers to that very handle.
    pub proof fn lemma_live_slot(self, h: Index)
        requires
            self.live(h),
        ensures
            self.occupied_at(h.index as int),
            self.slot_handle(h.index as int) == h,
            (h.index as int) < self.slot_count(),
    {
    }

    /// Number of slots ever allocated (monotone growth).
    pub closed spec fn slot_count(self) -> nat {
        self.slots@.len()
    }

    /// Internal consistency: the live count matches the occupied slots, the
    /// free list names distinct, reusable, unoccupied slots, and every
    /// occupied slot still has room to bump its generation on removal.
    pub closed spec fn wf(self) -> bool {
        &&& self.count == occ_count(self.slots@)
        &&& forall|k: int|
            0 <= k < self.free@.len() ==> {
                &&& (#[trigger] self.free@[k]) < self.slots@.len()
                &&& self.slots@[self.free@[k] as int].value is None
                &&& self.slots@[self.free@[k] as int].generation < u64::MAX
            }
        &&& forall|k1: int, k2: int|
            0 <= k1 < k2 < self.free@.len() ==> #[trigger] self.free@[k1] != #[trigger] self.free@[k2]
        &&& forall|i: int|
            0 <= i < self.slots@.len() && (#[trigger] self.slots@[i]).value is Some
                ==> self.slots@[i].generation < u64::MAX
    }

    /// Create an empty arena.
    pub fn new() -> (a: Arena<T>)
        ensures
            a.wf(),
            a.len_spec() == 0,
            a.slot_count() == 0,
            forall|h: Index| !a.live(h) && !a.stale(h),
    {
        Arena { slots: Vec::new(), free: Vec::new(), count: 0 }
    }

    /// Number of live entries.
    pub fn len(&self) -> (n: usize)
        ensures
            n == self.len_spec(),
    {
        self.count
    }

    /// Does `h` resolve to a live entry?
    pub fn contains(&self, h: Index) -> (b: bool)
        ensures
            b == self.live(h),
    {
        if h.index >= self.slots.len() {
            return false;
        }
        let slot = &self.slots[h.index];
        slot.generation == h.generation && slot.value.is_some()
    }

    /// Insert a value, reusing a freed slot when one is available, and return
    /// the fresh handle. The handle is live, was never live before, and no
    /// stale handle can alias it.
    pub fn insert(&mut self, value: T) -> (h: Index)
        requires
            old(self).wf(),
            old(self).len_spec() < usize::MAX,
        ensures
            final(self).wf(),
            final(self).live(h),
            final(self).value_at(h) == value,
            !old(self).live(h),
            !old(self).stale(h),
            final(self).len_spec() == old(self).len_spec() + 1,
            final(self).slot_count() >= old(self).slot_count(),
            forall|h2: Index| h2 != h ==> (final(self).live(h2) <==> old(self).live(h2)),
            forall|h2: Index|
                h2 != h && old(self).live(h2) ==> #[trigger] final(self).value_at(h2) == old(
                    self,
                ).value_at(h2),
            forall|h2: Index| old(self).stale(h2) ==> final(self).stale(h2),
    {
        let h: Index;
        let popped = self.free.pop();
        match popped {
            Some(i) => {
                let slot = &mut self.slots[i];
                slot.value = Some(value);
                let g = slot.generation;
                h = Index { index: i, generation: g };
                proof {
                    lemma_occ_count_update(
                        old(self).slots@,
                        i as int,
                        self.slots@[i as int],
                    );
                }
            },
            None => {
                let i = self.slots.len();
                self.slots.push(Slot { generation: 0, value: Some(value) });
                h = Index { index: i, generation: 0 };
                proof {
                    lemma_occ_count_push(old(self).slots@, self.slots@.last());
                }
            },
        }
        self.count = self.count + 1;
        h
    }

    /// Remove the entry at `h`, returning its value, or `None` when `h` is
    /// stale or absent. On success the slot's generation strictly increases,
    /// so `h` is stale from now on.
    pub fn remove(&mut self, h: Index) -> (r: Option<T>)
        requires
            old(self).wf(),
        ensures
            final(self).wf(),
            old(self).live(h) ==> {
                &&& r == Some(old(self).value_at(h))
                &&& !final(self).live(h)
                &&& final(self).stale(h)
                &&& final(self).len_spec() + 1 == old(self).len_spec()
            },
            !old(self).live(h) ==> r is None && *final(self) == *old(self),
            forall|h2: Index| h2 != h ==> (final(self).live(h2) <==> old(self).live(h2)),
            forall|h2: Index|
                h2 != h && old(self).live(h2) ==> #[trigger] final(self).value_at(h2) == old(
                    self,
                ).value_at(h2),
            forall|h2: Index| old(self).stale(h2) ==> final(self).stale(h2),
            forall|h2: Index| final(self).live(h2) ==> old(self).live(h2),
            final(self).slot_count() == old(self).slot_count(),
    {
        if h.index >= self.slots.len() {
            return None;
        }
        {
            let slot = &self.slots[h.index];
            if slot.generation != h.generation || slot.value.is_none() {
                return None;
            }
        }
        proof {
            lemma_occ_count_at(self.slots@, h.index as int);
        }
        let slot = &mut self.slots[h.index];
        let mut taken: Option<T> = None;
        core::mem::swap(&mut slot.value, &mut taken);
        slot.generation = slot.generation + 1;
        let g = slot.generation;
        proof {
            lemma_occ_count_update(old(self).slots@, h.index as int, self.slots@[h.index as int]);
        }
        if g < u64::MAX {
            self.free.push(h.index);
        }
        self.count = self.count - 1;
        taken
    }

    /// Borrow the entry at `h`, or `None` when `h` is stale or absent.
    pub fn get(&self, h: Index) -> (r: Option<&T>)
        ensures
            self.live(h) ==> (r matches Some(v) && *v == self.value_at(h)),
            !self.live(h) ==> r is None,
    {
        if h.index >= self.slots.len() {
            return None;
        }
        let slot = &self.slots[h.index];
        if slot.generation != h.generation {
            return None;
        }
        match &slot.value {
            Some(v) => Some(v),
            None => None,
        }
    }

    /// Mutably borrow the entry at a handle known to be live. Everything but
    /// the borrowed value is left untouched.
    pub fn value_mut(&mut self, h: Index) -> (r: &mut T)
        requires
            old(self).live(h),
        ensures
            *r == old(self).value_at(h),
            final(self).slot_count() == old(self).slot_count(),
            final(self).len_spec() == old(self).len_spec(),
            forall|h2: Index| final(self).live(h2) <==> old(self).live(h2),
            forall|h2: Index|
                final(self).live(h2) ==> #[trigger] final(self).value_at(h2) == (if h2.index
                    == h.index {
                    *final(r)
                } else {
                    old(self).value_at(h2)
                }),
            forall|h2: Index|
                h2 != h && old(self).live(h2) ==> #[trigger] final(self).value_at(h2) == old(
                    self,
                ).value_at(h2),
            final(self).value_at(h) == *final(r),
            final(self).live(h),
            forall|h2: Index| final(self).stale(h2) <==> old(self).stale(h2),
            forall|i: int| final(self).occupied_at(i) == old(self).occupied_at(i),
            forall|i: int|
                0 <= i < old(self).slot_count() ==> final(self).slot_handle(i) == old(
                    self,
                ).slot_handle(i),
            old(self).wf() ==> final(self).wf(),
    {
        broadcast use lemma_occ_count_update_occupied;

        let slot = &mut self.slots[h.index];
        slot.value.as_mut().unwrap()
    }

    /// Borrow the entry sitting in slot `i`, whatever generation it carries,
    /// together with its full handle. This bypasses the generation check, so
    /// a recycled slot silently yields a different live entity: use it only
    /// when no handle is available.
    pub fn get_unknown_gen(&self, i: usize) -> (r: Option<(&T, Index)>)
        ensures
            r matches Some(p) ==> p.1.index == i && self.live(p.1) && *p.0 == self.value_at(p.1),
            r is None ==> forall|h: Index| h.index == i ==> !self.live(h),
    {
        if i >= self.slots.len() {
            return None;
        }
        let slot = &self.slots[i];
        match &slot.value {
            Some(v) => Some((v, Index { index: i, generation: slot.generation })),
            None => None,
        }
    }

    /// The handle of the entry sitting in slot `i`, whatever generation it
    /// carries, or `None` when the slot is absent or unoccupied.
    pub fn handle_at_slot(&self, i: usize) -> (r: Option<Index>)
        ensures
            r matches Some(h) ==> h.index == i && self.live(h),
            r is None ==> forall|h: Index| h.index == i ==> !self.live(h),
    {
        if i >= self.slots.len() {
            return None;
        }
        let slot = &self.slots[i];
        if slot.value.is_some() {
            Some(Index { index: i, generation: slot.generation })
        } else {
            None
        }
    }

    /// Number of slots ever allocated; slots `0..slot_cap()` are the only
    /// places a live entry can sit.
    pub fn slot_cap(&self) -> (n: usize)
        ensures
            n == self.slot_count(),
    {
        self.slots.len()
    }

    /// Handle integrity: a stale handle never resolves. In particular a
    /// handle returned by `remove` (stale from that moment on, and kept stale
    /// by every later `insert` and `remove`) never resolves via `get` again.
    pub proof fn lemma_stale_never_live(self, h: Index)
        requires
            self.stale(h),
        ensures
            !self.live(h),
    {
    }

    /// Handle integrity: a stale handle never aliases a live one. In
    /// particular a removed handle compares unequal to the handle of every
    /// entry inserted afterwards, even one reusing the same slot, because the
    /// slot's generation strictly increased.
    pub proof fn lemma_stale_distinct_from_live(self, h: Index, h2: Index)
        requires
            self.stale(h),
            self.live(h2),
        ensures
            h != h2,
    {
    }

    /// Under the arena invariant no occupied slot carries the sentinel
    /// generation `u64::MAX`, so a handle with that generation never
    /// resolves.
    pub proof fn lemma_max_generation_never_live(self, h: Index)
        requires
            self.wf(),
            h.generation == u64::MAX,
        ensures
            !self.live(h),
    {
    }

    /// Two live handles in the same slot are the same handle.
    pub proof fn lemma_live_same_slot(self, h1: Index, h2: Index)
        requires
            self.live(h1),
            self.live(h2),
            h1.index == h2.index,
        ensures
            h1 == h2,
    {
    }
}

} // verus!
