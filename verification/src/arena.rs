//! A generational slot arena.
//!
//! Entries live in slots addressed by `(index, generation)` pairs.  Removing
//! an entry frees its slot and bumps the slot's generation, so every handle
//! issued for the old entry is stale from then on: it will never satisfy
//! `contains` or `get` again, even after the slot is reused.  A slot whose
//! generation would overflow on the bump is retired instead of being put back
//! on the free list, so a live slot always has room for one more bump.

use vstd::prelude::*;

verus! {

/// One slot of an [`Arena`]: the current generation plus the entry, if the
/// slot is occupied.
pub struct Slot<T> {
    /// generation stamp; bumped every time the slot is freed
    pub generation: u64,
    /// the entry held by the slot, or `None` while the slot is free
    pub value: Option<T>,
}

/// How many slots of a sequence are occupied.
pub open spec fn count_some<T>(s: Seq<Slot<T>>) -> nat
    decreases s.len(),
{
    if s.len() == 0 {
        0
    } else {
        count_some(s.drop_last()) + (if s.last().value is Some {
            1nat
        } else {
            0nat
        })
    }
}

/// A generational slot arena holding entries of type `T`.
pub struct Arena<T> {
    /// the slots, occupied or free
    pub slots: Vec<Slot<T>>,
    /// indices of free slots available for reuse
    pub free_list: Vec<usize>,
    /// number of occupied slots
    pub live: usize,
}

impl<T> Arena<T> {
    /// The slots as a mathematical sequence.
    pub open spec fn slots_spec(&self) -> Seq<Slot<T>> {
        self.slots@
    }

    /// How many slots the arena has ever laid out (live plus free).
    pub open spec fn slot_count(&self) -> nat {
        self.slots@.len()
    }

    /// The current generation of slot `i`.
    pub open spec fn gen_at(&self, i: int) -> u64 {
        self.slots@[i].generation
    }

    /// Whether the handle `(i, g)` addresses a live entry.
    pub open spec fn is_live(&self, i: int, g: u64) -> bool {
        &&& 0 <= i < self.slots@.len()
        &&& self.slots@[i].value is Some
        &&& self.slots@[i].generation == g
    }

    /// The entry held at slot `i` (meaningful only for occupied slots).
    pub open spec fn value_at(&self, i: int) -> T {
        self.slots@[i].value.unwrap()
    }

    /// How many entries are live.
    pub open spec fn live_count(&self) -> nat {
        count_some(self.slots@)
    }

    /// Internal consistency: the live counter matches the slots, the free
    /// list holds distinct indices of free slots whose generation can still
    /// be bumped, and occupied slots likewise have room for one more bump.
    pub open spec fn wf(&self) -> bool {
        &&& self.slots@.len() <= usize::MAX
        &&& self.live == count_some(self.slots@)
        &&& forall|k: int|
            0 <= k < self.free_list@.len() ==> (#[trigger] self.free_list@[k]) < self.slots@.len()
                && self.slots@[self.free_list@[k] as int].value is None
                && self.slots@[self.free_list@[k] as int].generation < u64::MAX
        &&& forall|k1: int, k2: int|
            0 <= k1 < k2 < self.free_list@.len() ==> self.free_list@[k1] != self.free_list@[k2]
        &&& forall|i: int|
            0 <= i < self.slots@.len() && (#[trigger] self.slots@[i]).value is Some
                ==> self.slots@[i].generation < u64::MAX
    }

    /// Creates an empty arena.
    pub fn new() -> (r: Self)
        ensures
            r.wf(),
            r.slot_count() == 0,
            r.live_count() == 0,
    {
        Arena { slots: Vec::new(), free_list: Vec::new(), live: 0 }
    }

    /// Creates an empty arena with room reserved for about `cap` entries.
    pub fn with_capacity(cap: usize) -> (r: Self)
        ensures
            r.wf(),
            r.slot_count() == 0,
            r.live_count() == 0,
    {
        Arena { slots: Vec::with_capacity(cap), free_list: Vec::new(), live: 0 }
    }

    /// How many entries are live.
    pub fn len(&self) -> (r: usize)
        requires
            self.wf(),
        ensures
            r == self.live_count(),
    {
        self.live
    }

    /// How many slots the arena has laid out.
    pub fn slots_len(&self) -> (r: usize)
        ensures
            r == self.slot_count(),
    {
        self.slots.len()
    }

    /// Whether slot `i` is occupied.
    pub fn occupied(&self, i: usize) -> (r: bool)
        requires
            i < self.slot_count(),
        ensures
            r == (self.slots_spec()[i as int].value is Some),
    {
        match &self.slots[i].value {
            Some(_) => true,
            None => false,
        }
    }

    /// The current generation of slot `i`.
    pub fn generation_of(&self, i: usize) -> (r: u64)
        requires
            i < self.slot_count(),
        ensures
            r == self.gen_at(i as int),
    {
        self.slots[i].generation
    }

    /// Whether `(i, g)` addresses a live entry.
    pub fn contains(&self, i: usize, g: u64) -> (r: bool)
        ensures
            r == self.is_live(i as int, g),
    {
        if i < self.slots.len() {
            let sl = &self.slots[i];
            match &sl.value {
                Some(_) => sl.generation == g,
                None => false,
            }
        } else {
            false
        }
    }

    /// A reference to the entry addressed by `(i, g)`, if it is live.
    pub fn get(&self, i: usize, g: u64) -> (r: Option<&T>)
        ensures
            match r {
                Some(v) => self.is_live(i as int, g) && *v == self.value_at(i as int),
                None => !self.is_live(i as int, g),
            },
    {
        if i < self.slots.len() {
            let sl = &self.slots[i];
            if sl.generation == g {
                match &sl.value {
                    Some(v) => Some(v),
                    None => None,
                }
            } else {
                None
            }
        } else {
            None
        }
    }

    /// A mutable reference to the entry addressed by `(i, g)`, if it is live.
    /// Whatever the caller writes through the reference replaces the entry;
    /// the slot's generation and everything else stay as they were.
    pub fn get_mut(&mut self, i: usize, g: u64) -> (r: Option<&mut T>)
        ensures
            match r {
                Some(p) => {
                    &&& old(self).is_live(i as int, g)
                    &&& *p == old(self).value_at(i as int)
                    &&& final(self).slots@.len() == old(self).slots@.len()
                    &&& final(self).slots@[i as int] == (Slot {
                        generation: g,
                        value: Some(*final(p)),
                    })
                    &&& forall|j: int|
                        0 <= j < old(self).slots@.len() && j != i as int
                            ==> #[trigger] final(self).slots@[j] == old(self).slots@[j]
                    &&& final(self).free_list@ == old(self).free_list@
                    &&& final(self).live == old(self).live
                },
                None => {
                    &&& !old(self).is_live(i as int, g)
                    &&& *final(self) == *old(self)
                },
            },
    {
        if i < self.slots.len() && self.slots[i].generation == g {
            let occupied = match &self.slots[i].value {
                Some(_) => true,
                None => false,
            };
            if occupied {
                let sl = &mut self.slots[i];
                match &mut sl.value {
                    Some(p) => Some(p),
                    None => {
                        proof {
                            assert(false);
                        }
                        None
                    },
                }
            } else {
                None
            }
        } else {
            None
        }
    }

    /// Inserts an entry, reusing a free slot when one is available, and
    /// returns the `(index, generation)` pair addressing it.  The handle is
    /// fresh: it was not live before, and it differs from every handle whose
    /// generation is below the generation its slot carried.
    pub fn insert(&mut self, value: T) -> (r: (usize, u64))
        requires
            old(self).wf(),
            old(self).live_count() < usize::MAX,
        ensures
            final(self).wf(),
            final(self).is_live(r.0 as int, r.1),
            !old(self).is_live(r.0 as int, r.1),
            final(self).value_at(r.0 as int) == value,
            final(self).live_count() == old(self).live_count() + 1,
            forall|i: int, g: u64|
                !(i == r.0 as int && g == r.1) ==> #[trigger] final(self).is_live(i, g)
                    == old(self).is_live(i, g),
            forall|i: int|
                0 <= i < old(self).slot_count() && i != r.0 as int ==> #[trigger] final(self).slots_spec()[i] == old(self).slots_spec()[i],
            old(self).slot_count() <= final(self).slot_count() <= old(self).slot_count() + 1,
            forall|i: int|
                0 <= i < old(self).slot_count() ==> #[trigger] final(self).gen_at(i) == old(self).gen_at(i),
            r.0 < final(self).slot_count(),
            (r.0 as int) < old(self).slot_count() ==> r.1 == old(self).gen_at(r.0 as int)
                && final(self).slot_count() == old(self).slot_count(),
            (r.0 as int) >= old(self).slot_count() ==> r.0 == old(self).slot_count() && final(self).slot_count() == old(self).slot_count() + 1,
    {
        proof {
            lemma_count_some_le_len(self.slots@);
        }
        match self.free_list.pop() {
            Some(i) => {
                proof {
                    assert(old(self).free_list@[old(self).free_list@.len() - 1] == i);
                }
                let ghost old_slots = self.slots@;
                let sl = &mut self.slots[i];
                let g = sl.generation;
                sl.value = Some(value);
                proof {
                    assert(self.slots@ =~= old_slots.update(
                        i as int,
                        Slot { generation: g, value: Some(value) },
                    ));
                    lemma_count_some_update(
                        old_slots,
                        i as int,
                        Slot { generation: g, value: Some(value) },
                    );
                }
                self.live = self.live + 1;
                (i, g)
            },
            None => {
                let i = self.slots.len();
                self.slots.push(Slot { generation: 0, value: Some(value) });
                proof {
                    assert(self.slots@.drop_last() =~= old(self).slots@);
                    assert(self.slots.len() == self.slots@.len());
                }
                self.live = self.live + 1;
                (i, 0)
            },
        }
    }

    /// Removes the entry addressed by `(i, g)` and returns it, or returns
    /// `None` (leaving the arena untouched) when the handle is stale.  On
    /// success the slot's generation is bumped past `g`, so the handle can
    /// never address a live entry again.
    pub fn remove(&mut self, i: usize, g: u64) -> (r: Option<T>)
        requires
            old(self).wf(),
        ensures
            final(self).wf(),
            final(self).slot_count() == old(self).slot_count(),
            match r {
                Some(v) => {
                    &&& old(self).is_live(i as int, g)
                    &&& v == old(self).value_at(i as int)
                    &&& final(self).live_count() == old(self).live_count() - 1
                    &&& final(self).gen_at(i as int) > g
                    &&& forall|j: int, h: u64|
                        j != i as int ==> #[trigger] final(self).is_live(j, h) == old(self).is_live(j, h)
                    &&& forall|h: u64| !final(self).is_live(i as int, h)
                    &&& forall|j: int|
                        0 <= j < old(self).slot_count() && j != i as int ==> #[trigger] final(self).slots_spec()[j] == old(self).slots_spec()[j]
                    &&& forall|j: int|
                        0 <= j < old(self).slot_count() && j != i as int ==> #[trigger] final(self).gen_at(j) == old(self).gen_at(j)
                },
                None => {
                    &&& !old(self).is_live(i as int, g)
                    &&& *final(self) == *old(self)
                },
            },
    {
        if i < self.slots.len() && self.slots[i].generation == g {
            let occupied = match &self.slots[i].value {
                Some(_) => true,
                None => false,
            };
            if occupied {
                let ghost old_slots = self.slots@;
                let sl = &mut self.slots[i];
                let taken = sl.value.take();
                let new_gen = g + 1;
                sl.generation = new_gen;
                proof {
                    assert(self.slots@ =~= old_slots.update(
                        i as int,
                        Slot { generation: new_gen, value: None },
                    ));
                    lemma_count_some_update(
                        old_slots,
                        i as int,
                        Slot { generation: new_gen, value: None },
                    );
                    lemma_count_some_le_len(old_slots);
                }
                self.live = self.live - 1;
                if new_gen < u64::MAX {
                    self.free_list.push(i);
                }
                match taken {
                    Some(v) => Some(v),
                    None => None,
                }
            } else {
                None
            }
        } else {
            None
        }
    }

    /// Frees every occupied slot, bumping each freed slot's generation, so
    /// every handle issued before the call is stale afterwards.  The slot
    /// layout itself survives.
    pub fn clear_all(&mut self)
        requires
            old(self).wf(),
        ensures
            final(self).wf(),
            final(self).live_count() == 0,
            final(self).slot_count() == old(self).slot_count(),
            forall|i: int, g: u64| !final(self).is_live(i, g),
            forall|i: int, g: u64|
                #[trigger] old(self).is_live(i, g) ==> final(self).gen_at(i) > g,
            forall|i: int|
                0 <= i < old(self).slot_count() ==> #[trigger] final(self).gen_at(i)
                    >= old(self).gen_at(i),
    {
        let n = self.slots.len();
        let mut j: usize = 0;
        while j < n
            invariant
                n == self.slots@.len(),
                j <= n,
                self.wf(),
                forall|i: int| 0 <= i < j ==> !((#[trigger] self.slots@[i]).value is Some),
                forall|i: int|
                    0 <= i < j && old(self).slots@[i].value is Some ==> (
                    #[trigger] self.slots@[i]).generation > old(self).slots@[i].generation,
                forall|i: int| j <= i < n ==> #[trigger] self.slots@[i] == old(self).slots@[i],
                forall|i: int|
                    0 <= i < n ==> (#[trigger] self.slots@[i]).generation
                        >= old(self).slots@[i].generation,
            decreases n - j,
        {
            let occupied = match &self.slots[j].value {
                Some(_) => true,
                None => false,
            };
            if occupied {
                let ghost old_slots = self.slots@;
                let sl = &mut self.slots[j];
                let g = sl.generation;
                sl.value = None;
                let new_gen = g + 1;
                sl.generation = new_gen;
                proof {
                    assert(self.slots@ =~= old_slots.update(
                        j as int,
                        Slot { generation: new_gen, value: None },
                    ));
                    lemma_count_some_update(
                        old_slots,
                        j as int,
                        Slot { generation: new_gen, value: None },
                    );
                    lemma_count_some_le_len(old_slots);
                    assert forall|i: int| 0 <= i < n && i != j implies self.slots@[i]
                        == old_slots[i] by {}
                }
                self.live = self.live - 1;
                if new_gen < u64::MAX {
                    self.free_list.push(j);
                }
            }
            j = j + 1;
        }
        proof {
            lemma_count_some_none(self.slots@);
            assert forall|i: int, g: u64| old(self).is_live(i, g) implies self.gen_at(i)
                > g by {
                assert(old(self).slots@[i].value is Some);
                assert(self.slots@[i].generation > old(self).slots@[i].generation);
            }
        }
    }
}

/// Replacing the entry of an occupied slot (keeping its generation)
/// preserves the arena invariant: the caller of `get_mut` uses this once the
/// borrow has resolved.
pub proof fn lemma_wf_after_value_update<T>(a1: Arena<T>, a2: Arena<T>, i: int, v: T)
    requires
        a1.wf(),
        0 <= i < a1.slots@.len(),
        a1.slots@[i].value is Some,
        a2.slots@ == a1.slots@.update(
            i,
            Slot { generation: a1.slots@[i].generation, value: Some(v) },
        ),
        a2.free_list@ == a1.free_list@,
        a2.live == a1.live,
    ensures
        a2.wf(),
{
    lemma_count_some_update(
        a1.slots@,
        i,
        Slot { generation: a1.slots@[i].generation, value: Some(v) },
    );
    assert forall|k: int| 0 <= k < a2.free_list@.len() implies (#[trigger] a2.free_list@[k])
        < a2.slots@.len() && a2.slots@[a2.free_list@[k] as int].value is None
        && a2.slots@[a2.free_list@[k] as int].generation < u64::MAX by {
        assert(a1.free_list@[k] == a2.free_list@[k]);
        assert((a1.free_list@[k] as int) != i);
    }
}

/// Two slot sequences that agree pointwise on occupancy have the same
/// occupied-slot count.
pub proof fn lemma_count_some_same_someness<T1, T2>(s1: Seq<Slot<T1>>, s2: Seq<Slot<T2>>)
    requires
        s1.len() == s2.len(),
        forall|j: int|
            0 <= j < s1.len() ==> ((#[trigger] s2[j]).value is Some == (#[trigger] s1[j]).value
                is Some),
    ensures
        count_some(s2) == count_some(s1),
    decreases s1.len(),
{
    if s1.len() > 0 {
        lemma_count_some_same_someness(s1.drop_last(), s2.drop_last());
        assert(s1[s1.len() - 1] == s1.last());
        assert(s2[s2.len() - 1] == s2.last());
    }
}

/// An occupied-slot count never exceeds the slot count.
pub proof fn lemma_count_some_le_len<T>(s: Seq<Slot<T>>)
    ensures
        count_some(s) <= s.len(),
    decreases s.len(),
{
    if s.len() > 0 {
        lemma_count_some_le_len(s.drop_last());
    }
}

/// Replacing one slot changes the occupied-slot count by exactly the
/// difference the replacement makes at that position.
pub proof fn lemma_count_some_update<T>(s: Seq<Slot<T>>, i: int, sl: Slot<T>)
    requires
        0 <= i < s.len(),
    ensures
        count_some(s.update(i, sl)) == count_some(s) + (if sl.value is Some {
            1int
        } else {
            0int
        }) - (if s[i].value is Some {
            1int
        } else {
            0int
        }),
    decreases s.len(),
{
    let t = s.update(i, sl);
    if i == s.len() - 1 {
        assert(t.drop_last() =~= s.drop_last());
    } else {
        assert(t.drop_last() =~= s.drop_last().update(i, sl));
        lemma_count_some_update(s.drop_last(), i, sl);
    }
}

/// A sequence with no occupied slot has an occupied-slot count of zero.
pub proof fn lemma_count_some_none<T>(s: Seq<Slot<T>>)
    requires
        forall|i: int| 0 <= i < s.len() ==> !((#[trigger] s[i]).value is Some),
    ensures
        count_some(s) == 0,
    decreases s.len(),
{
    if s.len() > 0 {
        lemma_count_some_none(s.drop_last());
    }
}

} // verus!
