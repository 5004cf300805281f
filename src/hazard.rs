//! Registry of hazard slots: a grow-only arena in which each slot is owned by
//! at most one shield and advertises the address that the shield protects.
//! Slots are never removed; a released slot is recycled by the next shield.

use std::collections::HashSet;
use vstd::prelude::*;

verus! {

broadcast use vstd::std_specs::hash::group_hash_axioms;

/// A slot as seen from outside: whether a shield owns it, and the address it
/// protects (0 for none).
pub struct SlotView {
    pub active: bool,
    pub hazard: usize,
}

/// The addresses advertised by the owned slots of `slots`.
pub open spec fn protected(slots: Seq<SlotView>) -> Set<usize> {
    Set::new(|a: usize| exists|i: int| 0 <= i < slots.len() && slots[i].active && slots[i].hazard == a)
}

/// A slot that no shield owns advertises nothing.
pub open spec fn slots_wf(slots: Seq<SlotView>) -> bool {
    forall|i: int| 0 <= i < slots.len() && !(#[trigger] slots[i]).active ==> slots[i].hazard == 0
}

/// Some slot of `slots` is free for recycling.
pub open spec fn has_free_slot(slots: Seq<SlotView>) -> bool {
    exists|i: int| 0 <= i < slots.len() && !(#[trigger] slots[i]).active
}

/// The number of slots of `slots` that no shield owns.
pub open spec fn free_slots(slots: Seq<SlotView>) -> nat
    decreases slots.len(),
{
    if slots.len() == 0 {
        0
    } else {
        free_slots(slots.drop_last()) + if slots.last().active {
            0nat
        } else {
            1nat
        }
    }
}

proof fn lemma_free_slots_update(slots: Seq<SlotView>, i: int, v: SlotView)
    requires
        0 <= i < slots.len(),
    ensures
        free_slots(slots.update(i, v)) as int == free_slots(slots) as int - (if slots[i].active {
            0int
        } else {
            1int
        }) + (if v.active {
            0int
        } else {
            1int
        }),
    decreases slots.len(),
{
    let u = slots.update(i, v);
    if i == slots.len() - 1 {
        assert(u.drop_last() =~= slots.drop_last());
    } else {
        assert(u.drop_last() =~= slots.drop_last().update(i, v));
        lemma_free_slots_update(slots.drop_last(), i, v);
    }
}

proof fn lemma_free_slots_positive(slots: Seq<SlotView>)
    ensures
        has_free_slot(slots) <==> free_slots(slots) > 0,
    decreases slots.len(),
{
    if slots.len() > 0 {
        let d = slots.drop_last();
        lemma_free_slots_positive(d);
        if has_free_slot(d) {
            let k = choose|k: int| 0 <= k < d.len() && !(#[trigger] d[k]).active;
            assert(!slots[k].active);
        }
        if has_free_slot(slots) && slots.last().active {
            let k = choose|k: int| 0 <= k < slots.len() && !(#[trigger] slots[k]).active;
            assert(!d[k].active);
        }
        if !slots.last().active {
            assert(!slots[slots.len() - 1].active);
        }
    }
}

/// Releasing an owned slot adds one free slot to the bag.
pub proof fn lemma_release_frees_slot(before: Seq<SlotView>, i: int)
    requires
        0 <= i < before.len(),
        before[i].active,
    ensures
        free_slots(before.update(i, SlotView { active: false, hazard: 0 })) == free_slots(before) + 1,
{
    lemma_free_slots_update(before, i, SlotView { active: false, hazard: 0 });
}

/// Slot recycling: while the bag has a free slot, `acquire_slot` takes one of
/// them, so the bag keeps its length and has one free slot fewer. After `n`
/// releases, `n` acquisitions therefore allocate no new slot.
pub proof fn lemma_slot_recycling(before: Seq<SlotView>)
    requires
        free_slots(before) > 0,
    ensures
        has_free_slot(before),
        forall|r: int|
            0 <= r < before.len() && !(#[trigger] before[r]).active ==> {
                let after = before.update(r, SlotView { active: true, hazard: 0 });
                &&& after.len() == before.len()
                &&& free_slots(after) + 1 == free_slots(before)
            },
{
    lemma_free_slots_positive(before);
    assert forall|r: int| 0 <= r < before.len() && !(#[trigger] before[r]).active implies free_slots(
        before.update(r, SlotView { active: true, hazard: 0 }),
    ) + 1 == free_slots(before) by {
        lemma_free_slots_update(before, r, SlotView { active: true, hazard: 0 });
    }
}

struct HazardSlot {
    active: bool,
    hazard: usize,
}

/// Bag (multiset) of hazard pointers, one slot per shield.
pub struct HazardBag {
    slots: Vec<HazardSlot>,
}

impl View for HazardBag {
    type V = Seq<SlotView>;

    closed spec fn view(&self) -> Seq<SlotView> {
        self.slots@.map_values(|s: HazardSlot| SlotView { active: s.active, hazard: s.hazard })
    }
}

impl HazardBag {
    /// Creates an empty registry.
    pub fn new() -> (r: Self)
        ensures
            r@ == Seq::<SlotView>::empty(),
    {
        HazardBag { slots: Vec::new() }
    }

    /// Finds the first slot that no shield owns and takes it.
    fn try_acquire_inactive(&mut self) -> (r: Option<usize>)
        requires
            slots_wf(old(self)@),
        ensures
            slots_wf(final(self)@),
            match r {
                Some(i) => {
                    &&& i < old(self)@.len()
                    &&& !old(self)@[i as int].active
                    &&& final(self)@ == old(self)@.update(i as int, SlotView { active: true, hazard: 0 })
                },
                None => !has_free_slot(old(self)@) && final(self)@ == old(self)@,
            },
    {
        let mut i: usize = 0;
        while i < self.slots.len()
            invariant
                i <= self.slots@.len(),
                self@ == old(self)@,
                slots_wf(self@),
                forall|j: int| 0 <= j < i ==> (#[trigger] self@[j]).active,
            decreases self.slots@.len() - i,
        {
            if !self.slots[i].active {
                assert(!self@[i as int].active);
                self.slots.set(i, HazardSlot { active: true, hazard: 0 });
                assert(self@ =~= old(self)@.update(i as int, SlotView { active: true, hazard: 0 }));
                return Some(i);
            }
            i = i + 1;
        }
        None
    }

    /// Takes a slot for a new shield: the first free slot if there is one,
    /// else a new slot at the end.
    pub fn acquire_slot(&mut self) -> (r: usize)
        requires
            slots_wf(old(self)@),
        ensures
            slots_wf(final(self)@),
            r < final(self)@.len(),
            final(self)@[r as int] == (SlotView { active: true, hazard: 0 }),
            has_free_slot(old(self)@) ==> {
                &&& r < old(self)@.len()
                &&& !old(self)@[r as int].active
                &&& final(self)@ == old(self)@.update(r as int, SlotView { active: true, hazard: 0 })
            },
            !has_free_slot(old(self)@) ==> {
                &&& r == old(self)@.len()
                &&& final(self)@ == old(self)@.push(SlotView { active: true, hazard: 0 })
            },
    {
        match self.try_acquire_inactive() {
            Some(i) => i,
            None => {
                let r = self.slots.len();
                self.slots.push(HazardSlot { active: true, hazard: 0 });
                assert(self@ =~= old(self)@.push(SlotView { active: true, hazard: 0 }));
                r
            },
        }
    }

    /// Advertises `addr` in the owned slot `slot`.
    pub fn set_hazard(&mut self, slot: usize, addr: usize)
        requires
            slots_wf(old(self)@),
            slot < old(self)@.len(),
            old(self)@[slot as int].active,
        ensures
            slots_wf(final(self)@),
            final(self)@ == old(self)@.update(slot as int, SlotView { active: true, hazard: addr }),
    {
        self.slots.set(slot, HazardSlot { active: true, hazard: addr });
        assert(self@ =~= old(self)@.update(slot as int, SlotView { active: true, hazard: addr }));
    }

    /// Clears the slot `slot` and gives it up for recycling.
    pub fn release_slot(&mut self, slot: usize)
        requires
            slots_wf(old(self)@),
            slot < old(self)@.len(),
        ensures
            slots_wf(final(self)@),
            final(self)@ == old(self)@.update(slot as int, SlotView { active: false, hazard: 0 }),
    {
        self.slots.set(slot, HazardSlot { active: false, hazard: 0 });
        assert(self@ =~= old(self)@.update(slot as int, SlotView { active: false, hazard: 0 }));
    }

    /// Returns all the hazards in the set: the address of every owned slot.
    pub fn all_hazards(&self) -> (r: HashSet<usize>)
        ensures
            r@ == protected(self@),
    {
        let mut set: HashSet<usize> = HashSet::new();
        let mut i: usize = 0;
        while i < self.slots.len()
            invariant
                i <= self.slots@.len(),
                set@ == protected(self@.take(i as int)),
            decreases self.slots@.len() - i,
        {
            let ghost before = set@;
            if self.slots[i].active {
                set.insert(self.slots[i].hazard);
            }
            proof {
                let s = self@.take(i + 1);
                assert(s.drop_last() =~= self@.take(i as int));
                assert(set@ =~= protected(s)) by {
                    assert forall|a: usize| set@.contains(a) <==> protected(s).contains(a) by {
                        if protected(s).contains(a) {
                            let k = choose|k: int| 0 <= k < s.len() && s[k].active && s[k].hazard == a;
                            if k < i {
                                assert(self@.take(i as int)[k] == s[k]);
                            }
                        }
                        if before.contains(a) {
                            let k = choose|k: int|
                                0 <= k < i && self@.take(i as int)[k].active && self@.take(
                                    i as int,
                                )[k].hazard == a;
                            assert(s[k] == self@.take(i as int)[k]);
                        }
                        if set@.contains(a) && !before.contains(a) {
                            assert(s[i as int].active && s[i as int].hazard == a);
                        }
                    }
                }
            }
            i = i + 1;
        }
        assert(self@.take(self@.len() as int) =~= self@);
        set
    }
}

/// Ownership of one hazard slot.
pub struct Shield {
    slot: usize,
}

impl Shield {
    /// Creates a shield on a slot of `hazards`.
    pub fn new(hazards: &mut HazardBag) -> (r: Self)
        requires
            slots_wf(old(hazards)@),
        ensures
            slots_wf(final(hazards)@),
            r.slot() < final(hazards)@.len(),
            final(hazards)@[r.slot() as int] == (SlotView { active: true, hazard: 0 }),
            has_free_slot(old(hazards)@) ==> {
                &&& r.slot() < old(hazards)@.len()
                &&& final(hazards)@ == old(hazards)@.update(r.slot() as int, SlotView { active: true, hazard: 0 })
            },
            !has_free_slot(old(hazards)@) ==> final(hazards)@ == old(hazards)@.push(
                SlotView { active: true, hazard: 0 },
            ),
    {
        Shield { slot: hazards.acquire_slot() }
    }

    pub closed spec fn slot(&self) -> usize {
        self.slot
    }

    /// The index of the slot this shield owns.
    pub fn slot_index(&self) -> (r: usize)
        ensures
            r == self.slot(),
    {
        self.slot
    }

    /// Publishes `*pointer` in the shield's slot and validates it against
    /// `current`, the value read from the source after publication. On
    /// success the address stays protected; otherwise `*pointer` takes the
    /// latest value and the slot is cleared.
    pub fn try_protect(&self, hazards: &mut HazardBag, pointer: &mut usize, current: usize) -> (r:
        bool)
        requires
            slots_wf(old(hazards)@),
            self.slot() < old(hazards)@.len(),
            old(hazards)@[self.slot() as int].active,
        ensures
            slots_wf(final(hazards)@),
            r == (*old(pointer) == current),
            *final(pointer) == current,
            final(hazards)@ == old(hazards)@.update(
                self.slot() as int,
                SlotView { active: true, hazard: if r { current } else { 0 } },
            ),
    {
        hazards.set_hazard(self.slot, *pointer);
        if *pointer == current {
            true
        } else {
            *pointer = current;
            hazards.set_hazard(self.slot, 0);
            proof {
                assert(hazards@ =~= old(hazards)@.update(
                    self.slot() as int,
                    SlotView { active: true, hazard: 0 },
                ));
            }
            false
        }
    }

    /// Clears the slot and gives it back to the registry.
    pub fn release(self, hazards: &mut HazardBag)
        requires
            slots_wf(old(hazards)@),
            self.slot() < old(hazards)@.len(),
        ensures
            slots_wf(final(hazards)@),
            final(hazards)@ == old(hazards)@.update(self.slot() as int, SlotView { active: false, hazard: 0 }),
    {
        hazards.release_slot(self.slot);
    }
}

} // verus!
