//! Thread-local list of retired pointers, reclaimed in batches against the
//! hazards of a registry.
//!
//! Each entry pairs an address with its deleter. Reclamation hands the
//! entries that may be freed back to the caller, which runs their deleters.

use crate::hazard::{protected, HazardBag, SlotView};
use std::collections::HashSet;
use vstd::prelude::*;

verus! {

broadcast use vstd::std_specs::hash::group_hash_axioms;

/// Number of retired entries at which `retire` triggers a collection.
pub const THRESHOLD: usize = 64;

/// The entries of `entries` whose address is in `hazards`: those that stay.
pub open spec fn kept<D>(entries: Seq<(usize, D)>, hazards: Set<usize>) -> Seq<(usize, D)> {
    entries.filter(|e: (usize, D)| hazards.contains(e.0))
}

/// The entries of `entries` whose address is not in `hazards`: those freed.
pub open spec fn freed<D>(entries: Seq<(usize, D)>, hazards: Set<usize>) -> Seq<(usize, D)> {
    entries.filter(|e: (usize, D)| !hazards.contains(e.0))
}

/// Retired pointers of one thread, each with its deleter.
pub struct RetiredSet<D> {
    inner: Vec<(usize, D)>,
}

impl<D> View for RetiredSet<D> {
    type V = Seq<(usize, D)>;

    closed spec fn view(&self) -> Seq<(usize, D)> {
        self.inner@
    }
}

impl<D> RetiredSet<D> {
    /// Creates an empty retired list.
    pub fn new() -> (r: Self)
        ensures
            r@ == Seq::<(usize, D)>::empty(),
    {
        RetiredSet { inner: Vec::new() }
    }

    /// The number of entries waiting for reclamation.
    pub fn len(&self) -> (r: usize)
        ensures
            r == self@.len(),
    {
        self.inner.len()
    }

    /// Whether no entry waits for reclamation.
    pub fn is_empty(&self) -> (r: bool)
        ensures
            r == (self@.len() == 0),
    {
        self.inner.len() == 0
    }

    /// Splits the entries by the snapshot `hazards`: returns those whose
    /// address is not protected, to be freed, and keeps the others in order.
    pub fn collect_against(&mut self, hazards: &HashSet<usize>) -> (r: Vec<(usize, D)>)
        ensures
            r@ == freed(old(self)@, hazards@),
            final(self)@ == kept(old(self)@, hazards@),
    {
        let ghost entries = self.inner@;
        let mut rest: Vec<(usize, D)> = Vec::new();
        let mut out: Vec<(usize, D)> = Vec::new();
        std::mem::swap(&mut rest, &mut self.inner);
        let mut stay: Vec<(usize, D)> = Vec::new();
        let ghost i: int = 0;
        while rest.len() > 0
            invariant
                0 <= i <= entries.len(),
                rest@ == entries.skip(i),
                stay@ == kept(entries.take(i), hazards@),
                out@ == freed(entries.take(i), hazards@),
            decreases rest@.len(),
        {
            let e = rest.remove(0);
            proof {
                assert(entries.take(i + 1).drop_last() =~= entries.take(i));
                assert(entries.take(i + 1).last() == entries[i]);
                assert(e == entries[i]);
            }
            let protected_now = hazards.contains(&e.0);
            assert(protected_now == hazards@.contains(e.0));
            if protected_now {
                stay.push(e);
            } else {
                out.push(e);
            }
            proof {
                reveal(Seq::filter);
                let s = entries.take(i + 1);
                assert(kept(s, hazards@) == if hazards@.contains(e.0) {
                    kept(s.drop_last(), hazards@).push(e)
                } else {
                    kept(s.drop_last(), hazards@)
                });
                assert(freed(s, hazards@) == if !hazards@.contains(e.0) {
                    freed(s.drop_last(), hazards@).push(e)
                } else {
                    freed(s.drop_last(), hazards@)
                });
                i = i + 1;
                assert(rest@ =~= entries.skip(i));
            }
        }
        proof {
            assert(entries.take(i) =~= entries);
        }
        self.inner = stay;
        out
    }

    /// Frees the entries that no slot of `hazards` protects: returns them, and
    /// keeps the others for a later pass.
    pub fn collect(&mut self, hazards: &HazardBag) -> (r: Vec<(usize, D)>)
        ensures
            r@ == freed(old(self)@, protected(hazards@)),
            final(self)@ == kept(old(self)@, protected(hazards@)),
    {
        let snapshot = hazards.all_hazards();
        self.collect_against(&snapshot)
    }

    /// Retires `pointer` with its deleter. Once `THRESHOLD` entries wait, a
    /// collection runs and the entries that may be freed are returned.
    pub fn retire(&mut self, pointer: usize, deleter: D, hazards: &HazardBag) -> (r: Vec<
        (usize, D),
    >)
        ensures
            ({
                let all = old(self)@.push((pointer, deleter));
                if all.len() >= THRESHOLD {
                    &&& r@ == freed(all, protected(hazards@))
                    &&& final(self)@ == kept(all, protected(hazards@))
                } else {
                    &&& r@ == Seq::<(usize, D)>::empty()
                    &&& final(self)@ == all
                }
            }),
    {
        self.inner.push((pointer, deleter));
        if self.inner.len() >= THRESHOLD {
            self.collect(hazards)
        } else {
            Vec::new()
        }
    }
}

/// An address that an owned slot advertises when a collection takes its
/// snapshot is never among the entries that the collection frees.
pub proof fn lemma_hazard_coverage<D>(entries: Seq<(usize, D)>, slots: Seq<SlotView>, i: int)
    requires
        0 <= i < slots.len(),
        slots[i].active,
    ensures
        forall|k: int|
            0 <= k < freed(entries, protected(slots)).len() ==> (#[trigger] freed(
                entries,
                protected(slots),
            )[k]).0 != slots[i].hazard,
{
    let h = protected(slots);
    assert(h.contains(slots[i].hazard));
    assert forall|k: int| 0 <= k < freed(entries, h).len() implies (#[trigger] freed(
        entries,
        h,
    )[k]).0 != slots[i].hazard by {
        entries.lemma_filter_pred(|e: (usize, D)| !h.contains(e.0), k);
    }
}

/// A retired entry whose address no owned slot advertises is freed by the
/// collection and not kept.
pub proof fn lemma_reclamation_progress<D>(entries: Seq<(usize, D)>, slots: Seq<SlotView>, k: int)
    requires
        0 <= k < entries.len(),
        forall|i: int| 0 <= i < slots.len() && (#[trigger] slots[i]).active ==> slots[i].hazard != entries[k].0,
    ensures
        freed(entries, protected(slots)).contains(entries[k]),
        !kept(entries, protected(slots)).contains(entries[k]),
{
    let h = protected(slots);
    assert(!h.contains(entries[k].0));
    entries.lemma_filter_contains(|e: (usize, D)| !h.contains(e.0), k);
    if kept(entries, h).contains(entries[k]) {
        let j = choose|j: int| 0 <= j < kept(entries, h).len() && kept(entries, h)[j] == entries[k];
        entries.lemma_filter_pred(|e: (usize, D)| h.contains(e.0), j);
    }
}

} // verus!
