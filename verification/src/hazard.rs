//! The hazard-pointer reclamation manager. A hazard slot publishes a word a
//! thread is about to dereference; a retired word may be reclaimed only once
//! no hazard slot holds it. Here the manager is modelled with one record of
//! slots and an owned retired list, and a scan hands back the words it
//! reclaims, so the safety property — nothing reclaimed while protected — is
//! stated in the contracts and checked.

use vstd::prelude::*;

verus! {

broadcast use vstd::seq_lib::group_to_multiset_ensures;

/// The reclamation manager: a record of hazard slots (word zero marks a free
/// slot), a retired list, and the threshold past which a retire triggers a
/// scan.
pub struct HPBRManager {
    hazards: Vec<usize>,
    retired: Vec<usize>,
    scan_threshold: usize,
}

impl HPBRManager {
    /// The published hazard slots.
    pub closed spec fn slots(self) -> Seq<usize> {
        self.hazards@
    }

    /// The words retired and not yet reclaimed.
    pub closed spec fn retired_list(self) -> Seq<usize> {
        self.retired@
    }

    pub closed spec fn threshold(self) -> usize {
        self.scan_threshold
    }

    /// True when some hazard slot holds the word.
    pub open spec fn protects(self, p: usize) -> bool {
        self.slots().contains(p)
    }

    pub fn new(scan_threshold: usize, hazards_per_thread: usize) -> (r: Self)
        ensures
            r.slots().len() == hazards_per_thread,
            forall|i: int| 0 <= i < hazards_per_thread ==> r.slots()[i] == 0,
            r.retired_list() == Seq::<usize>::empty(),
            r.threshold() == scan_threshold,
    {
        let mut hazards: Vec<usize> = Vec::new();
        let mut i: usize = 0;
        while i < hazards_per_thread
            invariant
                i <= hazards_per_thread,
                hazards@.len() == i,
                forall|j: int| 0 <= j < i ==> hazards@[j] == 0,
            decreases hazards_per_thread - i,
        {
            hazards.push(0);
            i = i + 1;
        }
        HPBRManager { hazards, retired: Vec::new(), scan_threshold }
    }

    /// Publishes `ptr` in hazard slot `slot`. Effective protection further
    /// requires the caller's re-read confirming the source still holds `ptr`.
    pub fn protect(&mut self, ptr: usize, slot: usize)
        requires
            slot < old(self).slots().len(),
        ensures
            final(self).slots() == old(self).slots().update(slot as int, ptr),
            final(self).retired_list() == old(self).retired_list(),
            final(self).threshold() == old(self).threshold(),
    {
        self.hazards[slot] = ptr;
    }

    /// Clears hazard slot `slot`.
    pub fn unprotect(&mut self, slot: usize)
        requires
            slot < old(self).slots().len(),
        ensures
            final(self).slots() == old(self).slots().update(slot as int, 0),
            final(self).retired_list() == old(self).retired_list(),
            final(self).threshold() == old(self).threshold(),
    {
        self.hazards[slot] = 0;
    }

    /// True when some hazard slot holds `ptr`.
    fn is_protected(&self, ptr: usize) -> (r: bool)
        ensures
            r == self.protects(ptr),
    {
        let mut i: usize = 0;
        while i < self.hazards.len()
            invariant
                i <= self.hazards@.len(),
                forall|j: int| 0 <= j < i ==> self.hazards@[j] != ptr,
            decreases self.hazards@.len() - i,
        {
            if self.hazards[i] == ptr {
                return true;
            }
            i = i + 1;
        }
        false
    }

    /// Reclaims every retired word held in no hazard slot and keeps the rest.
    /// The reclaimed words are handed back: in the concurrent design they
    /// would be freed, and nothing protected is ever among them.
    fn scan(&mut self) -> (freed: Vec<usize>)
        ensures
            final(self).slots() == old(self).slots(),
            final(self).threshold() == old(self).threshold(),
            freed@.to_multiset().add(final(self).retired_list().to_multiset()) == old(
                self,
            ).retired_list().to_multiset(),
            forall|i: int| 0 <= i < freed@.len() ==> !final(self).protects(#[trigger] freed@[i]),
            forall|i: int|
                0 <= i < final(self).retired_list().len() ==> final(self).protects(
                    #[trigger] final(self).retired_list()[i],
                ),
    {
        let mut kept: Vec<usize> = Vec::new();
        let mut freed: Vec<usize> = Vec::new();
        let n = self.retired.len();
        let mut i: usize = 0;
        while i < n
            invariant
                i <= n,
                n == self.retired@.len(),
                freed@.to_multiset().add(kept@.to_multiset()) == self.retired@.take(
                    i as int,
                ).to_multiset(),
                forall|j: int| 0 <= j < freed@.len() ==> !self.protects(#[trigger] freed@[j]),
                forall|j: int| 0 <= j < kept@.len() ==> self.protects(#[trigger] kept@[j]),
                self.hazards@ == old(self).hazards@,
                self.retired@ == old(self).retired@,
                self.scan_threshold == old(self).scan_threshold,
            decreases n - i,
        {
            let p = self.retired[i];
            proof {
                assert(self.retired@.take(i + 1) =~= self.retired@.take(i as int).push(
                    self.retired@[i as int],
                ));
            }
            if self.is_protected(p) {
                kept.push(p);
            } else {
                freed.push(p);
            }
            i = i + 1;
        }
        proof {
            assert(self.retired@.take(n as int) =~= self.retired@);
        }
        self.retired = kept;
        freed
    }

    /// Clears hazard slot `slot` and retires `ptr`. When the retired list has
    /// grown past the scan threshold, a scan runs; the words it reclaimed are
    /// handed back, and none of them is held in any hazard slot.
    pub fn retire(&mut self, ptr: usize, slot: usize) -> (freed: Vec<usize>)
        requires
            slot < old(self).slots().len(),
        ensures
            final(self).slots() == old(self).slots().update(slot as int, 0),
            final(self).threshold() == old(self).threshold(),
            freed@.to_multiset().add(final(self).retired_list().to_multiset()) == old(
                self,
            ).retired_list().push(ptr).to_multiset(),
            forall|i: int| 0 <= i < freed@.len() ==> !final(self).protects(#[trigger] freed@[i]),
            old(self).retired_list().len() + 1 <= old(self).threshold() ==> freed@
                == Seq::<usize>::empty() && final(self).retired_list() == old(
                self,
            ).retired_list().push(ptr),
            old(self).retired_list().len() + 1 > old(self).threshold() ==> forall|i: int|
                0 <= i < final(self).retired_list().len() ==> final(self).protects(
                    #[trigger] final(self).retired_list()[i],
                ),
    {
        self.hazards[slot] = 0;
        self.retired.push(ptr);
        if self.retired.len() > self.scan_threshold {
            self.scan()
        } else {
            Vec::new()
        }
    }
}

} // verus!
