//! The k-relaxed segmented FIFO queue: a forward-linked list of segments of
//! `k` slots each. An enqueue probes the tail segment's slots in a random
//! order and publishes its payload into an empty slot, then runs the commit
//! protocol; a dequeue probes the head segment and takes any occupied slot,
//! unlinking the head once it is drained. The contracts account for every
//! value: an enqueue adds exactly its payload to the queue's contents and a
//! dequeue removes exactly the value it hands back, taken from the frontmost
//! non-empty segment.

use vstd::multiset::Multiset;
use vstd::prelude::*;

use rand::seq::SliceRandom;

use crate::hazard::HPBRManager;

verus! {

broadcast use vstd::multiset::group_multiset_axioms, vstd::seq_lib::group_to_multiset_ensures;

/// True when the word's mark flag (bit 0) is set.
pub fn is_marked(ptr: usize) -> (r: bool)
    ensures
        r == (ptr & 0x1 != 0),
{
    match ptr & 0x1 {
        0 => false,
        _ => true,
    }
}

/// Clears the mark flag of the word.
pub fn unmark(ptr: usize) -> (r: usize)
    ensures
        r == ptr & (!0x1usize),
{
    ptr & !(0x1)
}

/// Sets the mark flag of the word.
pub fn mark(ptr: usize) -> (r: usize)
    ensures
        r == (ptr | 0x1),
{
    ptr | 0x1
}

/// One segment: `k` slots, each either an occupied payload or the empty
/// sentinel, and the deleted flag set when the segment is unlinked.
pub struct Segment<T> {
    data: Vec<Option<T>>,
    deleted: bool,
}

impl<T> Segment<T> {
    /// The slot contents, empties included.
    pub closed spec fn slots(self) -> Seq<Option<T>> {
        self.data@
    }

    pub closed spec fn spec_deleted(self) -> bool {
        self.deleted
    }

    /// A fresh segment of `k` empty slots.
    pub fn new(k: usize) -> (r: Self)
        ensures
            r.slots().len() == k,
            forall|j: int| 0 <= j < k ==> r.slots()[j] is None,
            !r.spec_deleted(),
    {
        let mut data: Vec<Option<T>> = Vec::new();
        let mut i: usize = 0;
        while i < k
            invariant
                i <= k,
                data@.len() == i,
                forall|j: int| 0 <= j < i ==> data@[j] is None,
            decreases k - i,
        {
            data.push(None);
            i = i + 1;
        }
        Segment { data, deleted: false }
    }
}

/// The multiset of payloads held by a row of slots.
pub open spec fn slots_ms<T>(s: Seq<Option<T>>) -> Multiset<T>
    decreases s.len(),
{
    if s.len() == 0 {
        Multiset::empty()
    } else {
        let rest = slots_ms(s.drop_first());
        match s[0] {
            Some(v) => rest.insert(v),
            None => rest,
        }
    }
}

/// The multiset of payloads held by a row of segments.
pub open spec fn segs_ms<T>(q: Seq<Segment<T>>) -> Multiset<T>
    decreases q.len(),
{
    if q.len() == 0 {
        Multiset::empty()
    } else {
        slots_ms(q[0].slots()).add(segs_ms(q.drop_first()))
    }
}

/// Writing a payload into an empty slot adds exactly that payload.
proof fn lemma_slots_ms_fill<T>(s: Seq<Option<T>>, i: int, v: T)
    requires
        0 <= i < s.len(),
        s[i] is None,
    ensures
        slots_ms(s.update(i, Some(v))) == slots_ms(s).insert(v),
    decreases s.len(),
{
    let s2 = s.update(i, Some(v));
    if i == 0 {
        assert(s2.drop_first() =~= s.drop_first());
        match s[0] {
            Some(_) => {
                assert(false);
            },
            None => {},
        }
    } else {
        assert(s2.drop_first() =~= s.drop_first().update(i - 1, Some(v)));
        lemma_slots_ms_fill(s.drop_first(), i - 1, v);
        assert(s2[0] == s[0]);
        match s[0] {
            Some(w) => {
                assert(slots_ms(s.drop_first()).insert(v).insert(w) =~= slots_ms(
                    s.drop_first(),
                ).insert(w).insert(v));
            },
            None => {},
        }
    }
}

/// Emptying an occupied slot removes exactly its payload.
proof fn lemma_slots_ms_take<T>(s: Seq<Option<T>>, i: int, v: T)
    requires
        0 <= i < s.len(),
        s[i] == Some(v),
    ensures
        slots_ms(s) == slots_ms(s.update(i, None)).insert(v),
    decreases s.len(),
{
    let s2 = s.update(i, None);
    if i == 0 {
        assert(s2.drop_first() =~= s.drop_first());
    } else {
        assert(s2.drop_first() =~= s.drop_first().update(i - 1, None));
        lemma_slots_ms_take(s.drop_first(), i - 1, v);
        assert(s2[0] == s[0]);
        match s[0] {
            Some(w) => {
                assert(slots_ms(s2.drop_first()).insert(v).insert(w) =~= slots_ms(
                    s2.drop_first(),
                ).insert(w).insert(v));
            },
            None => {},
        }
    }
}

/// A row of empty slots holds nothing.
proof fn lemma_slots_ms_all_none<T>(s: Seq<Option<T>>)
    requires
        forall|j: int| 0 <= j < s.len() ==> s[j] is None,
    ensures
        slots_ms(s) == Multiset::<T>::empty(),
    decreases s.len(),
{
    if s.len() > 0 {
        lemma_slots_ms_all_none(s.drop_first());
    }
}

/// A segment of `n` slots holds at most `n` payloads.
pub proof fn lemma_slots_ms_len<T>(s: Seq<Option<T>>)
    ensures
        slots_ms(s).len() <= s.len(),
    decreases s.len(),
{
    if s.len() > 0 {
        lemma_slots_ms_len(s.drop_first());
    }
}

/// Appending a segment appends its payloads.
proof fn lemma_segs_ms_push<T>(q: Seq<Segment<T>>, seg: Segment<T>)
    ensures
        segs_ms(q.push(seg)) == segs_ms(q).add(slots_ms(seg.slots())),
    decreases q.len(),
{
    if q.len() == 0 {
        assert(q.push(seg)[0] == seg);
        assert(q.push(seg).drop_first() =~= Seq::<Segment<T>>::empty());
        assert(segs_ms(Seq::<Segment<T>>::empty()) == Multiset::<T>::empty());
        assert(segs_ms(q.push(seg)) == slots_ms(seg.slots()).add(Multiset::<T>::empty()));
        assert(segs_ms(q) == Multiset::<T>::empty());
        assert(slots_ms(seg.slots()).add(Multiset::<T>::empty()) =~= Multiset::<T>::empty().add(
            slots_ms(seg.slots()),
        ));
    } else {
        assert(q.push(seg).drop_first() =~= q.drop_first().push(seg));
        lemma_segs_ms_push(q.drop_first(), seg);
        assert(q.push(seg)[0] == q[0]);
        assert(segs_ms(q.push(seg)) == slots_ms(q[0].slots()).add(
            segs_ms(q.drop_first()).add(slots_ms(seg.slots())),
        ));
        assert(segs_ms(q) == slots_ms(q[0].slots()).add(segs_ms(q.drop_first())));
        assert(slots_ms(q[0].slots()).add(segs_ms(q.drop_first()).add(slots_ms(seg.slots())))
            =~= slots_ms(q[0].slots()).add(segs_ms(q.drop_first())).add(slots_ms(seg.slots())));
    }
}

/// The payload row decomposes at the tail segment.
proof fn lemma_segs_ms_last<T>(q: Seq<Segment<T>>)
    requires
        q.len() >= 1,
    ensures
        segs_ms(q) == segs_ms(q.drop_last()).add(slots_ms(q.last().slots())),
{
    assert(q =~= q.drop_last().push(q.last()));
    lemma_segs_ms_push(q.drop_last(), q.last());
}

/// Per-slot enqueue timestamps paralleling the segments: an occupied slot
/// carries the moment its payload was enqueued, an empty slot carries
/// nothing.
pub open spec fn rows_match<T>(rows: Seq<Seq<Option<nat>>>, segs: Seq<Segment<T>>, k: usize) -> bool {
    &&& rows.len() == segs.len()
    &&& forall|i: int| 0 <= i < rows.len() ==> (#[trigger] rows[i]).len() == k
    &&& forall|i: int, j: int|
        0 <= i < rows.len() && 0 <= j < k ==> ((#[trigger] rows[i][j]) is Some
            <==> segs[i].slots()[j] is Some)
}

/// Every timestamp on record is in the past.
pub open spec fn rows_bounded(rows: Seq<Seq<Option<nat>>>, bound: nat) -> bool {
    forall|i: int, j: int|
        0 <= i < rows.len() && 0 <= j < rows[i].len() && (#[trigger] rows[i][j]) is Some
            ==> rows[i][j]->Some_0 < bound
}

/// Segments age front to back: every payload in a segment was enqueued
/// before every payload in any later segment.
pub open spec fn rows_ordered(rows: Seq<Seq<Option<nat>>>) -> bool {
    forall|i1: int, j1: int, i2: int, j2: int|
        0 <= i1 < i2 < rows.len() && 0 <= j1 < rows[i1].len() && 0 <= j2 < rows[i2].len() && (
        #[trigger] rows[i1][j1]) is Some && (#[trigger] rows[i2][j2]) is Some
            ==> rows[i1][j1]->Some_0 < rows[i2][j2]->Some_0
}

/// The k-relaxed FIFO segmented queue.
pub struct SegQueueOld<T> {
    segs: Vec<Segment<T>>,
    manager: HPBRManager,
    k: usize,
    base_id: usize,
    stamps: Ghost<Seq<Seq<Option<nat>>>>,
    stamp_gen: Ghost<nat>,
}

impl<T> SegQueueOld<T> {
    /// The multiset of payloads currently queued.
    pub closed spec fn contents(self) -> Multiset<T> {
        segs_ms(self.segs@)
    }

    /// The head-to-tail row of segments.
    pub closed spec fn view_segs(self) -> Seq<Segment<T>> {
        self.segs@
    }

    /// The enqueue timestamps, segment by segment and slot by slot.
    pub closed spec fn stamp_rows(self) -> Seq<Seq<Option<nat>>> {
        self.stamps@
    }

    /// The timestamp the next enqueue will carry.
    pub closed spec fn next_stamp(self) -> nat {
        self.stamp_gen@
    }

    pub closed spec fn spec_k(self) -> usize {
        self.k
    }

    /// The reclamation manager keeps its full record of hazard slots.
    pub closed spec fn manager_ok(self) -> bool {
        self.manager.slots().len() == 3
    }

    /// Well-formedness: at least one live segment, each of exactly `k`
    /// slots, with the timestamp record matching the slots, all timestamps
    /// in the past, and segments aging front to back.
    pub open spec fn wf(self) -> bool {
        &&& self.spec_k() >= 1
        &&& self.view_segs().len() >= 1
        &&& forall|i: int|
            0 <= i < self.view_segs().len() ==> (#[trigger] self.view_segs()[i]).slots().len()
                == self.spec_k() && !self.view_segs()[i].spec_deleted()
        &&& rows_match(self.stamp_rows(), self.view_segs(), self.spec_k())
        &&& rows_bounded(self.stamp_rows(), self.next_stamp())
        &&& rows_ordered(self.stamp_rows())
        &&& self.manager_ok()
    }

    /// A fresh queue of segments of `k` slots, holding nothing.
    pub fn new(k: usize) -> (r: Self)
        requires
            k >= 1,
        ensures
            r.wf(),
            r.spec_k() == k,
            r.contents() == Multiset::<T>::empty(),
            r.next_stamp() == 0,
    {
        let seg = Segment::new(k);
        let mut segs: Vec<Segment<T>> = Vec::new();
        proof {
            lemma_slots_ms_all_none(seg.slots());
        }
        segs.push(seg);
        proof {
            assert(segs@.drop_first() =~= Seq::<Segment<T>>::empty());
            assert(segs_ms(Seq::<Segment<T>>::empty()) == Multiset::<T>::empty());
            assert(segs_ms(segs@) == Multiset::<T>::empty().add(Multiset::<T>::empty()));
            assert(Multiset::<T>::empty().add(Multiset::<T>::empty())
                =~= Multiset::<T>::empty());
        }
        let ghost row = Seq::<Option<nat>>::new(k as nat, |j: int| None);
        let ghost rows0 = seq![row];
        SegQueueOld {
            segs,
            manager: HPBRManager::new(100, 3),
            k,
            base_id: 0,
            stamps: Ghost(rows0),
            stamp_gen: Ghost(0),
        }
    }

    /// The ascending probe order, prior to shuffling.
    fn probe_order(k: usize) -> (r: Vec<usize>)
        ensures
            r@.len() == k,
            forall|i: int| 0 <= i < k ==> r@[i] == i,
    {
        let mut vals: Vec<usize> = Vec::new();
        let mut i: usize = 0;
        while i < k
            invariant
                i <= k,
                vals@.len() == i,
                forall|j: int| 0 <= j < i ==> vals@[j] == j,
            decreases k - i,
        {
            vals.push(i);
            i = i + 1;
        }
        vals
    }

    /// The first slot in the probe order holding the empty sentinel.
    fn find_empty_slot(node: &Segment<T>, order: &Vec<usize>) -> (r: Option<usize>)
        requires
            forall|i: int| 0 <= i < order@.len() ==> (#[trigger] order@[i]) < node.slots().len(),
        ensures
            r matches Some(idx) ==> idx < node.slots().len() && node.slots()[idx as int] is None,
            r is None ==> forall|i: int|
                0 <= i < order@.len() ==> node.slots()[#[trigger] order@[i] as int] is Some,
    {
        let mut i: usize = 0;
        while i < order.len()
            invariant
                i <= order@.len(),
                forall|i0: int| 0 <= i0 < order@.len() ==> (#[trigger] order@[i0])
                    < node.slots().len(),
                forall|j: int| 0 <= j < i ==> node.slots()[#[trigger] order@[j] as int] is Some,
            decreases order@.len() - i,
        {
            let idx = order[i];
            if node.data[idx].is_none() {
                return Some(idx);
            }
            i = i + 1;
        }
        None
    }

    /// The first slot in the probe order holding a payload.
    fn find_item(node: &Segment<T>, order: &Vec<usize>) -> (r: Option<usize>)
        requires
            forall|i: int| 0 <= i < order@.len() ==> (#[trigger] order@[i]) < node.slots().len(),
        ensures
            r matches Some(idx) ==> idx < node.slots().len() && node.slots()[idx as int] is Some,
            r is None ==> forall|i: int|
                0 <= i < order@.len() ==> node.slots()[#[trigger] order@[i] as int] is None,
    {
        let mut i: usize = 0;
        while i < order.len()
            invariant
                i <= order@.len(),
                forall|i0: int| 0 <= i0 < order@.len() ==> (#[trigger] order@[i0])
                    < node.slots().len(),
                forall|j: int| 0 <= j < i ==> node.slots()[#[trigger] order@[j] as int] is None,
            decreases order@.len() - i,
        {
            let idx = order[i];
            if node.data[idx].is_some() {
                return Some(idx);
            }
            i = i + 1;
        }
        None
    }

    /// Appends a fresh empty segment as the new tail. In the concurrent
    /// protocol this is the CAS of a new segment into `tail.next` followed by
    /// the tail CAS; every failure of those is another thread's progress.
    fn advance_tail(&mut self)
        requires
            old(self).wf(),
        ensures
            final(self).wf(),
            final(self).spec_k() == old(self).spec_k(),
            final(self).contents() == old(self).contents(),
            final(self).view_segs().len() == old(self).view_segs().len() + 1,
            forall|i: int|
                0 <= i < old(self).view_segs().len() ==> final(self).view_segs()[i] == old(
                    self,
                ).view_segs()[i],
            forall|j: int|
                0 <= j < final(self).spec_k() ==> final(self).view_segs().last().slots()[j]
                    is None,
            final(self).next_stamp() == old(self).next_stamp(),
            forall|i: int|
                0 <= i < old(self).stamp_rows().len() ==> final(self).stamp_rows()[i] == old(
                    self,
                ).stamp_rows()[i],
    {
        let seg = Segment::new(self.k);
        proof {
            lemma_slots_ms_all_none(seg.slots());
            lemma_segs_ms_push(self.segs@, seg);
            assert(segs_ms(self.segs@).add(Multiset::<T>::empty()) =~= segs_ms(self.segs@));
        }
        self.segs.push(seg);
        let ghost row = Seq::<Option<nat>>::new(self.k as nat, |j: int| None);
        proof {
            self.stamps@ = self.stamps@.push(row);
        }
        proof {
            assert forall|i1: int, j1: int, i2: int, j2: int|
                0 <= i1 < i2 < self.stamps@.len() && 0 <= j1 < self.stamps@[i1].len() && 0 <= j2
                    < self.stamps@[i2].len() && (#[trigger] self.stamps@[i1][j1]) is Some && (
                #[trigger] self.stamps@[i2][j2]) is Some implies self.stamps@[i1][j1]->Some_0
                < self.stamps@[i2][j2]->Some_0 by {
                assert(i2 < old(self).stamps@.len());
            }
        }
    }

    /// Unlinks the drained head segment, marks it deleted and retires it; in
    /// this owned model retirement is the hand-off to the allocator.
    fn advance_head(&mut self)
        requires
            old(self).wf(),
            old(self).view_segs().len() >= 2,
            forall|j: int|
                0 <= j < old(self).spec_k() ==> old(self).view_segs()[0].slots()[j] is None,
        ensures
            final(self).wf(),
            final(self).spec_k() == old(self).spec_k(),
            final(self).contents() == old(self).contents(),
            final(self).view_segs() == old(self).view_segs().drop_first(),
            final(self).next_stamp() == old(self).next_stamp(),
            final(self).stamp_rows() == old(self).stamp_rows().drop_first(),
    {
        proof {
            lemma_slots_ms_all_none(old(self).segs@[0].slots());
        }
        let mut old_head = self.segs.remove(0);
        old_head.deleted = true;
        // hand the unlinked segment's identity to the reclamation manager;
        // the manager frees nothing that a hazard slot still publishes
        let _freed = self.manager.retire(self.base_id, 0);
        self.base_id = self.base_id.wrapping_add(1);
        proof {
            self.stamps@ = self.stamps@.drop_first();
        }
        proof {
            assert(self.segs@ =~= old(self).segs@.drop_first());
            assert(Multiset::<T>::empty().add(segs_ms(self.segs@)) =~= segs_ms(self.segs@));
            assert forall|i1: int, j1: int, i2: int, j2: int|
                0 <= i1 < i2 < self.stamps@.len() && 0 <= j1 < self.stamps@[i1].len() && 0 <= j2
                    < self.stamps@[i2].len() && (#[trigger] self.stamps@[i1][j1]) is Some && (
                #[trigger] self.stamps@[i2][j2]) is Some implies self.stamps@[i1][j1]->Some_0
                < self.stamps@[i2][j2]->Some_0 by {
                assert(self.stamps@[i1] == old(self).stamps@[i1 + 1]);
                assert(self.stamps@[i2] == old(self).stamps@[i2 + 1]);
            }
        }
    }

    /// The commit protocol that resolves the race between a slot write and a
    /// concurrent head advance: a vanished payload was already dequeued, a
    /// deleted tail demands a rollback, and a head equal to the tail is
    /// re-observed with a stabilizing exchange. A live owned queue never has
    /// a deleted segment linked, so the write always commits.
    fn commit(&mut self, tail_idx: usize, index: usize) -> (r: bool)
        requires
            old(self).wf(),
            tail_idx < old(self).view_segs().len(),
            index < old(self).spec_k(),
        ensures
            *final(self) == *old(self),
            r,
    {
        if self.segs[tail_idx].data[index].is_none() {
            // someone already took the payload: treat as committed
            return true;
        }
        if self.segs[tail_idx].deleted {
            // the segment was unlinked meanwhile: roll the write back
            return false;
        }
        if tail_idx == 0 {
            // head == tail: the stabilizing re-observation finds it unmoved
            return true;
        }
        true
    }

    /// One enqueue attempt against the current tail: probe for an empty slot
    /// in the given order, publish the payload, and commit. Hands the payload
    /// back when the probed slots are all occupied.
    fn try_enqueue(&mut self, data: T, vals: &Vec<usize>) -> (r: Result<(), T>)
        requires
            old(self).wf(),
            forall|i: int| 0 <= i < vals@.len() ==> (#[trigger] vals@[i]) < old(self).spec_k(),
        ensures
            final(self).wf(),
            final(self).spec_k() == old(self).spec_k(),
            r is Ok ==> final(self).contents() == old(self).contents().insert(data)
                && final(self).next_stamp() == old(self).next_stamp() + 1,
            r matches Err(d) ==> d == data && final(self).contents() == old(self).contents()
                && final(self).view_segs() == old(self).view_segs() && final(self).next_stamp()
                == old(self).next_stamp() && forall|i: int|
                0 <= i < vals@.len() ==> old(self).view_segs().last().slots()[(
                #[trigger] vals@[i]) as int] is Some,
    {
        let ghost gdata = data;
        let tail_idx = self.segs.len() - 1;
        // publish the tail's identity in a hazard slot; the confirming
        // re-read of the concurrent design is discharged by ownership
        let tail_id = self.base_id.wrapping_add(tail_idx);
        self.manager.protect(tail_id, 0);
        match Self::find_empty_slot(&self.segs[tail_idx], vals) {
            Some(index) => {
                let ghost q0 = self.segs@;
                let seg = &mut self.segs[tail_idx];
                let ghost s0 = seg.slots();
                seg.data[index] = Some(data);
                proof {
                    lemma_slots_ms_fill(s0, index as int, gdata);
                    assert(self.segs@ =~= q0.update(tail_idx as int, self.segs@[tail_idx as int]));
                    assert(self.segs@.drop_last() =~= q0.drop_last());
                    lemma_segs_ms_last(q0);
                    lemma_segs_ms_last(self.segs@);
                    assert(segs_ms(q0.drop_last()).add(slots_ms(s0).insert(gdata)) =~= segs_ms(
                        q0.drop_last(),
                    ).add(slots_ms(s0)).insert(gdata));
                    // the payload's enqueue timestamp is the next one, taken
                    // fresh: later than everything already on record
                    let t = self.stamp_gen@;
                    self.stamps@ = self.stamps@.update(
                        tail_idx as int,
                        self.stamps@[tail_idx as int].update(index as int, Some(t)),
                    );
                    self.stamp_gen@ = t + 1;
                    assert forall|i1: int, j1: int, i2: int, j2: int|
                        0 <= i1 < i2 < self.stamps@.len() && 0 <= j1 < self.stamps@[i1].len() && 0
                            <= j2 < self.stamps@[i2].len() && (#[trigger] self.stamps@[i1][j1])
                            is Some && (#[trigger] self.stamps@[i2][j2]) is Some implies (
                        self.stamps@[i1][j1]->Some_0 < self.stamps@[i2][j2]->Some_0) by {
                        if i1 == tail_idx && j1 == index {
                            assert(i2 > tail_idx && i2 < self.stamps@.len());
                            assert(false);
                        } else {
                            assert(self.stamps@[i1][j1] == old(self).stamps@[i1][j1]);
                            if i2 == tail_idx && j2 == index {
                                assert(old(self).stamps@[i1][j1]->Some_0 < t);
                            } else {
                                assert(self.stamps@[i2][j2] == old(self).stamps@[i2][j2]);
                            }
                        }
                    }
                }
                let committed = self.commit(tail_idx, index);
                if committed {
                    Ok(())
                } else {
                    // rolled back: reinstate the empty sentinel and retry
                    let seg2 = &mut self.segs[tail_idx];
                    let it = seg2.data[index].take();
                    match it {
                        Some(d) => Err(d),
                        None => {
                            proof {
                                assert(false);
                            }
                            Err(vstd::pervasive::unreached())
                        },
                    }
                }
            },
            None => Err(data),
        }
    }

    /// Enqueues the payload. One retry suffices: an attempt only fails with
    /// every tail slot occupied, and advancing the tail installs a fresh
    /// empty segment.
    pub fn enqueue(&mut self, data: T)
        requires
            old(self).wf(),
        ensures
            final(self).wf(),
            final(self).spec_k() == old(self).spec_k(),
            final(self).contents() == old(self).contents().insert(data),
            final(self).next_stamp() == old(self).next_stamp() + 1,
    {
        let mut vals = Self::probe_order(self.k);
        let ghost base = vals@;
        shuffle_order(&mut vals);
        proof {
            assert forall|i: int| 0 <= i < vals@.len() implies (#[trigger] vals@[i])
                < self.spec_k() by {
                assert(vals@.to_multiset().contains(vals@[i]));
                assert(base.contains(vals@[i]));
            }
            assert(vals@.to_multiset().contains(0usize)) by {
                assert(base[0] == 0usize);
                assert(base.contains(0usize));
            }
        }
        match self.try_enqueue(data, &vals) {
            Ok(()) => {},
            Err(d) => {
                self.advance_tail();
                let ghost mid = *self;
                let r2 = self.try_enqueue(d, &vals);
                proof {
                    if r2 is Err {
                        let i = choose|i: int| 0 <= i < vals@.len() && vals@[i] == 0usize;
                        assert(mid.view_segs().last().slots()[vals@[i] as int] is Some);
                        assert(false);
                    }
                }
                match r2 {
                    Ok(()) => {},
                    Err(_) => {
                        proof {
                            assert(false);
                        }
                    },
                }
            },
        }
    }

    /// One dequeue attempt against the current head: probe for a payload in
    /// the given order and take it, reinstating the empty sentinel. An empty
    /// head with a successor is unlinked and the attempt reports a retry; an
    /// empty head without one means the queue is empty.
    fn try_dequeue(&mut self, vals: &Vec<usize>) -> (r: Result<Option<T>, ()>)
        requires
            old(self).wf(),
            forall|i: int| 0 <= i < vals@.len() ==> (#[trigger] vals@[i]) < old(self).spec_k(),
            forall|j: usize| j < old(self).spec_k() ==> vals@.contains(j),
        ensures
            final(self).wf(),
            final(self).spec_k() == old(self).spec_k(),
            r matches Ok(Some(v)) ==> old(self).contents() == final(self).contents().insert(v)
                && slots_ms(old(self).view_segs()[0].slots()).contains(v),
            r == Ok::<Option<T>, ()>(None) ==> old(self).contents() == Multiset::<T>::empty()
                && final(self).contents() == Multiset::<T>::empty(),
            r is Err ==> final(self).contents() == old(self).contents() && final(self).view_segs()
                == old(self).view_segs().drop_first() && slots_ms(
                old(self).view_segs()[0].slots(),
            ) == Multiset::<T>::empty(),
            final(self).next_stamp() == old(self).next_stamp(),
    {
        // publish the head's identity in a hazard slot; the confirming
        // re-read of the concurrent design is discharged by ownership
        self.manager.protect(self.base_id, 0);
        match Self::find_item(&self.segs[0], vals) {
            Some(index) => {
                if self.segs.len() == 1 {
                    // head == tail: nudge the tail forward before taking
                    self.advance_tail();
                }
                let ghost qmid = self.segs@;
                let ghost rows_mid = self.stamps@;
                let seg = &mut self.segs[0];
                let ghost s0 = seg.slots();
                let item = seg.data[index].take();
                proof {
                    assert(self.segs@ =~= qmid.update(0, self.segs@[0]));
                    assert(self.segs@.drop_first() =~= qmid.drop_first());
                    // the taken payload's timestamp leaves with it
                    self.stamps@ = self.stamps@.update(
                        0,
                        self.stamps@[0].update(index as int, None),
                    );
                    assert(rows_ordered(rows_mid));
                    assert forall|i1: int, j1: int, i2: int, j2: int|
                        0 <= i1 < i2 < self.stamps@.len() && 0 <= j1 < self.stamps@[i1].len() && 0
                            <= j2 < self.stamps@[i2].len() && (#[trigger] self.stamps@[i1][j1])
                            is Some && (#[trigger] self.stamps@[i2][j2]) is Some implies (
                        self.stamps@[i1][j1]->Some_0 < self.stamps@[i2][j2]->Some_0) by {
                        assert(!(i1 == 0 && j1 == index));
                        assert(self.stamps@[i1][j1] == rows_mid[i1][j1]);
                        assert(self.stamps@[i2][j2] == rows_mid[i2][j2]);
                    }
                }
                match item {
                    Some(v) => {
                        proof {
                            lemma_slots_ms_take(s0, index as int, v);
                            assert(old(self).contents() == segs_ms(qmid));
                            assert(segs_ms(qmid) == slots_ms(s0).add(segs_ms(qmid.drop_first())));
                            assert(self.segs@[0].slots() == s0.update(index as int, None));
                            assert(segs_ms(self.segs@) == slots_ms(
                                s0.update(index as int, None),
                            ).add(segs_ms(qmid.drop_first())));
                            assert(slots_ms(
                                s0.update(index as int, None),
                            ).insert(v).add(segs_ms(qmid.drop_first())) =~= slots_ms(
                                s0.update(index as int, None),
                            ).add(segs_ms(qmid.drop_first())).insert(v));
                            assert(slots_ms(s0).contains(v));
                            assert(old(self).view_segs()[0].slots() == s0);
                            assert(old(self).contents() == segs_ms(self.segs@).insert(v));
                            assert(old(self).contents() == self.contents().insert(v));
                            assert(slots_ms(old(self).view_segs()[0].slots()).contains(v));
                        }
                        Ok(Some(v))
                    },
                    None => {
                        proof {
                            assert(false);
                        }
                        Ok(None)
                    },
                }
            },
            None => {
                proof {
                    let ghost head0 = self.segs@[0];
                    assert forall|j: int| 0 <= j < head0.slots().len() implies head0.slots()[j]
                        is None by {
                        assert(vals@.contains(j as usize));
                        let i = choose|i: int| 0 <= i < vals@.len() && vals@[i] == j as usize;
                        assert(self.segs@[0].slots()[vals@[i] as int] is None);
                    }
                    lemma_slots_ms_all_none(self.segs@[0].slots());
                }
                if self.segs.len() == 1 {
                    // a single segment with no successor: the queue is empty
                    proof {
                        assert(self.segs@.drop_first() =~= Seq::<Segment<T>>::empty());
                        assert(segs_ms(Seq::<Segment<T>>::empty()) == Multiset::<T>::empty());
                        assert(segs_ms(self.segs@) == slots_ms(self.segs@[0].slots()).add(
                            Multiset::<T>::empty(),
                        ));
                        assert(Multiset::<T>::empty().add(Multiset::<T>::empty())
                            =~= Multiset::<T>::empty());
                    }
                    Ok(None)
                } else {
                    self.advance_head();
                    proof {
                        assert(Multiset::<T>::empty().add(segs_ms(old(self).segs@.drop_first()))
                            =~= segs_ms(old(self).segs@.drop_first()));
                    }
                    Err(())
                }
            },
        }
    }

    /// Dequeues a payload, or reports the queue empty. The value handed back
    /// was taken from the frontmost non-empty segment; the retry after an
    /// unlink shortens the segment row, so the loop terminates.
    pub fn dequeue(&mut self) -> (r: Option<T>)
        requires
            old(self).wf(),
        ensures
            final(self).wf(),
            final(self).spec_k() == old(self).spec_k(),
            r matches Some(v) ==> old(self).contents() == final(self).contents().insert(v),
            r is None ==> old(self).contents() == Multiset::<T>::empty() && final(self).contents()
                == Multiset::<T>::empty(),
            r matches Some(v) ==> exists|j: int|
                0 <= j < old(self).view_segs().len() && slots_ms(
                    #[trigger] old(self).view_segs()[j].slots(),
                ).contains(v) && (forall|i: int|
                    0 <= i < j ==> slots_ms(old(self).view_segs()[i].slots())
                        == Multiset::<T>::empty()),
            final(self).next_stamp() == old(self).next_stamp(),
        decreases old(self).view_segs().len(),
    {
        let mut vals = Self::probe_order(self.k);
        let ghost base = vals@;
        shuffle_order(&mut vals);
        proof {
            assert forall|i: int| 0 <= i < vals@.len() implies (#[trigger] vals@[i])
                < self.spec_k() by {
                assert(vals@.to_multiset().contains(vals@[i]));
                assert(base.contains(vals@[i]));
            }
            assert forall|j: usize| j < self.spec_k() implies vals@.contains(j) by {
                assert(base[j as int] == j);
                assert(base.contains(j));
                assert(vals@.to_multiset().contains(j));
            }
        }
        match self.try_dequeue(&vals) {
            Ok(res) => {
                proof {
                    if res is Some {
                        let v = res->Some_0;
                        assert(0 <= 0 < old(self).view_segs().len() && slots_ms(
                            old(self).view_segs()[0].slots(),
                        ).contains(v));
                    }
                }
                res
            },
            Err(()) => {
                let ghost mid = *self;
                let r = self.dequeue();
                proof {
                    if r is Some {
                        let v = r->Some_0;
                        let j2 = choose|j: int|
                            0 <= j < mid.view_segs().len() && slots_ms(
                                #[trigger] mid.view_segs()[j].slots(),
                            ).contains(v) && (forall|i: int|
                                0 <= i < j ==> slots_ms(mid.view_segs()[i].slots())
                                    == Multiset::<T>::empty());
                        assert(old(self).view_segs()[j2 + 1] == mid.view_segs()[j2]);
                        assert forall|i: int| 0 <= i < j2 + 1 implies slots_ms(
                            old(self).view_segs()[i].slots(),
                        ) == Multiset::<T>::empty() by {
                            if i > 0 {
                                assert(old(self).view_segs()[i] == mid.view_segs()[i - 1]);
                            }
                        }
                        assert(0 <= j2 + 1 < old(self).view_segs().len() && slots_ms(
                            old(self).view_segs()[j2 + 1].slots(),
                        ).contains(v));
                    }
                }
                r
            },
        }
    }
}

/// A payload occupying a slot is among the segment's contents.
pub proof fn lemma_slots_ms_member<T>(s: Seq<Option<T>>, j: int)
    requires
        0 <= j < s.len(),
        s[j] is Some,
    ensures
        slots_ms(s).contains(s[j]->Some_0),
    decreases s.len(),
{
    if j > 0 {
        lemma_slots_ms_member(s.drop_first(), j - 1);
    }
}

/// A payload among the segment's contents occupies some slot.
pub proof fn lemma_slots_ms_witness<T>(s: Seq<Option<T>>, v: T)
    requires
        slots_ms(s).contains(v),
    ensures
        exists|j: int| 0 <= j < s.len() && s[j] == Some(v),
    decreases s.len(),
{
    if s.len() == 0 {
        assert(false);
    } else if s[0] == Some(v) {
        assert(0 <= 0 < s.len() && s[0] == Some(v));
    } else {
        lemma_slots_ms_witness(s.drop_first(), v);
        let j2 = choose|j: int| 0 <= j < s.drop_first().len() && s.drop_first()[j] == Some(v);
        assert(s[j2 + 1] == Some(v));
    }
}

/// The k-relaxed FIFO bound: a dequeue takes a payload out of the frontmost
/// non-empty segment — say slot `jslot` of segment `jseg`. That payload's
/// enqueue timestamp precedes the timestamp of every payload in any other
/// segment, so every still-queued payload enqueued strictly before it sits
/// in its own segment; and that segment holds at most k payloads, so at most
/// k - 1 payloads enqueued before it had not yet been dequeued.
pub proof fn lemma_k_relaxed_fifo<T>(q: SegQueueOld<T>, jseg: int, jslot: int)
    requires
        q.wf(),
        0 <= jseg < q.view_segs().len(),
        0 <= jslot < q.spec_k(),
        q.view_segs()[jseg].slots()[jslot] is Some,
        forall|i: int|
            0 <= i < jseg ==> slots_ms(#[trigger] q.view_segs()[i].slots())
                == Multiset::<T>::empty(),
    ensures
        q.stamp_rows()[jseg][jslot] is Some,
        forall|i: int, j: int|
            0 <= i < q.stamp_rows().len() && 0 <= j < q.spec_k() && i != jseg && (
            #[trigger] q.stamp_rows()[i][j]) is Some ==> q.stamp_rows()[jseg][jslot]->Some_0
                < q.stamp_rows()[i][j]->Some_0,
        slots_ms(q.view_segs()[jseg].slots()).len() <= q.spec_k(),
{
    broadcast use vstd::multiset::group_multiset_axioms;

    lemma_slots_ms_len(q.view_segs()[jseg].slots());
    assert forall|i: int, j: int|
        0 <= i < q.stamp_rows().len() && 0 <= j < q.spec_k() && i != jseg && (
        #[trigger] q.stamp_rows()[i][j]) is Some implies q.stamp_rows()[jseg][jslot]->Some_0
        < q.stamp_rows()[i][j]->Some_0 by {
        if i < jseg {
            assert(q.view_segs()[i].slots()[j] is Some);
            lemma_slots_ms_member(q.view_segs()[i].slots(), j);
            assert(false);
        }
    }
}

/// Relies on rand's `SliceRandom::shuffle`: permutes the probe order in
/// place, so the elements — and their number — are preserved.
#[verifier::external_body]
fn shuffle_order(vals: &mut Vec<usize>)
    ensures
        final(vals)@.len() == old(vals)@.len(),
        final(vals)@.to_multiset() == old(vals)@.to_multiset(),
{
    vals.shuffle(&mut rand::rng());
}

} // verus!
