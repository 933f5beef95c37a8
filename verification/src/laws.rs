//! The laws the containers obey, stated over the public contracts and
//! checked end to end: each function here performs the quantified scenario on
//! arbitrary inputs, and its assertions hold for every choice of them.

use vstd::multiset::Multiset;
use vstd::prelude::*;

use crate::hash_map::HashMap;
use crate::seg_queue::{
    lemma_k_relaxed_fifo, lemma_slots_ms_witness, slots_ms, SegQueueOld,
};

verus! {

broadcast use vstd::multiset::group_multiset_axioms;

/// Map idempotence: for any map and any key it does not hold, inserting a
/// value succeeds, a lookup then yields exactly that value, and a second
/// insert of the same key — whatever the value — is refused with the pair
/// handed back.
pub fn law_map_idempotence<V: Copy>(m: &mut HashMap<V>, k: u64, v: V, v2: V)
    requires
        old(m).wf(),
        old(m).spec_get(k) is None,
    ensures
        final(m).wf(),
        final(m).spec_get(k) == Some(v),
{
    let r1 = m.insert(k, v);
    assert(r1 is Ok);
    let g = m.get(k);
    assert(g == Some(v));
    let r2 = m.insert(k, v2);
    assert(r2 == Err::<(), (u64, V)>((k, v2)));
    let g2 = m.get(k);
    assert(g2 == Some(v));
}

/// Removal releases the key: after removing an inserted key, a lookup yields
/// nothing and a fresh insert of the same key succeeds.
pub fn law_map_remove_reinsert<V: Copy>(m: &mut HashMap<V>, k: u64, v: V, v2: V)
    requires
        old(m).wf(),
        old(m).spec_get(k) is None,
    ensures
        final(m).wf(),
        final(m).spec_get(k) == Some(v2),
{
    let r1 = m.insert(k, v);
    assert(r1 is Ok);
    let taken = m.remove(k);
    assert(taken == Some(v));
    let g = m.get(k);
    assert(g is None);
    let r2 = m.insert(k, v2);
    assert(r2 is Ok);
    let g2 = m.get(k);
    assert(g2 == Some(v2));
}

/// No loss across distinct keys: inserts under different keys do not disturb
/// one another, and each key reads back its own value.
pub fn law_map_no_loss<V: Copy>(m: &mut HashMap<V>, k1: u64, v1: V, k2: u64, v2: V)
    requires
        old(m).wf(),
        k1 != k2,
        old(m).spec_get(k1) is None,
        old(m).spec_get(k2) is None,
    ensures
        final(m).wf(),
        final(m).spec_get(k1) == Some(v1),
        final(m).spec_get(k2) == Some(v2),
{
    let r1 = m.insert(k1, v1);
    assert(r1 is Ok);
    let r2 = m.insert(k2, v2);
    assert(r2 is Ok);
    let g1 = m.get(k1);
    assert(g1 == Some(v1));
    let g2 = m.get(k2);
    assert(g2 == Some(v2));
}

/// Queue conservation: whatever the queue already holds, an enqueue adds
/// exactly its payload, a dequeue then succeeds and removes exactly the value
/// it hands back — the enqueued and dequeued multisets balance against the
/// queue's contents.
pub fn law_queue_conservation<T>(q: &mut SegQueueOld<T>, a: T)
    requires
        old(q).wf(),
    ensures
        final(q).wf(),
        exists|v: T|
            old(q).contents().insert(a) == final(q).contents().insert(v)
                && old(q).contents().insert(a).contains(v),
{
    let ghost c0 = q.contents();
    q.enqueue(a);
    assert(q.contents() == c0.insert(a));
    let r = q.dequeue();
    proof {
        if r is None {
            assert(c0.insert(a).count(a) > 0);
            assert(false);
        }
        let v = r->Some_0;
        assert(c0.insert(a) == q.contents().insert(v));
        assert(c0.insert(a).count(v) > 0);
    }
}

/// k-relaxed FIFO, end to end: a successful dequeue took its value from a
/// slot of the frontmost non-empty segment. That payload's enqueue timestamp
/// precedes the timestamp of every payload in any other segment, and its
/// segment held at most k payloads — so at most k - 1 payloads enqueued
/// strictly before it were still waiting when it was taken.
pub fn law_k_relaxed_dequeue<T>(q: &mut SegQueueOld<T>) -> (r: Option<T>)
    requires
        old(q).wf(),
    ensures
        final(q).wf(),
        r matches Some(v) ==> exists|jseg: int, jslot: int|
            0 <= jseg < old(q).view_segs().len() && 0 <= jslot < old(q).spec_k() && (
            #[trigger] old(q).view_segs()[jseg].slots()[jslot]) == Some(v) && old(
                q,
            ).stamp_rows()[jseg][jslot] is Some && slots_ms(old(q).view_segs()[jseg].slots()).len()
                <= old(q).spec_k() && (forall|i: int, j: int|
                0 <= i < old(q).stamp_rows().len() && 0 <= j < old(q).spec_k() && i != jseg && (
                #[trigger] old(q).stamp_rows()[i][j]) is Some ==> old(
                    q,
                ).stamp_rows()[jseg][jslot]->Some_0 < old(q).stamp_rows()[i][j]->Some_0),
{
    let ghost q0 = *q;
    let r = q.dequeue();
    proof {
        if r is Some {
            let v = r->Some_0;
            let jseg = choose|j: int|
                0 <= j < q0.view_segs().len() && slots_ms(
                    #[trigger] q0.view_segs()[j].slots(),
                ).contains(v) && (forall|i: int|
                    0 <= i < j ==> slots_ms(q0.view_segs()[i].slots()) == Multiset::<T>::empty());
            lemma_slots_ms_witness(q0.view_segs()[jseg].slots(), v);
            let jslot = choose|j: int|
                0 <= j < q0.view_segs()[jseg].slots().len() && q0.view_segs()[jseg].slots()[j]
                    == Some(v);
            lemma_k_relaxed_fifo(q0, jseg, jslot);
            assert(0 <= jseg < q0.view_segs().len() && 0 <= jslot < q0.spec_k() && (
            q0.view_segs()[jseg].slots()[jslot]) == Some(v) && q0.stamp_rows()[jseg][jslot]
                is Some && slots_ms(q0.view_segs()[jseg].slots()).len() <= q0.spec_k());
        }
    }
    r
}

} // verus!
