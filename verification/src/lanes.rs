//! Per-thread event lists and the nesting depth of each event within its
//! thread.
use crate::data::{event_end, sat_add, EventId, TimelineEvent};
use crate::sort::{sort_triples, triple_le};
use std::collections::HashMap;
use vstd::prelude::*;

verus! {

broadcast use vstd::std_specs::hash::group_hash_axioms, vstd::seq_lib::group_to_multiset_ensures;

/// The ids of the first `n` events that belong to thread `tid`, in table
/// order.
pub open spec fn thread_ids_of(events: Seq<TimelineEvent>, tid: u32, n: nat) -> Seq<EventId>
    decreases n,
{
    if n == 0 {
        Seq::empty()
    } else {
        let rest = thread_ids_of(events, tid, (n - 1) as nat);
        if events[n - 1].thread_id == tid {
            rest.push(EventId((n - 1) as u32))
        } else {
            rest
        }
    }
}

/// The per-thread index of an event table: one entry per thread that has
/// events, ordered by thread id, each listing its events in table order.
pub open spec fn is_threads_index(events: Seq<TimelineEvent>, index: Seq<(u32, Seq<EventId>)>) -> bool {
    &&& forall|k: int, j: int| 0 <= k < j < index.len() ==> index[k].0 < index[j].0
    &&& forall|k: int|
        0 <= k < index.len() ==> (#[trigger] index[k]).1 == thread_ids_of(events, index[k].0, events.len())
    &&& forall|k: int| 0 <= k < index.len() ==> (#[trigger] index[k]).1.len() > 0
    &&& forall|i: int| 0 <= i < events.len() ==> has_thread(index, (#[trigger] events[i]).thread_id)
}

/// Some entry of the index is for thread `tid`.
pub open spec fn has_thread(index: Seq<(u32, Seq<EventId>)>, tid: u32) -> bool {
    exists|k: int| 0 <= k < index.len() && (#[trigger] index[k]).0 == tid
}

/// The per-thread lists as plain sequences.
pub open spec fn index_view(index: Seq<(u32, Vec<EventId>)>) -> Seq<(u32, Seq<EventId>)> {
    index.map_values(|x: (u32, Vec<EventId>)| (x.0, x.1@))
}

pub(crate) proof fn lemma_thread_ids_props(events: Seq<TimelineEvent>, tid: u32, n: nat)
    requires
        n <= events.len(),
        n <= 0x1_0000_0000,
    ensures
        forall|p: int|
            0 <= p < thread_ids_of(events, tid, n).len() ==> {
                &&& (#[trigger] thread_ids_of(events, tid, n)[p]).0 < n
                &&& events[thread_ids_of(events, tid, n)[p].0 as int].thread_id == tid
            },
        forall|p: int, q: int|
            0 <= p < q < thread_ids_of(events, tid, n).len() ==> (#[trigger] thread_ids_of(
                events,
                tid,
                n,
            )[p]).0 < (#[trigger] thread_ids_of(events, tid, n)[q]).0,
    decreases n,
{
    if n > 0 {
        lemma_thread_ids_props(events, tid, (n - 1) as nat);
    }
}

/// The thread ids of some events.
pub open spec fn event_thread_ids(events: Seq<TimelineEvent>) -> Set<u32> {
    events.map_values(|e: TimelineEvent| e.thread_id).to_set()
}

/// A threads index has one entry per distinct thread id of its events.
pub(crate) proof fn lemma_index_counts_threads(events: Seq<TimelineEvent>, index: Seq<(u32, Seq<EventId>)>)
    requires
        is_threads_index(events, index),
        events.len() <= 0x1_0000_0000,
    ensures
        index.len() == event_thread_ids(events).len(),
{
    let tids = index.map_values(|x: (u32, Seq<EventId>)| x.0);
    let all = events.map_values(|e: TimelineEvent| e.thread_id);
    assert(tids.no_duplicates()) by {
        assert forall|a: int, b: int| 0 <= a < tids.len() && 0 <= b < tids.len() && a != b implies tids[a]
            != tids[b] by {
            if a < b {
                assert(index[a].0 < index[b].0);
            } else {
                assert(index[b].0 < index[a].0);
            }
        }
    }
    assert(tids.to_set() =~= all.to_set()) by {
        assert forall|t: u32| tids.to_set().contains(t) implies all.to_set().contains(t) by {
            let k = choose|k: int| 0 <= k < tids.len() && tids[k] == t;
            lemma_thread_ids_props(events, t, events.len());
            assert(index[k].1.len() > 0);
            let i = index[k].1[0].0 as int;
            assert(events[i].thread_id == t);
            assert(all[i] == t);
        }
        assert forall|t: u32| all.to_set().contains(t) implies tids.to_set().contains(t) by {
            let i = choose|i: int| 0 <= i < all.len() && all[i] == t;
            assert(has_thread(index, events[i].thread_id));
            let k = choose|k: int| 0 <= k < index.len() && (#[trigger] index[k]).0 == events[i].thread_id;
            assert(tids[k] == t);
        }
    }
    tids.unique_seq_to_set();
}

fn copy_ids(v: &Vec<EventId>) -> (r: Vec<EventId>)
    ensures
        r@ == v@,
{
    let mut r: Vec<EventId> = Vec::new();
    let mut k: usize = 0;
    while k < v.len()
        invariant
            k <= v@.len(),
            r@ == v@.take(k as int),
        decreases v@.len() - k,
    {
        r.push(v[k]);
        assert(v@.take(k + 1) =~= v@.take(k as int).push(v@[k as int]));
        k = k + 1;
    }
    assert(v@.take(v@.len() as int) =~= v@);
    r
}

/// Groups the events by thread: for each thread, the ids of its events in
/// table order. The entries are ordered by thread id.
pub fn build_threads_index(events: &Vec<TimelineEvent>) -> (r: Vec<(u32, Vec<EventId>)>)
    requires
        events@.len() <= 0x1_0000_0000,
    ensures
        is_threads_index(events@, index_view(r@)),
        r@.len() <= events@.len(),
        forall|k: int| 0 <= k < r@.len() ==> (#[trigger] r@[k]).1@.len() <= events@.len(),
        forall|k: int| 0 <= k < r@.len() ==> crate::data::ids_in_range(events@, (#[trigger] r@[k]).1@),
{
    // First-appearance order, with a map from thread id to slot.
    let mut slot_of: HashMap<u32, usize> = HashMap::new();
    let mut slots: Vec<(u32, Vec<EventId>)> = Vec::new();
    let mut i: usize = 0;
    while i < events.len()
        invariant
            i <= events@.len(),
            events@.len() <= 0x1_0000_0000,
            forall|k: int| 0 <= k < slots@.len() ==> #[trigger] slot_of@.contains_key(slots@[k].0),
            forall|k: int| 0 <= k < slots@.len() ==> slot_of@[(#[trigger] slots@[k]).0] == k,
            forall|k: int|
                0 <= k < slots@.len() ==> (#[trigger] slots@[k]).1@ == thread_ids_of(events@, slots@[k].0, i as nat),
            forall|k: int| 0 <= k < slots@.len() ==> (#[trigger] slots@[k]).1@.len() > 0,
            forall|t: u32|
                #[trigger] slot_of@.contains_key(t) ==> {
                    &&& slot_of@[t] < slots@.len()
                    &&& slots@[slot_of@[t] as int].0 == t
                },
            forall|t: u32|
                !(#[trigger] slot_of@.contains_key(t)) ==> thread_ids_of(events@, t, i as nat)
                    == Seq::<EventId>::empty(),
            forall|j: int| 0 <= j < i ==> slot_of@.contains_key((#[trigger] events@[j]).thread_id),
            slots@.len() <= i,
        decreases events@.len() - i,
    {
        let tid = events[i].thread_id;
        let id = EventId(i as u32);
        proof {
            assert forall|t: u32| #[trigger] thread_ids_of(events@, t, (i + 1) as nat) == if t == tid {
                thread_ids_of(events@, t, i as nat).push(id)
            } else {
                thread_ids_of(events@, t, i as nat)
            } by {}
        }
        let ghost old_slots = slots@;
        let ghost old_map = slot_of@;
        match slot_of.get(&tid) {
            Some(k) => {
                let k = *k;
                proof {
                    assert(old_map.contains_key(tid));
                    assert(old_map[tid] == k);
                    assert(slots@[k as int].0 == tid);
                }
                slots[k].1.push(id);
            },
            None => {
                proof {
                    assert(!old_map.contains_key(tid));
                    assert(thread_ids_of(events@, tid, i as nat) == Seq::<EventId>::empty());
                }
                let mut ids: Vec<EventId> = Vec::new();
                ids.push(id);
                let n = slots.len();
                slots.push((tid, ids));
                slot_of.insert(tid, n);
                proof {
                    assert(slots@[n as int].1@ =~= Seq::<EventId>::empty().push(id));
                }
            },
        }
        proof {
            assert forall|t: u32| #[trigger] slot_of@.contains_key(t) implies {
                &&& slot_of@[t] < slots@.len()
                &&& slots@[slot_of@[t] as int].0 == t
            } by {}
            assert forall|k: int| 0 <= k < slots@.len() implies {
                &&& #[trigger] slot_of@.contains_key(slots@[k].0)
                &&& slot_of@[slots@[k].0] == k
                &&& slots@[k].1@ == thread_ids_of(events@, slots@[k].0, (i + 1) as nat)
                &&& slots@[k].1@.len() > 0
            } by {
                assert(thread_ids_of(events@, slots@[k].0, (i + 1) as nat) == if slots@[k].0 == tid {
                    thread_ids_of(events@, slots@[k].0, i as nat).push(id)
                } else {
                    thread_ids_of(events@, slots@[k].0, i as nat)
                });
                if k < old_slots.len() {
                    assert(old_map.contains_key(old_slots[k].0));
                    assert(old_map[old_slots[k].0] == k);
                    assert(slots@[k].0 == old_slots[k].0);
                }
            }
            assert forall|t: u32| !(#[trigger] slot_of@.contains_key(t)) implies thread_ids_of(
                events@,
                t,
                (i + 1) as nat,
            ) == Seq::<EventId>::empty() by {
                assert(thread_ids_of(events@, t, (i + 1) as nat) == if t == tid {
                    thread_ids_of(events@, t, i as nat).push(id)
                } else {
                    thread_ids_of(events@, t, i as nat)
                });
            }
            assert forall|j: int| 0 <= j < i + 1 implies slot_of@.contains_key(
                (#[trigger] events@[j]).thread_id,
            ) by {}
        }
        i = i + 1;
    }
    // Order the threads by id.
    let mut keys: Vec<(u64, u64, u64)> = Vec::new();
    let mut k: usize = 0;
    while k < slots.len()
        invariant
            k <= slots@.len(),
            keys@.len() == k,
            forall|j: int| 0 <= j < k ==> #[trigger] keys@[j] == (slots@[j].0 as u64, 0u64, 0u64),
            forall|j: int|
                0 <= j < slots@.len() ==> {
                    &&& #[trigger] slot_of@.contains_key(slots@[j].0)
                    &&& slot_of@[slots@[j].0] == j
                    &&& slots@[j].1@ == thread_ids_of(events@, slots@[j].0, events@.len())
                    &&& slots@[j].1@.len() > 0
                },
            forall|j: int| 0 <= j < events@.len() ==> slot_of@.contains_key((#[trigger] events@[j]).thread_id),
            forall|t: u32|
                #[trigger] slot_of@.contains_key(t) ==> {
                    &&& slot_of@[t] < slots@.len()
                    &&& slots@[slot_of@[t] as int].0 == t
                },
        decreases slots@.len() - k,
    {
        keys.push((slots[k].0 as u64, 0, 0));
        k = k + 1;
    }
    assert(slots@.len() <= events@.len());
    proof {
        assert(keys@.no_duplicates()) by {
            assert forall|a: int, b: int| 0 <= a < keys@.len() && 0 <= b < keys@.len() && a != b implies keys@[a]
                != keys@[b] by {
                if slots@[a].0 == slots@[b].0 {
                    assert(slot_of@.contains_key(slots@[a].0));
                    assert(slot_of@.contains_key(slots@[b].0));
                    assert(slot_of@[slots@[a].0] == a);
                }
            }
        }
        keys@.lemma_multiset_has_no_duplicates();
    }
    let sorted = sort_triples(&keys);
    proof {
        sorted@.lemma_multiset_has_no_duplicates_conv();
    }
    let mut out: Vec<(u32, Vec<EventId>)> = Vec::new();
    let mut m: usize = 0;
    while m < sorted.len()
        invariant
            m <= sorted@.len(),
            sorted@.len() == slots@.len(),
            keys@.len() == slots@.len(),
            sorted@.no_duplicates(),
            forall|j: int| 0 <= j < events@.len() ==> slot_of@.contains_key((#[trigger] events@[j]).thread_id),
            forall|t: u32|
                #[trigger] slot_of@.contains_key(t) ==> {
                    &&& slot_of@[t] < slots@.len()
                    &&& slots@[slot_of@[t] as int].0 == t
                },
            sorted@.to_multiset() == keys@.to_multiset(),
            crate::sort::sorted_by(sorted@, |a: (u64, u64, u64), b: (u64, u64, u64)| triple_le(a, b)),
            forall|j: int| 0 <= j < keys@.len() ==> #[trigger] keys@[j] == (slots@[j].0 as u64, 0u64, 0u64),
            forall|k: int|
                0 <= k < slots@.len() ==> {
                    &&& #[trigger] slot_of@.contains_key(slots@[k].0)
                    &&& slot_of@[slots@[k].0] == k
                    &&& slots@[k].1@ == thread_ids_of(events@, slots@[k].0, events@.len())
                    &&& slots@[k].1@.len() > 0
                },
            out@.len() == m,
            forall|p: int|
                0 <= p < m ==> {
                    &&& (#[trigger] out@[p]).0 as u64 == sorted@[p].0
                    &&& out@[p].1@ == thread_ids_of(events@, out@[p].0, events@.len())
                    &&& out@[p].1@.len() > 0
                },
            slots@.len() <= events@.len(),
        decreases sorted@.len() - m,
    {
        let t = sorted[m];
        proof {
            vstd::seq_lib::to_multiset_contains(sorted@, t);
            vstd::seq_lib::to_multiset_contains(keys@, t);
        }
        let ghost j = choose|j: int| 0 <= j < keys@.len() && keys@[j] == t;
        let tid = t.0 as u32;
        assert(tid == slots@[j].0);
        assert(slot_of@.contains_key(slots@[j].0));
        let k = *slot_of.get(&tid).unwrap();
        let ids = copy_ids(&slots[k].1);
        out.push((tid, ids));
        m = m + 1;
    }
    proof {
        let iv = index_view(out@);
        assert forall|a: int, b: int| 0 <= a < b < iv.len() implies iv[a].0 < iv[b].0 by {
            let le = |x: (u64, u64, u64), y: (u64, u64, u64)| triple_le(x, y);
            assert(le(sorted@[a], sorted@[b]));
            assert(sorted@[a] != sorted@[b]);
            vstd::seq_lib::to_multiset_contains(sorted@, sorted@[a]);
            vstd::seq_lib::to_multiset_contains(keys@, sorted@[a]);
            vstd::seq_lib::to_multiset_contains(sorted@, sorted@[b]);
            vstd::seq_lib::to_multiset_contains(keys@, sorted@[b]);
            let ja = choose|j: int| 0 <= j < keys@.len() && keys@[j] == sorted@[a];
            let jb = choose|j: int| 0 <= j < keys@.len() && keys@[j] == sorted@[b];
        }
        assert forall|i: int| 0 <= i < events@.len() implies has_thread(iv, (#[trigger] events@[i]).thread_id) by {
            let tid = events@[i].thread_id;
            let k = slot_of@[tid] as int;
            let key = keys@[k];
            vstd::seq_lib::to_multiset_contains(keys@, key);
            vstd::seq_lib::to_multiset_contains(sorted@, key);
            let p = choose|p: int| 0 <= p < sorted@.len() && sorted@[p] == key;
            assert(out@[p].0 as u64 == sorted@[p].0);
            assert(slots@[k].0 == tid);
            assert(iv[p].0 == out@[p].0);
            assert(iv[p].0 == events@[i].thread_id);
        }
    }
    proof {
        assert forall|k: int| 0 <= k < out@.len() implies (#[trigger] out@[k]).1@.len() <= events@.len() by {
            let iv = index_view(out@);
            assert(iv[k] == (out@[k].0, out@[k].1@));
            lemma_thread_ids_len(events@, out@[k].0, events@.len());
        }
        assert forall|k: int| 0 <= k < out@.len() implies crate::data::ids_in_range(events@, (#[trigger] out@[k]).1@) by {
            let iv = index_view(out@);
            assert(iv[k] == (out@[k].0, out@[k].1@));
            lemma_thread_ids_props(events@, out@[k].0, events@.len());
        }
    }
    out
}


// ---------------------------------------------------------------------------
// Nesting depths
// ---------------------------------------------------------------------------

/// The sort key of an event for depth assignment: by start, then longer
/// events first, then by id.
pub open spec fn depth_key(events: Seq<TimelineEvent>, id: EventId) -> (u64, u64, u64) {
    let e = events[id.0 as int];
    (e.start_ns, (u64::MAX - event_end(e)) as u64, id.0 as u64)
}

pub open spec fn keyed_for_depth(events: Seq<TimelineEvent>, ids: Seq<EventId>) -> Seq<(u64, u64, u64)> {
    ids.map_values(|id: EventId| depth_key(events, id))
}

/// The order in which a thread's events are visited to assign depths: by
/// start time; among events that start together, longer events first (so
/// that parents come before their children); then by id.
pub open spec fn depth_order(events: Seq<TimelineEvent>, ids: Seq<EventId>) -> Seq<EventId> {
    keyed_for_depth(events, ids).sort_by(|a: (u64, u64, u64), b: (u64, u64, u64)| triple_le(a, b)).map_values(
        |t: (u64, u64, u64)| EventId(t.2 as u32),
    )
}

/// The stack of open end times once the entries that ended by `start` are
/// popped from its top.
pub open spec fn pop_finished(stack: Seq<u64>, start: u64) -> Seq<u64>
    decreases stack.len(),
{
    if stack.len() > 0 && stack.last() <= start {
        pop_finished(stack.drop_last(), start)
    } else {
        stack
    }
}

/// The stack of open end times after visiting the events of `order`.
pub open spec fn stack_after(events: Seq<TimelineEvent>, order: Seq<EventId>) -> Seq<u64>
    decreases order.len(),
{
    if order.len() == 0 {
        Seq::empty()
    } else {
        let e = events[order.last().0 as int];
        pop_finished(stack_after(events, order.drop_last()), e.start_ns).push(event_end(e))
    }
}

/// The depth of the `p`-th event of `order`: the number of earlier events
/// still open when it starts, as a stack of end times keeps them.
pub open spec fn nesting_depth(events: Seq<TimelineEvent>, order: Seq<EventId>, p: int) -> nat {
    pop_finished(stack_after(events, order.take(p)), events[order[p].0 as int].start_ns).len()
}

/// `a` is `b` with possibly another depth.
pub open spec fn same_but_depth(a: TimelineEvent, b: TimelineEvent) -> bool {
    &&& a.label == b.label
    &&& a.start_ns == b.start_ns
    &&& a.duration_ns == b.duration_ns
    &&& a.thread_id == b.thread_id
    &&& a.kind_index == b.kind_index
    &&& a.additional_data == b.additional_data
    &&& a.payload_integer == b.payload_integer
    &&& a.is_thread_root == b.is_thread_root
}

proof fn lemma_pop_finished_len(stack: Seq<u64>, start: u64)
    ensures
        pop_finished(stack, start).len() <= stack.len(),
    decreases stack.len(),
{
    if stack.len() > 0 && stack.last() <= start {
        lemma_pop_finished_len(stack.drop_last(), start);
    }
}

proof fn lemma_stack_after_len(events: Seq<TimelineEvent>, order: Seq<EventId>)
    ensures
        stack_after(events, order).len() <= order.len(),
    decreases order.len(),
{
    if order.len() > 0 {
        lemma_stack_after_len(events, order.drop_last());
        lemma_pop_finished_len(
            stack_after(events, order.drop_last()),
            events[order.last().0 as int].start_ns,
        );
    }
}

pub(crate) proof fn lemma_stack_after_same_times(a: Seq<TimelineEvent>, b: Seq<TimelineEvent>, order: Seq<EventId>)
    requires
        a.len() == b.len(),
        forall|i: int| 0 <= i < a.len() ==> same_but_depth(#[trigger] a[i], b[i]),
        forall|k: int| 0 <= k < order.len() ==> (#[trigger] order[k]).0 < a.len(),
    ensures
        stack_after(a, order) == stack_after(b, order),
    decreases order.len(),
{
    if order.len() > 0 {
        lemma_stack_after_same_times(a, b, order.drop_last());
        let i = order.last().0 as int;
        assert(same_but_depth(a[i], b[i]));
    }
}

fn pop_until(stack: &mut Vec<u64>, start: u64)
    ensures
        final(stack)@ == pop_finished(old(stack)@, start),
{
    let ghost before = stack@;
    while stack.len() > 0 && stack[stack.len() - 1] <= start
        invariant
            pop_finished(stack@, start) == pop_finished(before, start),
        decreases stack@.len(),
    {
        let ghost prev = stack@;
        stack.pop();
        assert(stack@ =~= prev.drop_last());
    }
    assert(pop_finished(stack@, start) == stack@);
}

/// Visits the events in `order`, keeping a stack of the end times of the
/// events still open, and gives each event the size of that stack as depth.
#[verifier::rlimit(30)]
/// The depth that visiting the first `n` events of `order` leaves on event
/// `i`: its nesting depth at its last visit among them, or `d` when none of
/// them is event `i`.
pub open spec fn visit_depth(events: Seq<TimelineEvent>, order: Seq<EventId>, n: int, i: int, d: nat) -> nat
    decreases n,
{
    if n <= 0 {
        d
    } else if order[n - 1].0 == i {
        nesting_depth(events, order, n - 1)
    } else {
        visit_depth(events, order, n - 1, i, d)
    }
}

/// Sets the depth of each event of `order` in turn, a later visit of the
/// same event overriding an earlier one.
fn write_depths(events: &mut Vec<TimelineEvent>, order: &Vec<EventId>)
    requires
        old(events)@.len() <= 0x1_0000_0000,
        order@.len() <= 0x1_0000_0000,
        forall|q: int| 0 <= q < order@.len() ==> (#[trigger] order@[q]).0 < old(events)@.len(),
    ensures
        final(events)@.len() == old(events)@.len(),
        forall|i: int| 0 <= i < old(events)@.len() ==> same_but_depth(#[trigger] final(events)@[i], old(events)@[i]),
        forall|i: int|
            0 <= i < old(events)@.len() && !order@.contains(EventId(i as u32)) ==> (#[trigger] final(events)@[i])
                == old(events)@[i],
        forall|i: int|
            0 <= i < old(events)@.len() ==> (#[trigger] final(events)@[i]).depth == visit_depth(
                old(events)@,
                order@,
                order@.len() as int,
                i,
                old(events)@[i].depth as nat,
            ),
{
    let ghost ev0 = events@;
    let mut stack: Vec<u64> = Vec::new();
    let mut p: usize = 0;
    while p < order.len()
        invariant
            p <= order@.len(),
            ev0.len() <= 0x1_0000_0000,
            order@.len() <= 0x1_0000_0000,
            forall|q: int| 0 <= q < order@.len() ==> (#[trigger] order@[q]).0 < ev0.len(),
            events@.len() == ev0.len(),
            forall|i: int| 0 <= i < ev0.len() ==> same_but_depth(#[trigger] events@[i], ev0[i]),
            forall|i: int|
                0 <= i < ev0.len() && !order@.take(p as int).contains(EventId(i as u32)) ==> (
                #[trigger] events@[i]) == ev0[i],
            stack@ == stack_after(ev0, order@.take(p as int)),
            forall|i: int|
                0 <= i < ev0.len() ==> (#[trigger] events@[i]).depth == visit_depth(
                    ev0,
                    order@,
                    p as int,
                    i,
                    ev0[i].depth as nat,
                ),
        decreases order@.len() - p,
    {
        let id = order[p];
        let start = events[id.index()].start_ns;
        let end = events[id.index()].start_ns.saturating_add(events[id.index()].duration_ns);
        assert(start == ev0[id.0 as int].start_ns);
        assert(end == event_end(ev0[id.0 as int]));
        let ghost before = stack@;
        pop_until(&mut stack, start);
        proof {
            lemma_stack_after_len(ev0, order@.take(p as int));
            lemma_pop_finished_len(before, start);
        }
        let depth = stack.len() as u32;
        assert(depth == nesting_depth(ev0, order@, p as int));
        let ghost ev_mid = events@;
        events[id.index()].depth = depth;
        stack.push(end);
        proof {
            assert(order@.take(p + 1).drop_last() =~= order@.take(p as int));
            assert(order@.take(p + 1).last() == id);
            assert forall|i: int| 0 <= i < ev0.len() implies (#[trigger] events@[i]).depth == visit_depth(
                ev0,
                order@,
                p + 1,
                i,
                ev0[i].depth as nat,
            ) by {
                if i != id.0 {
                    assert(events@[i] == ev_mid[i]);
                }
            }
            assert forall|i: int|
                0 <= i < ev0.len() && !order@.take(p + 1).contains(EventId(i as u32)) implies (
            #[trigger] events@[i]) == ev0[i] by {
                if i == id.0 {
                    assert(order@.take(p + 1)[p as int] == EventId(i as u32));
                }
                if order@.take(p as int).contains(EventId(i as u32)) {
                    let q = choose|q: int| 0 <= q < p && order@.take(p as int)[q] == EventId(i as u32);
                    assert(order@.take(p + 1)[q] == EventId(i as u32));
                }
            }
        }
        p = p + 1;
    }
    assert(order@.take(order@.len() as int) =~= order@);
}

/// With no event visited twice, the depth an event is left with is its
/// nesting depth at its one position.
proof fn lemma_visit_depth_once(events: Seq<TimelineEvent>, order: Seq<EventId>, n: int, p: int, d: nat)
    requires
        order.no_duplicates(),
        0 <= p < n <= order.len(),
    ensures
        visit_depth(events, order, n, order[p].0 as int, d) == nesting_depth(events, order, p),
    decreases n,
{
    if p < n - 1 {
        assert(order[n - 1] != order[p]);
        lemma_visit_depth_once(events, order, n - 1, p, d);
    }
}

/// An event that the first `n` visits miss keeps the depth `d`.
proof fn lemma_visit_depth_missed(events: Seq<TimelineEvent>, order: Seq<EventId>, n: int, i: int, d: nat)
    requires
        0 <= n <= order.len(),
        forall|q: int| 0 <= q < n ==> (#[trigger] order[q]).0 != i,
    ensures
        visit_depth(events, order, n, i, d) == d,
    decreases n,
{
    if n > 0 {
        lemma_visit_depth_missed(events, order, n - 1, i, d);
    }
}

/// Sorts one thread's events for depth assignment and writes the depth of
/// each; returns the sorted list.
fn assign_thread_depths(events: &mut Vec<TimelineEvent>, ids: &Vec<EventId>) -> (order: Vec<EventId>)
    requires
        old(events)@.len() <= 0x1_0000_0000,
        ids@.len() <= 0x1_0000_0000,
        forall|k: int| 0 <= k < ids@.len() ==> (#[trigger] ids@[k]).0 < old(events)@.len(),
    ensures
        order@ == depth_order(old(events)@, ids@),
        order@.len() == ids@.len(),
        forall|p: int| 0 <= p < order@.len() ==> ids@.contains(#[trigger] order@[p]),
        ids@.no_duplicates() ==> order@.no_duplicates(),
        final(events)@.len() == old(events)@.len(),
        forall|i: int| 0 <= i < old(events)@.len() ==> same_but_depth(#[trigger] final(events)@[i], old(events)@[i]),
        forall|i: int|
            0 <= i < old(events)@.len() && !ids@.contains(EventId(i as u32)) ==> (#[trigger] final(events)@[i])
                == old(events)@[i],
        forall|i: int|
            0 <= i < old(events)@.len() ==> (#[trigger] final(events)@[i]).depth == visit_depth(
                old(events)@,
                order@,
                order@.len() as int,
                i,
                old(events)@[i].depth as nat,
            ),
{
    let ghost ev0 = events@;
    let mut keyed: Vec<(u64, u64, u64)> = Vec::new();
    let mut k: usize = 0;
    while k < ids.len()
        invariant
            k <= ids@.len(),
            events@ == ev0,
            forall|j: int| 0 <= j < ids@.len() ==> (#[trigger] ids@[j]).0 < ev0.len(),
            keyed@ =~= keyed_for_depth(ev0, ids@.take(k as int)),
        decreases ids@.len() - k,
    {
        let id = ids[k];
        let e = &events[id.index()];
        let end = e.start_ns.saturating_add(e.duration_ns);
        keyed.push((e.start_ns, u64::MAX - end, id.0 as u64));
        assert(ids@.take(k + 1) =~= ids@.take(k as int).push(id));
        k = k + 1;
    }
    assert(ids@.take(ids@.len() as int) =~= ids@);
    let ghost le = |a: (u64, u64, u64), b: (u64, u64, u64)| triple_le(a, b);
    let sorted = sort_triples(&keyed);
    // Each sorted key is the key of one of the ids.
    assert forall|p: int| 0 <= p < sorted@.len() implies exists|j: int|
        0 <= j < ids@.len() && #[trigger] sorted@[p] == keyed@[j] by {
        vstd::seq_lib::to_multiset_contains(sorted@, sorted@[p]);
        vstd::seq_lib::to_multiset_contains(keyed@, sorted@[p]);
    }
    let mut order: Vec<EventId> = Vec::new();
    let mut k: usize = 0;
    while k < sorted.len()
        invariant
            k <= sorted@.len(),
            order@ =~= sorted@.take(k as int).map_values(|t: (u64, u64, u64)| EventId(t.2 as u32)),
        decreases sorted@.len() - k,
    {
        order.push(EventId(sorted[k].2 as u32));
        k = k + 1;
    }
    assert(sorted@.take(sorted@.len() as int) =~= sorted@);
    assert(order@ == depth_order(ev0, ids@));
    // The sorted list holds the same ids, each once.
    assert forall|p: int| 0 <= p < order@.len() implies ids@.contains(#[trigger] order@[p]) by {
        let j = choose|j: int| 0 <= j < ids@.len() && #[trigger] sorted@[p] == keyed@[j];
        assert(order@[p] == EventId(sorted@[p].2 as u32));
        assert(order@[p] == ids@[j]);
    }
    proof {
        if ids@.no_duplicates() {
            // Distinct ids give distinct keys, so the sorted keys, and the
            // ids read back from them, are distinct too.
            assert(keyed@.no_duplicates()) by {
                assert forall|a: int, b: int| 0 <= a < keyed@.len() && 0 <= b < keyed@.len() && a != b implies keyed@[a]
                    != keyed@[b] by {
                    assert(keyed@[a].2 == ids@[a].0 as u64);
                    assert(keyed@[b].2 == ids@[b].0 as u64);
                }
            }
            keyed@.lemma_multiset_has_no_duplicates();
            sorted@.lemma_multiset_has_no_duplicates_conv();
            assert forall|a: int, b: int| 0 <= a < order@.len() && 0 <= b < order@.len() && a != b implies order@[a]
                != order@[b] by {
                let ja = choose|j: int| 0 <= j < ids@.len() && #[trigger] sorted@[a] == keyed@[j];
                let jb = choose|j: int| 0 <= j < ids@.len() && #[trigger] sorted@[b] == keyed@[j];
                if order@[a] == order@[b] {
                    assert(ids@[ja].0 == order@[a].0);
                    assert(ids@[jb].0 == order@[b].0);
                    assert(ja == jb);
                }
            }
        }
        assert forall|i: int| #![trigger ev0[i]] 0 <= i < ev0.len() && !ids@.contains(EventId(i as u32)) implies !order@.contains(
            EventId(i as u32),
        ) by {
            if order@.contains(EventId(i as u32)) {
                let q = choose|q: int| 0 <= q < order@.len() && order@[q] == EventId(i as u32);
                assert(ids@.contains(order@[q]));
            }
        }
        assert forall|q: int| 0 <= q < order@.len() implies (#[trigger] order@[q]).0 < ev0.len() by {
            assert(ids@.contains(order@[q]));
        }
    }
    write_depths(events, &order);
    order
}

proof fn lemma_thread_ids_len(events: Seq<TimelineEvent>, tid: u32, n: nat)
    ensures
        thread_ids_of(events, tid, n).len() <= n,
    decreases n,
{
    if n > 0 {
        lemma_thread_ids_len(events, tid, (n - 1) as nat);
    }
}

pub(crate) proof fn lemma_depth_order_same_times(a: Seq<TimelineEvent>, b: Seq<TimelineEvent>, ids: Seq<EventId>)
    requires
        a.len() == b.len(),
        forall|i: int| 0 <= i < a.len() ==> same_but_depth(#[trigger] a[i], b[i]),
        forall|k: int| 0 <= k < ids.len() ==> (#[trigger] ids[k]).0 < a.len(),
    ensures
        depth_order(a, ids) == depth_order(b, ids),
{
    assert forall|k: int| 0 <= k < ids.len() implies #[trigger] keyed_for_depth(a, ids)[k] == keyed_for_depth(
        b,
        ids,
    )[k] by {
        let i = ids[k].0 as int;
        assert(same_but_depth(a[i], b[i]));
    }
    assert(keyed_for_depth(a, ids) =~= keyed_for_depth(b, ids));
}

/// The lists of a threads index, without their thread ids.
pub open spec fn index_lists(threads: Seq<(u32, Vec<EventId>)>) -> Seq<Seq<EventId>> {
    threads.map_values(|x: (u32, Vec<EventId>)| x.1@)
}

/// The depth that visiting each list of `lists` in turn, as `write_depths`
/// visits one, leaves on event `i` (its own depth when no list holds it).
pub open spec fn depth_after_lists(events: Seq<TimelineEvent>, lists: Seq<Seq<EventId>>, i: int) -> nat
    decreases lists.len(),
{
    if lists.len() == 0 {
        events[i].depth as nat
    } else {
        let l = lists.last();
        visit_depth(events, l, l.len() as int, i, depth_after_lists(events, lists.drop_last(), i))
    }
}

proof fn lemma_visit_depth_same_times(
    a: Seq<TimelineEvent>,
    b: Seq<TimelineEvent>,
    order: Seq<EventId>,
    n: int,
    i: int,
    d: nat,
)
    requires
        n <= order.len(),
        forall|p: int| 0 <= p < n ==> #[trigger] nesting_depth(a, order, p) == nesting_depth(b, order, p),
    ensures
        visit_depth(a, order, n, i, d) == visit_depth(b, order, n, i, d),
    decreases n,
{
    if n > 0 {
        assert(nesting_depth(a, order, n - 1) == nesting_depth(b, order, n - 1));
        lemma_visit_depth_same_times(a, b, order, n - 1, i, d);
    }
}

/// An event visited in exactly one list, at one position, gets the nesting
/// depth of that position.
proof fn lemma_depth_after_one_list(events: Seq<TimelineEvent>, lists: Seq<Seq<EventId>>, k: int, p: int)
    requires
        0 <= k < lists.len(),
        0 <= p < lists[k].len(),
        lists[k].no_duplicates(),
        forall|j: int, q: int|
            0 <= j < lists.len() && j != k && 0 <= q < lists[j].len() ==> (#[trigger] lists[j][q]).0
                != lists[k][p].0,
    ensures
        depth_after_lists(events, lists, lists[k][p].0 as int) == nesting_depth(events, lists[k], p),
    decreases lists.len(),
{
    let x = lists[k][p].0 as int;
    let l = lists.last();
    let n = lists.len() - 1;
    let rest = lists.drop_last();
    if k == n {
        lemma_visit_depth_once(events, l, l.len() as int, p, depth_after_lists(events, rest, x));
    } else {
        assert forall|q: int| 0 <= q < l.len() implies (#[trigger] l[q]).0 != x by {
            assert(lists[n][q] == l[q]);
        }
        lemma_visit_depth_missed(events, l, l.len() as int, x, depth_after_lists(events, rest, x));
        assert forall|j: int, q: int|
            0 <= j < rest.len() && j != k && 0 <= q < rest[j].len() implies (#[trigger] rest[j][q]).0 != rest[k][p].0 by {
            assert(rest[j] == lists[j]);
        }
        lemma_depth_after_one_list(events, rest, k, p);
    }
}

/// Gives events their nesting depths, list by list. Each list is sorted into
/// visiting order (see `depth_order`) and the events are visited in turn,
/// each getting the number of earlier events of its list still open when it
/// starts (see `nesting_depth`); an event visited again keeps its last depth.
/// For a threads index, where each event lies in one list once, the event at
/// position `p` of a thread's order gets `nesting_depth(events, order, p)`.
pub fn assign_event_depths(events: &mut Vec<TimelineEvent>, threads: &mut Vec<(u32, Vec<EventId>)>)
    requires
        old(events)@.len() <= 0x1_0000_0000,
        forall|k: int| 0 <= k < old(threads)@.len() ==> (#[trigger] old(threads)@[k]).1@.len() <= 0x1_0000_0000,
        forall|k: int| 0 <= k < old(threads)@.len() ==> crate::data::ids_in_range(old(events)@, (#[trigger] old(threads)@[k]).1@),
    ensures
        final(threads)@.len() == old(threads)@.len(),
        forall|k: int|
            0 <= k < final(threads)@.len() ==> {
                &&& (#[trigger] final(threads)@[k]).0 == old(threads)@[k].0
                &&& final(threads)@[k].1@ == depth_order(old(events)@, old(threads)@[k].1@)
            },
        final(events)@.len() == old(events)@.len(),
        forall|i: int| 0 <= i < old(events)@.len() ==> same_but_depth(#[trigger] final(events)@[i], old(events)@[i]),
        forall|i: int|
            0 <= i < old(events)@.len() ==> (#[trigger] final(events)@[i]).depth == depth_after_lists(
                old(events)@,
                index_lists(final(threads)@),
                i,
            ),
        forall|k: int|
            0 <= k < final(threads)@.len() ==> crate::data::ids_in_range(final(events)@, (#[trigger] final(threads)@[k]).1@),
        is_threads_index(old(events)@, index_view(old(threads)@)) ==> forall|k: int, p: int|
            0 <= k < final(threads)@.len() && 0 <= p < final(threads)@[k].1@.len() ==> final(events)@[(
            #[trigger] final(threads)@[k].1@[p]).0 as int].depth == nesting_depth(
                old(events)@,
                final(threads)@[k].1@,
                p,
            ),
{
    let ghost ev0 = events@;
    let ghost th0 = threads@;
    let mut k: usize = 0;
    while k < threads.len()
        invariant
            k <= threads@.len(),
            threads@.len() == th0.len(),
            ev0.len() <= 0x1_0000_0000,
            forall|j: int| 0 <= j < th0.len() ==> (#[trigger] th0[j]).1@.len() <= 0x1_0000_0000,
            forall|j: int| 0 <= j < th0.len() ==> crate::data::ids_in_range(ev0, (#[trigger] th0[j]).1@),
            events@.len() == ev0.len(),
            forall|i: int| 0 <= i < ev0.len() ==> same_but_depth(#[trigger] events@[i], ev0[i]),
            forall|j: int| 0 <= j < threads@.len() ==> (#[trigger] threads@[j]).0 == th0[j].0,
            forall|j: int| k <= j < threads@.len() ==> (#[trigger] threads@[j]).1@ == th0[j].1@,
            forall|j: int| 0 <= j < k ==> (#[trigger] threads@[j]).1@ == depth_order(ev0, th0[j].1@),
            forall|j: int, p: int|
                0 <= j < k && 0 <= p < threads@[j].1@.len() ==> th0[j].1@.contains(#[trigger] threads@[j].1@[p]),
            forall|j: int| 0 <= j < k && th0[j].1@.no_duplicates() ==> (#[trigger] threads@[j]).1@.no_duplicates(),
            forall|i: int|
                0 <= i < ev0.len() ==> (#[trigger] events@[i]).depth == depth_after_lists(
                    ev0,
                    index_lists(threads@).take(k as int),
                    i,
                ),
        decreases th0.len() - k,
    {
        let ghost ev_before = events@;
        let ghost th_before = threads@;
        let ids = copy_ids(&threads[k].1);
        let order = assign_thread_depths(events, &ids);
        proof {
            lemma_depth_order_same_times(ev_before, ev0, ids@);
            assert forall|p: int| 0 <= p < order@.len() implies #[trigger] nesting_depth(ev_before, order@, p)
                == nesting_depth(ev0, order@, p) by {
                assert forall|q: int| 0 <= q < order@.take(p).len() implies (#[trigger] order@.take(p)[q]).0
                    < ev0.len() by {
                    let x = order@.take(p)[q];
                    assert(ids@.contains(order@[q]));
                }
                lemma_stack_after_same_times(ev_before, ev0, order@.take(p));
                let x = order@[p];
                assert(ids@.contains(x));
                assert(same_but_depth(ev_before[x.0 as int], ev0[x.0 as int]));
            }
        }
        threads[k].1 = order;
        proof {
            let lists = index_lists(threads@).take(k + 1);
            assert(lists.drop_last() =~= index_lists(th_before).take(k as int));
            assert(lists.last() == order@);
            assert forall|i: int| 0 <= i < ev0.len() implies (#[trigger] events@[i]).depth == depth_after_lists(
                ev0,
                index_lists(threads@).take(k + 1),
                i,
            ) by {
                lemma_visit_depth_same_times(
                    ev_before,
                    ev0,
                    order@,
                    order@.len() as int,
                    i,
                    ev_before[i].depth as nat,
                );
            }
            assert forall|j: int, p: int|
                0 <= j < k + 1 && 0 <= p < threads@[j].1@.len() implies th0[j].1@.contains(
                #[trigger] threads@[j].1@[p],
            ) by {
                if j == k {
                    assert(ids@.contains(order@[p]));
                } else {
                    assert(threads@[j] == th_before[j]);
                }
            }
            assert forall|j: int| 0 <= j < k + 1 && th0[j].1@.no_duplicates() implies (
            #[trigger] threads@[j]).1@.no_duplicates() by {
                if j < k {
                    assert(threads@[j] == th_before[j]);
                }
            }
        }
        k = k + 1;
    }
    proof {
        let lists = index_lists(threads@);
        assert(lists.take(threads@.len() as int) =~= lists);
        assert forall|k: int|
            0 <= k < threads@.len() implies crate::data::ids_in_range(events@, (#[trigger] threads@[k]).1@) by {
            assert forall|q: int| 0 <= q < threads@[k].1@.len() implies (#[trigger] threads@[k].1@[q]).0
                < events@.len() by {
                let x = threads@[k].1@[q];
                assert(th0[k].1@.contains(x));
            }
        }
        if is_threads_index(ev0, index_view(th0)) {
            let iv0 = index_view(th0);
            assert forall|k: int, p: int|
                0 <= k < threads@.len() && 0 <= p < threads@[k].1@.len() implies events@[(
                #[trigger] threads@[k].1@[p]).0 as int].depth == nesting_depth(ev0, threads@[k].1@, p) by {
                // Each thread's list holds its events once, and no other list
                // holds them.
                assert(iv0[k] == (th0[k].0, th0[k].1@));
                lemma_thread_ids_props(ev0, th0[k].0, ev0.len());
                assert(th0[k].1@.no_duplicates()) by {
                    let s = th0[k].1@;
                    assert forall|a: int, b: int| 0 <= a < s.len() && 0 <= b < s.len() && a != b implies s[a] != s[b] by {
                        if a < b {
                            assert(s[a].0 < s[b].0);
                        } else {
                            assert(s[b].0 < s[a].0);
                        }
                    }
                }
                let x = threads@[k].1@[p];
                assert(th0[k].1@.contains(x));
                assert(ev0[x.0 as int].thread_id == th0[k].0);
                assert forall|j: int, q: int|
                    0 <= j < lists.len() && j != k && 0 <= q < lists[j].len() implies (#[trigger] lists[j][q]).0
                        != lists[k][p].0 by {
                    let y = lists[j][q];
                    assert(lists[j] == threads@[j].1@);
                    assert(th0[j].1@.contains(y));
                    assert(iv0[j] == (th0[j].0, th0[j].1@));
                    lemma_thread_ids_props(ev0, th0[j].0, ev0.len());
                    assert(ev0[y.0 as int].thread_id == th0[j].0);
                    if j < k {
                        assert(iv0[j].0 < iv0[k].0);
                    } else {
                        assert(iv0[k].0 < iv0[j].0);
                    }
                }
                assert(lists[k] == threads@[k].1@);
                lemma_depth_after_one_list(ev0, lists, k, p);
            }
        }
    }
}

pub(crate) proof fn lemma_thread_ids_same_tids(a: Seq<TimelineEvent>, b: Seq<TimelineEvent>, tid: u32, n: nat)
    requires
        n <= a.len(),
        a.len() == b.len(),
        forall|i: int| 0 <= i < a.len() ==> (#[trigger] a[i]).thread_id == b[i].thread_id,
    ensures
        thread_ids_of(a, tid, n) == thread_ids_of(b, tid, n),
    decreases n,
{
    if n > 0 {
        lemma_thread_ids_same_tids(a, b, tid, (n - 1) as nat);
        assert(a[n - 1].thread_id == b[n - 1].thread_id);
    }
}

/// The per-thread index depends on the events' threads only.
pub(crate) proof fn lemma_threads_index_same_tids(
    a: Seq<TimelineEvent>,
    b: Seq<TimelineEvent>,
    index: Seq<(u32, Seq<EventId>)>,
)
    requires
        is_threads_index(a, index),
        a.len() == b.len(),
        forall|i: int| 0 <= i < a.len() ==> (#[trigger] a[i]).thread_id == b[i].thread_id,
    ensures
        is_threads_index(b, index),
{
    assert forall|k: int| 0 <= k < index.len() implies (#[trigger] index[k]).1 == thread_ids_of(
        b,
        index[k].0,
        b.len(),
    ) by {
        lemma_thread_ids_same_tids(a, b, index[k].0, a.len());
    }
    assert forall|i: int| 0 <= i < b.len() implies has_thread(index, (#[trigger] b[i]).thread_id) by {
        assert(a[i].thread_id == b[i].thread_id);
        assert(has_thread(index, a[i].thread_id));
    }
}

/// Nesting depths depend on the events' times only.
pub(crate) proof fn lemma_nesting_depth_same_times(
    a: Seq<TimelineEvent>,
    b: Seq<TimelineEvent>,
    order: Seq<EventId>,
    p: int,
)
    requires
        a.len() == b.len(),
        forall|i: int| 0 <= i < a.len() ==> same_but_depth(#[trigger] a[i], b[i]),
        forall|k: int| 0 <= k < order.len() ==> (#[trigger] order[k]).0 < a.len(),
        0 <= p < order.len(),
    ensures
        nesting_depth(a, order, p) == nesting_depth(b, order, p),
{
    assert forall|k: int| 0 <= k < order.take(p).len() implies (#[trigger] order.take(p)[k]).0 < a.len() by {
        assert(order.take(p)[k] == order[k]);
    }
    lemma_stack_after_same_times(a, b, order.take(p));
    assert(same_but_depth(a[order[p].0 as int], b[order[p].0 as int]));
}

// ---------------------------------------------------------------------------
// What depths keep
// ---------------------------------------------------------------------------

/// Popping finished entries keeps the stack's lower part: an entry that has
/// not ended by `start` stays, with everything below it.
proof fn lemma_pop_finished_keeps(stack: Seq<u64>, start: u64, i: int)
    requires
        0 <= i < stack.len(),
        stack[i] > start,
    ensures
        pop_finished(stack, start).len() > i,
        pop_finished(stack, start)[i] == stack[i],
    decreases stack.len(),
{
    if stack.len() > 0 && stack.last() <= start {
        assert(i < stack.len() - 1);
        lemma_pop_finished_keeps(stack.drop_last(), start, i);
    }
}

/// Visiting order sorted by start time.
pub open spec fn starts_in_order(events: Seq<TimelineEvent>, order: Seq<EventId>) -> bool {
    forall|a: int, b: int|
        0 <= a < b < order.len() ==> events[(#[trigger] order[a]).0 as int].start_ns <= events[(
        #[trigger] order[b]).0 as int].start_ns
}

proof fn lemma_entry_stays_open(events: Seq<TimelineEvent>, order: Seq<EventId>, q: int, r: int)
    requires
        0 <= q < r <= order.len(),
        forall|k: int| 0 <= k < order.len() ==> (#[trigger] order[k]).0 < events.len(),
        forall|k: int|
            q < k < r ==> events[(#[trigger] order[k]).0 as int].start_ns < event_end(events[order[q].0 as int]),
    ensures
        stack_after(events, order.take(r)).len() > nesting_depth(events, order, q),
        stack_after(events, order.take(r))[nesting_depth(events, order, q) as int] == event_end(
            events[order[q].0 as int],
        ),
    decreases r - q,
{
    let d = nesting_depth(events, order, q) as int;
    if r == q + 1 {
        assert(order.take(r).drop_last() =~= order.take(q));
        assert(order.take(r).last() == order[q]);
    } else {
        lemma_entry_stays_open(events, order, q, r - 1);
        let prev = stack_after(events, order.take(r - 1));
        let e = events[order[r - 1].0 as int];
        assert(order.take(r).drop_last() =~= order.take(r - 1));
        assert(order.take(r).last() == order[r - 1]);
        lemma_pop_finished_keeps(prev, e.start_ns, d);
    }
}

/// An event that is still open when a later event of the order starts lies
/// above it: in an order sorted by start, if the event at `p` starts before
/// the event at an earlier position `q` ends, the depth at `p` is greater.
pub proof fn law_enclosing_event_is_shallower(events: Seq<TimelineEvent>, order: Seq<EventId>, q: int, p: int)
    requires
        0 <= q < p < order.len(),
        forall|k: int| 0 <= k < order.len() ==> (#[trigger] order[k]).0 < events.len(),
        starts_in_order(events, order),
        events[order[p].0 as int].start_ns < event_end(events[order[q].0 as int]),
    ensures
        nesting_depth(events, order, q) < nesting_depth(events, order, p),
{
    assert forall|k: int| q < k < p implies events[(#[trigger] order[k]).0 as int].start_ns < event_end(
        events[order[q].0 as int],
    ) by {
        assert(events[order[k].0 as int].start_ns <= events[order[p].0 as int].start_ns);
    }
    lemma_entry_stays_open(events, order, q, p);
    let d = nesting_depth(events, order, q) as int;
    lemma_pop_finished_keeps(stack_after(events, order.take(p)), events[order[p].0 as int].start_ns, d);
}

/// The order depths are assigned in is sorted by start time.
pub proof fn law_depth_order_by_start(events: Seq<TimelineEvent>, ids: Seq<EventId>)
    requires
        crate::data::ids_in_range(events, ids),
    ensures
        starts_in_order(events, depth_order(events, ids)),
{
    let keyed = keyed_for_depth(events, ids);
    let le = |a: (u64, u64, u64), b: (u64, u64, u64)| triple_le(a, b);
    crate::sort::lemma_triple_le_total_preorder();
    keyed.lemma_sort_by_ensures(le);
    let sorted = keyed.sort_by(le);
    let order = depth_order(events, ids);
    assert forall|a: int, b: int| 0 <= a < b < order.len() implies events[(#[trigger] order[a]).0 as int].start_ns
        <= events[(#[trigger] order[b]).0 as int].start_ns by {
        assert(le(sorted[a], sorted[b]));
        vstd::seq_lib::to_multiset_contains(sorted, sorted[a]);
        vstd::seq_lib::to_multiset_contains(keyed, sorted[a]);
        vstd::seq_lib::to_multiset_contains(sorted, sorted[b]);
        vstd::seq_lib::to_multiset_contains(keyed, sorted[b]);
        let ia = choose|i: int| 0 <= i < keyed.len() && keyed[i] == sorted[a];
        let ib = choose|i: int| 0 <= i < keyed.len() && keyed[i] == sorted[b];
        assert(keyed[ia] == depth_key(events, ids[ia]));
        assert(keyed[ib] == depth_key(events, ids[ib]));
        assert(ids[ia].0 < 0x1_0000_0000);
    }
}


/// The end of the `q`-th event of `order`.
pub open spec fn end_at(events: Seq<TimelineEvent>, order: Seq<EventId>, q: int) -> u64 {
    event_end(events[order[q].0 as int])
}

/// The start of the `q`-th event of `order`.
pub open spec fn start_at(events: Seq<TimelineEvent>, order: Seq<EventId>, q: int) -> u64 {
    events[order[q].0 as int].start_ns
}

/// The number of the first `p` events of `order` still open at time `t`.
pub open spec fn open_count(events: Seq<TimelineEvent>, order: Seq<EventId>, p: int, t: u64) -> nat
    decreases p,
{
    if p <= 0 {
        0
    } else {
        open_count(events, order, p - 1, t) + if end_at(events, order, p - 1) > t {
            1nat
        } else {
            0nat
        }
    }
}

/// The events of `order` nest: an event that starts while an earlier one is
/// open ends no later than it.
pub open spec fn nests_in_order(events: Seq<TimelineEvent>, order: Seq<EventId>) -> bool {
    forall|q: int, k: int|
        0 <= q < k < order.len() && start_at(events, order, k) < #[trigger] end_at(events, order, q) ==> #[trigger] end_at(
            events,
            order,
            k,
        ) <= end_at(events, order, q)
}

/// The number of entries of `s` above `t`.
pub open spec fn count_above(s: Seq<u64>, t: u64) -> nat
    decreases s.len(),
{
    if s.len() == 0 {
        0
    } else {
        count_above(s.drop_last(), t) + if s.last() > t {
            1nat
        } else {
            0nat
        }
    }
}

/// Entries never grow from bottom to top.
pub open spec fn non_increasing(s: Seq<u64>) -> bool {
    forall|i: int, j: int| 0 <= i < j < s.len() ==> (#[trigger] s[i]) >= (#[trigger] s[j])
}

proof fn lemma_count_above_pop(stack: Seq<u64>, start: u64, t: u64)
    requires
        start <= t,
    ensures
        count_above(pop_finished(stack, start), t) == count_above(stack, t),
    decreases stack.len(),
{
    if stack.len() > 0 && stack.last() <= start {
        lemma_count_above_pop(stack.drop_last(), start, t);
    }
}

proof fn lemma_count_above_all(s: Seq<u64>, t: u64)
    requires
        forall|i: int| 0 <= i < s.len() ==> #[trigger] s[i] > t,
    ensures
        count_above(s, t) == s.len(),
    decreases s.len(),
{
    if s.len() > 0 {
        lemma_count_above_all(s.drop_last(), t);
    }
}

/// On a non-increasing stack, popping the entries that ended by `start`
/// leaves the bottom part of the entries above `start`.
proof fn lemma_pop_non_increasing(stack: Seq<u64>, start: u64)
    requires
        non_increasing(stack),
    ensures
        pop_finished(stack, start) == stack.take(pop_finished(stack, start).len() as int),
        pop_finished(stack, start).len() <= stack.len(),
        forall|i: int| 0 <= i < pop_finished(stack, start).len() ==> #[trigger] pop_finished(stack, start)[i] > start,
        count_above(stack, start) == pop_finished(stack, start).len(),
    decreases stack.len(),
{
    if stack.len() > 0 && stack.last() <= start {
        let init = stack.drop_last();
        assert(non_increasing(init)) by {
            assert forall|i: int, j: int| 0 <= i < j < init.len() implies (#[trigger] init[i]) >= (#[trigger] init[j]) by {
                assert(stack[i] >= stack[j]);
            }
        }
        lemma_pop_non_increasing(init, start);
        let m = pop_finished(init, start).len() as int;
        assert(init.take(m) =~= stack.take(m));
    } else {
        assert(stack.take(stack.len() as int) =~= stack);
        if stack.len() > 0 {
            assert forall|i: int| 0 <= i < stack.len() implies #[trigger] stack[i] > start by {
                if i < stack.len() - 1 {
                    assert(stack[i] >= stack[stack.len() - 1]);
                }
            }
        }
        lemma_count_above_all(stack, start);
    }
}

/// What the stack of open end times holds after the first `k` events of a
/// nesting order sorted by start: a non-increasing list of end times of
/// those events, as many above any time from the last start on as there are
/// events still open then.
proof fn lemma_stack_counts_open(events: Seq<TimelineEvent>, order: Seq<EventId>, k: int)
    requires
        0 <= k <= order.len(),
        starts_in_order(events, order),
        nests_in_order(events, order),
    ensures
        non_increasing(stack_after(events, order.take(k))),
        forall|i: int|
            0 <= i < stack_after(events, order.take(k)).len() ==> exists|q: int|
                0 <= q < k && #[trigger] stack_after(events, order.take(k))[i] == end_at(events, order, q),
        forall|t: u64|
            (k == 0 || t >= start_at(events, order, k - 1)) ==> #[trigger] count_above(
                stack_after(events, order.take(k)),
                t,
            ) == open_count(events, order, k, t),
    decreases k,
{
    if k == 0 {
        assert(order.take(0) =~= Seq::<EventId>::empty());
    } else {
        lemma_stack_counts_open(events, order, k - 1);
        let s0 = stack_after(events, order.take(k - 1));
        let sk = start_at(events, order, k - 1);
        let ek = end_at(events, order, k - 1);
        assert(order.take(k).drop_last() =~= order.take(k - 1));
        assert(order.take(k).last() == order[k - 1]);
        let popped = pop_finished(s0, sk);
        let s1 = stack_after(events, order.take(k));
        assert(s1 == popped.push(ek));
        lemma_pop_non_increasing(s0, sk);
        let m = popped.len() as int;
        assert forall|i: int| 0 <= i < popped.len() implies #[trigger] popped[i] >= ek by {
            assert(popped[i] == s0[i]);
            let q = choose|q: int| 0 <= q < k - 1 && #[trigger] s0[i] == end_at(events, order, q);
            assert(popped[i] > sk);
            assert(end_at(events, order, k - 1) <= end_at(events, order, q));
        }
        assert(non_increasing(s1)) by {
            assert forall|i: int, j: int| 0 <= i < j < s1.len() implies (#[trigger] s1[i]) >= (#[trigger] s1[j]) by {
                assert(s1[i] == popped[i]);
                if j < m {
                    assert(s1[j] == popped[j]);
                    assert(popped[i] == s0[i] && popped[j] == s0[j]);
                }
            }
        }
        assert forall|i: int| 0 <= i < s1.len() implies exists|q: int|
            0 <= q < k && #[trigger] s1[i] == end_at(events, order, q) by {
            if i < m {
                assert(s1[i] == s0[i]);
                let q = choose|q: int| 0 <= q < k - 1 && #[trigger] s0[i] == end_at(events, order, q);
                assert(s1[i] == end_at(events, order, q));
            } else {
                assert(s1[i] == end_at(events, order, k - 1));
            }
        }
        assert forall|t: u64| (k == 0 || t >= start_at(events, order, k - 1)) implies #[trigger] count_above(
            s1,
            t,
        ) == open_count(events, order, k, t) by {
            assert(s1.drop_last() =~= popped);
            lemma_count_above_pop(s0, sk, t);
            if k >= 2 {
                assert(start_at(events, order, k - 2) <= sk) by {
                    assert(events[order[k - 2].0 as int].start_ns <= events[order[k - 1].0 as int].start_ns);
                }
            }
        }
    }
}

/// In an order sorted by start whose events nest, the depth of an event is
/// the number of earlier events still open when it starts: the events that
/// enclose it.
pub proof fn law_depth_counts_enclosing(events: Seq<TimelineEvent>, order: Seq<EventId>, p: int)
    requires
        0 <= p < order.len(),
        starts_in_order(events, order),
        nests_in_order(events, order),
    ensures
        nesting_depth(events, order, p) == open_count(events, order, p, start_at(events, order, p)),
{
    lemma_stack_counts_open(events, order, p);
    let s = stack_after(events, order.take(p));
    let t = start_at(events, order, p);
    lemma_pop_non_increasing(s, t);
    if p > 0 {
        assert(start_at(events, order, p - 1) <= t) by {
            assert(events[order[p - 1].0 as int].start_ns <= events[order[p].0 as int].start_ns);
        }
    }
    assert(count_above(s, t) == open_count(events, order, p, t));
}

} // verus!
