//! Duration levels ("mipmaps") of a thread's events.
//!
//! Events are split by the power of two of their duration. Each level keeps
//! an interval tree of its events and, per depth, "shadow" ranges: the events
//! of all shorter levels, each stretched to at least the level's duration and
//! merged where they touch, so that tiny events stay visible as markers when
//! the view is zoomed out.
use crate::data::{
    bucket_of, duration_bucket, event_end, ids_in_range, level_max_duration, level_max_duration_exec, sat_add,
    sat_sub, EventId, ShadowLevel, ThreadGroupMipMap, ThreadGroupMipMapShadows, TimelineEvent,
};
use crate::sort::{sort_triples, triple_le};
use crate::tree::{
    event_tree_contents, event_tree_from_ranges, shadow_tree_contents, shadow_tree_from_ranges,
};
use vstd::prelude::*;

verus! {

broadcast use vstd::seq_lib::group_to_multiset_ensures;

pub open spec fn max_nat(a: nat, b: nat) -> nat {
    if a >= b {
        a
    } else {
        b
    }
}

// ---------------------------------------------------------------------------
// Splitting events into levels
// ---------------------------------------------------------------------------

/// The listed events whose duration lies in level `b`, in list order.
pub open spec fn ids_in_bucket(events: Seq<TimelineEvent>, ids: Seq<EventId>, b: nat) -> Seq<EventId>
    decreases ids.len(),
{
    if ids.len() == 0 {
        Seq::empty()
    } else {
        let rest = ids_in_bucket(events, ids.drop_last(), b);
        if bucket_of(events[ids.last().0 as int].duration_ns) == b {
            rest.push(ids.last())
        } else {
            rest
        }
    }
}

/// The number of levels: one past the highest level of the listed events
/// (0 for no events).
pub open spec fn level_count(events: Seq<TimelineEvent>, ids: Seq<EventId>) -> nat
    decreases ids.len(),
{
    if ids.len() == 0 {
        0
    } else {
        max_nat(
            level_count(events, ids.drop_last()),
            bucket_of(events[ids.last().0 as int].duration_ns) + 1,
        )
    }
}

/// The time range under which an event is stored in a level's tree: its
/// span, at least one nanosecond long.
pub open spec fn event_range(e: TimelineEvent) -> (u64, u64) {
    (e.start_ns, sat_add(e.start_ns, if e.duration_ns == 0 { 1 } else { e.duration_ns }))
}

/// The elements of a tree built over the listed events.
pub open spec fn tree_items(events: Seq<TimelineEvent>, ids: Seq<EventId>) -> Seq<(u64, u64, u32)> {
    ids.map_values(|id: EventId| (event_range(events[id.0 as int]).0, event_range(events[id.0 as int]).1, id.0))
}

proof fn lemma_bucket_beyond_count(events: Seq<TimelineEvent>, ids: Seq<EventId>, b: nat)
    requires
        b >= level_count(events, ids),
    ensures
        ids_in_bucket(events, ids, b) == Seq::<EventId>::empty(),
    decreases ids.len(),
{
    if ids.len() > 0 {
        lemma_bucket_beyond_count(events, ids.drop_last(), b);
    }
}

fn split_into_buckets(events: &Vec<TimelineEvent>, event_ids: &Vec<EventId>) -> (buckets: Vec<Vec<EventId>>)
    requires
        ids_in_range(events@, event_ids@),
    ensures
        buckets@.len() == level_count(events@, event_ids@),
        forall|b: int|
            0 <= b < buckets@.len() ==> (#[trigger] buckets@[b])@ == ids_in_bucket(events@, event_ids@, b as nat),
{
    let mut buckets: Vec<Vec<EventId>> = Vec::new();
    let mut k: usize = 0;
    while k < event_ids.len()
        invariant
            ids_in_range(events@, event_ids@),
            k <= event_ids@.len(),
            buckets@.len() == level_count(events@, event_ids@.take(k as int)),
            forall|b: int|
                0 <= b < buckets@.len() ==> (#[trigger] buckets@[b])@ == ids_in_bucket(
                    events@,
                    event_ids@.take(k as int),
                    b as nat,
                ),
        decreases event_ids@.len() - k,
    {
        let id = event_ids[k];
        let ghost prefix = event_ids@.take(k as int);
        let ghost next = event_ids@.take(k + 1);
        assert(next.drop_last() =~= prefix);
        assert(next.last() == id);
        let bucket = duration_bucket(events[id.index()].duration_ns) as usize;
        while buckets.len() <= bucket
            invariant
                buckets@.len() <= max_nat(level_count(events@, prefix), (bucket + 1) as nat),
                buckets@.len() >= level_count(events@, prefix),
                forall|b: int|
                    0 <= b < buckets@.len() ==> (#[trigger] buckets@[b])@ == ids_in_bucket(
                        events@,
                        prefix,
                        b as nat,
                    ),
            decreases bucket + 1 - buckets@.len(),
        {
            proof {
                lemma_bucket_beyond_count(events@, prefix, buckets@.len() as nat);
            }
            buckets.push(Vec::new());
        }
        buckets[bucket].push(id);
        proof {
            assert forall|b: int| 0 <= b < buckets@.len() implies (#[trigger] buckets@[b])@ == ids_in_bucket(
                events@,
                next,
                b as nat,
            ) by {}
        }
        k = k + 1;
    }
    assert(event_ids@.take(event_ids@.len() as int) =~= event_ids@);
    buckets
}

/// An interval tree of the listed events, keyed by their time ranges, which
/// answers overlap queries; the two index lists beside it are left empty.
pub fn build_event_indices(events: &Vec<TimelineEvent>, event_ids: &Vec<EventId>) -> (r: (
    Vec<usize>,
    Vec<usize>,
    intervaltree::IntervalTree<u64, EventId>,
))
    requires
        ids_in_range(events@, event_ids@),
    ensures
        r.0@.len() == 0,
        r.1@.len() == 0,
        event_tree_contents(r.2) == tree_items(events@, event_ids@).to_multiset(),
{
    let mut items: Vec<(u64, u64, EventId)> = Vec::new();
    let mut k: usize = 0;
    while k < event_ids.len()
        invariant
            ids_in_range(events@, event_ids@),
            k <= event_ids@.len(),
            items@.map_values(|x: (u64, u64, EventId)| crate::tree::plain_event_range(x)) =~= tree_items(
                events@,
                event_ids@.take(k as int),
            ),
        decreases event_ids@.len() - k,
    {
        let id = event_ids[k];
        let event = &events[id.index()];
        let start = event.start_ns;
        let duration = if event.duration_ns > 1 { event.duration_ns } else { 1 };
        let ghost before = items@;
        items.push((start, start.saturating_add(duration), id));
        proof {
            let f = |x: (u64, u64, EventId)| crate::tree::plain_event_range(x);
            assert(items@ == before.push((start, sat_add(start, duration), id)));
            assert(items@.map_values(f) =~= before.map_values(f).push(f((start, sat_add(start, duration), id))));
            assert(event_ids@.take(k + 1) =~= event_ids@.take(k as int).push(id));
            assert(f((start, sat_add(start, duration), id)) == (
                event_range(events@[id.0 as int]).0,
                event_range(events@[id.0 as int]).1,
                id.0,
            ));
        }
        k = k + 1;
    }
    assert(event_ids@.take(event_ids@.len() as int) =~= event_ids@);
    let tree = event_tree_from_ranges(items);
    (Vec::new(), Vec::new(), tree)
}

// ---------------------------------------------------------------------------
// Shadow ranges
// ---------------------------------------------------------------------------

/// The end of a range starting at `start` once its length is raised to at
/// least `target` (and at least 1), capped at `u64::MAX`.
pub open spec fn inflated_end(start: u64, duration: u64, target: u64) -> u64 {
    let d = if duration >= target { duration } else { target };
    let inflated = if d >= 1 { d } else { 1 };
    let e1 = sat_add(start, inflated);
    let e2 = sat_add(start, 1);
    if e1 >= e2 {
        e1
    } else {
        e2
    }
}

/// Appends `start..end` to a list of ranges sorted by start, merging it into
/// the last range when it starts no later than that range ends.
pub open spec fn push_merged(out: Seq<(u64, u64)>, start: u64, end: u64) -> Seq<(u64, u64)> {
    if out.len() > 0 && start <= out.last().1 {
        let last = out.last();
        out.update(out.len() - 1, (last.0, if last.1 >= end { last.1 } else { end }))
    } else {
        out.push((start, end))
    }
}

/// The ranges of the previous levels, each stretched to the new minimum
/// duration `target` and merged where the stretching made them overlap.
pub open spec fn reinflate(ranges: Seq<(u64, u64)>, target: u64) -> Seq<(u64, u64)>
    decreases ranges.len(),
{
    if ranges.len() == 0 {
        Seq::empty()
    } else {
        let rest = reinflate(ranges.drop_last(), target);
        let r = ranges.last();
        let d = sat_sub(r.1, r.0);
        push_merged(rest, r.0, inflated_end(r.0, if d >= 1 { d } else { 1 }, target))
    }
}

/// The ranges of the listed events at depth `d`, stretched to `target`, in
/// list order.
pub open spec fn level_ranges_at_depth(
    events: Seq<TimelineEvent>,
    ids: Seq<EventId>,
    target: u64,
    d: nat,
) -> Seq<(u64, u64)>
    decreases ids.len(),
{
    if ids.len() == 0 {
        Seq::empty()
    } else {
        let rest = level_ranges_at_depth(events, ids.drop_last(), target, d);
        let e = events[ids.last().0 as int];
        if e.depth == d {
            rest.push((e.start_ns, inflated_end(e.start_ns, e.duration_ns, target)))
        } else {
            rest
        }
    }
}

/// One past the deepest depth of the listed events (0 for none).
pub open spec fn depth_span(events: Seq<TimelineEvent>, ids: Seq<EventId>) -> nat
    decreases ids.len(),
{
    if ids.len() == 0 {
        0
    } else {
        max_nat(depth_span(events, ids.drop_last()), (events[ids.last().0 as int].depth + 1) as nat)
    }
}

/// The ranges tagged with their positions, so that ordering by
/// `(start, position)` orders them by start and keeps ties in list order.
pub open spec fn keyed_by_start(rs: Seq<(u64, u64)>) -> Seq<(u64, u64, u64)> {
    Seq::new(rs.len(), |i: int| (rs[i].0, i as u64, rs[i].1))
}

/// The ranges ordered by start; ranges with equal starts keep their order.
pub open spec fn stable_sort_by_start(rs: Seq<(u64, u64)>) -> Seq<(u64, u64)> {
    keyed_by_start(rs).sort_by(|a: (u64, u64, u64), b: (u64, u64, u64)| triple_le(a, b)).map_values(
        |t: (u64, u64, u64)| (t.0, t.2),
    )
}

/// Merges two lists sorted by start into `out`, taking from `a` on equal
/// starts, and merging touching ranges with `push_merged`.
pub open spec fn merge_ranges(out: Seq<(u64, u64)>, a: Seq<(u64, u64)>, b: Seq<(u64, u64)>) -> Seq<
    (u64, u64),
>
    decreases a.len() + b.len(),
{
    if a.len() == 0 && b.len() == 0 {
        out
    } else if b.len() == 0 || (a.len() > 0 && a[0].0 <= b[0].0) {
        merge_ranges(push_merged(out, a[0].0, a[0].1), a.drop_first(), b)
    } else {
        merge_ranges(push_merged(out, b[0].0, b[0].1), a, b.drop_first())
    }
}

/// The minimum duration of the shadows of level `b`.
pub open spec fn shadow_target(b: nat) -> u64 {
    let m = level_max_duration(b);
    if m >= 1 {
        m
    } else {
        1
    }
}

/// The entry for depth `d` of a per-depth list (empty beyond its end).
pub open spec fn at_depth(state: Seq<Seq<(u64, u64)>>, d: int) -> Seq<(u64, u64)> {
    if 0 <= d < state.len() {
        state[d]
    } else {
        Seq::empty()
    }
}

/// The number of depths that level `b` deals with.
pub open spec fn shadow_depths(events: Seq<TimelineEvent>, ids: Seq<EventId>, b: nat) -> nat {
    max_nat(shadow_state(events, ids, b).len(), depth_span(events, ids_in_bucket(events, ids, b)))
}

/// Per depth, the merged ranges of all events of the first `n` levels, as
/// carried from one level to the next.
pub open spec fn shadow_state(events: Seq<TimelineEvent>, ids: Seq<EventId>, n: nat) -> Seq<
    Seq<(u64, u64)>,
>
    decreases n,
{
    if n == 0 {
        Seq::empty()
    } else {
        let b = (n - 1) as nat;
        let prev = shadow_state(events, ids, b);
        let level = ids_in_bucket(events, ids, b);
        let target = shadow_target(b);
        let count = max_nat(prev.len(), depth_span(events, level));
        Seq::new(
            count,
            |d: int|
                merge_ranges(
                    Seq::empty(),
                    reinflate(at_depth(prev, d), target),
                    stable_sort_by_start(level_ranges_at_depth(events, level, target, d as nat)),
                ),
        )
    }
}

/// The shadows of level `b`, per depth: the events of all shorter levels,
/// stretched to the level's minimum duration and merged.
pub open spec fn level_shadows(events: Seq<TimelineEvent>, ids: Seq<EventId>, b: nat) -> Seq<
    Seq<(u64, u64)>,
> {
    let prev = shadow_state(events, ids, b);
    Seq::new(shadow_depths(events, ids, b), |d: int| reinflate(at_depth(prev, d), shadow_target(b)))
}

/// A level built from the listed events is level `b` of their split.
pub open spec fn mipmap_matches(
    events: Seq<TimelineEvent>,
    ids: Seq<EventId>,
    b: nat,
    m: ThreadGroupMipMap,
) -> bool {
    &&& m.max_duration_ns == level_max_duration(b)
    &&& m.events@ == ids_in_bucket(events, ids, b)
    &&& event_tree_contents(m.events_tree) == tree_items(events, m.events@).to_multiset()
    &&& m.shadows.levels@.len() == level_shadows(events, ids, b).len()
    &&& forall|d: int|
        0 <= d < m.shadows.levels@.len() ==> shadow_tree_contents(
            (#[trigger] m.shadows.levels@[d]).events_tree,
        ) == level_shadows(events, ids, b)[d].to_multiset()
}

/// The contents of each per-depth vector.
pub open spec fn deep(v: Seq<Vec<(u64, u64)>>) -> Seq<Seq<(u64, u64)>> {
    v.map_values(|x: Vec<(u64, u64)>| x@)
}

fn inflated_end_exec(start: u64, duration: u64, target: u64) -> (r: u64)
    ensures
        r == inflated_end(start, duration, target),
{
    let d = if duration >= target { duration } else { target };
    let inflated = if d >= 1 { d } else { 1 };
    let e1 = start.saturating_add(inflated);
    let e2 = start.saturating_add(1);
    if e1 >= e2 {
        e1
    } else {
        e2
    }
}

fn push_merged_exec(out: &mut Vec<(u64, u64)>, start: u64, end: u64)
    ensures
        final(out)@ == push_merged(old(out)@, start, end),
{
    let n = out.len();
    if n > 0 && start <= out[n - 1].1 {
        let last = out[n - 1];
        let new_end = if last.1 >= end { last.1 } else { end };
        out.set(n - 1, (last.0, new_end));
    } else {
        out.push((start, end));
    }
}

fn reinflate_exec(ranges: &Vec<(u64, u64)>, target: u64) -> (r: Vec<(u64, u64)>)
    ensures
        r@ == reinflate(ranges@, target),
{
    let mut out: Vec<(u64, u64)> = Vec::new();
    let mut k: usize = 0;
    while k < ranges.len()
        invariant
            k <= ranges@.len(),
            out@ == reinflate(ranges@.take(k as int), target),
        decreases ranges@.len() - k,
    {
        let (start, end) = ranges[k];
        let d = end.saturating_sub(start);
        let duration = if d >= 1 { d } else { 1 };
        let new_end = inflated_end_exec(start, duration, target);
        assert(ranges@.take(k + 1).drop_last() =~= ranges@.take(k as int));
        push_merged_exec(&mut out, start, new_end);
        k = k + 1;
    }
    assert(ranges@.take(ranges@.len() as int) =~= ranges@);
    out
}

/// The stretched ranges of the listed events, per depth, in list order.
fn level_depth_ranges(events: &Vec<TimelineEvent>, ids: &Vec<EventId>, target: u64) -> (r: Vec<
    Vec<(u64, u64)>,
>)
    requires
        ids_in_range(events@, ids@),
    ensures
        r@.len() == depth_span(events@, ids@),
        forall|d: int|
            0 <= d < r@.len() ==> (#[trigger] r@[d])@ == level_ranges_at_depth(
                events@,
                ids@,
                target,
                d as nat,
            ),
{
    let mut by_depth: Vec<Vec<(u64, u64)>> = Vec::new();
    let mut k: usize = 0;
    while k < ids.len()
        invariant
            ids_in_range(events@, ids@),
            k <= ids@.len(),
            by_depth@.len() == depth_span(events@, ids@.take(k as int)),
            forall|d: int|
                0 <= d < by_depth@.len() ==> (#[trigger] by_depth@[d])@ == level_ranges_at_depth(
                    events@,
                    ids@.take(k as int),
                    target,
                    d as nat,
                ),
        decreases ids@.len() - k,
    {
        let id = ids[k];
        let ghost prefix = ids@.take(k as int);
        let ghost next = ids@.take(k + 1);
        assert(next.drop_last() =~= prefix);
        assert(next.last() == id);
        let event = &events[id.index()];
        let start = event.start_ns;
        let end = inflated_end_exec(start, event.duration_ns, target);
        let depth = event.depth as usize;
        while by_depth.len() <= depth
            invariant
                by_depth@.len() <= max_nat(depth_span(events@, prefix), (depth + 1) as nat),
                by_depth@.len() >= depth_span(events@, prefix),
                forall|d: int|
                    0 <= d < by_depth@.len() ==> (#[trigger] by_depth@[d])@ == level_ranges_at_depth(
                        events@,
                        prefix,
                        target,
                        d as nat,
                    ),
            decreases depth + 1 - by_depth@.len(),
        {
            proof {
                lemma_depth_beyond_span(events@, prefix, target, by_depth@.len() as nat);
            }
            by_depth.push(Vec::new());
        }
        by_depth[depth].push((start, end));
        proof {
            assert forall|d: int| 0 <= d < by_depth@.len() implies (#[trigger] by_depth@[d])@
                == level_ranges_at_depth(events@, next, target, d as nat) by {}
        }
        k = k + 1;
    }
    assert(ids@.take(ids@.len() as int) =~= ids@);
    by_depth
}

proof fn lemma_depth_beyond_span(events: Seq<TimelineEvent>, ids: Seq<EventId>, target: u64, d: nat)
    requires
        d >= depth_span(events, ids),
    ensures
        level_ranges_at_depth(events, ids, target, d) == Seq::<(u64, u64)>::empty(),
    decreases ids.len(),
{
    if ids.len() > 0 {
        lemma_depth_beyond_span(events, ids.drop_last(), target, d);
    }
}

/// Orders ranges by start, keeping ties in their order.
fn sort_by_start(ranges: &Vec<(u64, u64)>) -> (r: Vec<(u64, u64)>)
    ensures
        r@ == stable_sort_by_start(ranges@),
{
    let mut keyed: Vec<(u64, u64, u64)> = Vec::new();
    let mut k: usize = 0;
    while k < ranges.len()
        invariant
            k <= ranges@.len(),
            keyed@ =~= keyed_by_start(ranges@).take(k as int),
        decreases ranges@.len() - k,
    {
        let (start, end) = ranges[k];
        keyed.push((start, k as u64, end));
        k = k + 1;
    }
    assert(keyed@ =~= keyed_by_start(ranges@));
    let sorted = sort_triples(&keyed);
    let mut out: Vec<(u64, u64)> = Vec::new();
    let mut k: usize = 0;
    while k < sorted.len()
        invariant
            k <= sorted@.len(),
            out@ =~= sorted@.take(k as int).map_values(|t: (u64, u64, u64)| (t.0, t.2)),
        decreases sorted@.len() - k,
    {
        let t = sorted[k];
        out.push((t.0, t.2));
        k = k + 1;
    }
    assert(sorted@.take(sorted@.len() as int) =~= sorted@);
    out
}

fn merge_exec(a: &Vec<(u64, u64)>, b: &Vec<(u64, u64)>) -> (r: Vec<(u64, u64)>)
    ensures
        r@ == merge_ranges(Seq::empty(), a@, b@),
{
    let mut out: Vec<(u64, u64)> = Vec::new();
    let mut i: usize = 0;
    let mut j: usize = 0;
    assert(a@.skip(0) =~= a@);
    assert(b@.skip(0) =~= b@);
    while i < a.len() || j < b.len()
        invariant
            i <= a@.len(),
            j <= b@.len(),
            merge_ranges(out@, a@.skip(i as int), b@.skip(j as int)) == merge_ranges(
                Seq::empty(),
                a@,
                b@,
            ),
        decreases a@.len() + b@.len() - i - j,
    {
        if j >= b.len() || (i < a.len() && a[i].0 <= b[j].0) {
            assert(a@.skip(i as int).drop_first() =~= a@.skip(i + 1));
            let (s, e) = a[i];
            push_merged_exec(&mut out, s, e);
            i = i + 1;
        } else {
            assert(b@.skip(j as int).drop_first() =~= b@.skip(j + 1));
            let (s, e) = b[j];
            push_merged_exec(&mut out, s, e);
            j = j + 1;
        }
    }
    assert(a@.skip(i as int) =~= Seq::<(u64, u64)>::empty());
    assert(b@.skip(j as int) =~= Seq::<(u64, u64)>::empty());
    out
}

/// Builds the duration levels of the listed events.
///
/// Level `b` holds, in list order, the events whose duration `d` satisfies
/// `2^b <= max(d, 1) < 2^(b+1)`; its `max_duration_ns` is `2^(b+1) - 1`
/// (`u64::MAX` for the top level). Levels between populated ones are kept,
/// empty, so that shadows have intermediate levels to grow through.
pub fn build_thread_group_mipmaps(events: &Vec<TimelineEvent>, event_ids: &Vec<EventId>) -> (r: Vec<
    ThreadGroupMipMap,
>)
    requires
        ids_in_range(events@, event_ids@),
    ensures
        r@.len() == level_count(events@, event_ids@),
        forall|b: int| 0 <= b < r@.len() ==> mipmap_matches(events@, event_ids@, b as nat, #[trigger] r@[b]),
{
    if event_ids.len() == 0 {
        return Vec::new();
    }
    let mut buckets = split_into_buckets(events, event_ids);
    let ghost all_buckets = buckets@;
    let count = buckets.len();
    proof {
        lemma_level_count_bound(events@, event_ids@);
    }
    let mut mipmaps: Vec<ThreadGroupMipMap> = Vec::new();
    let mut level: usize = 0;
    while level < count
        invariant
            ids_in_range(events@, event_ids@),
            count == level_count(events@, event_ids@),
            count <= 64,
            level <= count,
            mipmaps@.len() == level,
            buckets@ =~= all_buckets.skip(level as int),
            all_buckets.len() == count,
            forall|b: int|
                0 <= b < count ==> (#[trigger] all_buckets[b])@ == ids_in_bucket(events@, event_ids@, b as nat),
            forall|b: int|
                0 <= b < level ==> {
                    &&& (#[trigger] mipmaps@[b]).max_duration_ns == level_max_duration(b as nat)
                    &&& mipmaps@[b].events@ == ids_in_bucket(events@, event_ids@, b as nat)
                    &&& event_tree_contents(mipmaps@[b].events_tree) == tree_items(
                        events@,
                        mipmaps@[b].events@,
                    ).to_multiset()
                },
        decreases count - level,
    {
        proof {
            lemma_level_count_bound(events@, event_ids@);
        }
        let bucket_events = buckets.remove(0);
        assert(bucket_events@ == all_buckets[level as int]@);
        let max_duration_ns = level_max_duration_exec(level as u32);
        let events_tree = if bucket_events.len() == 0 {
            let t = event_tree_from_ranges(Vec::new());
            assert(tree_items(events@, bucket_events@) =~= Seq::<(u64, u64, u32)>::empty());
            assert(Seq::<(u64, u64, EventId)>::empty().map_values(
                |x: (u64, u64, EventId)| crate::tree::plain_event_range(x),
            ) =~= Seq::<(u64, u64, u32)>::empty());
            t
        } else {
            proof {
                assert forall|k: int| 0 <= k < bucket_events@.len() implies (#[trigger] bucket_events@[k]).0
                    < events@.len() by {
                    lemma_bucket_ids_in_range(events@, event_ids@, level as nat, k);
                }
            }
            let (_events_by_start, _events_by_end, t) = build_event_indices(events, &bucket_events);
            t
        };
        mipmaps.push(
            ThreadGroupMipMap {
                max_duration_ns,
                events: bucket_events,
                shadows: ThreadGroupMipMapShadows { levels: Vec::new() },
                events_tree,
            },
        );
        level = level + 1;
    }
    add_shadows(events, event_ids, &mut mipmaps);
    mipmaps
}

proof fn lemma_level_count_bound(events: Seq<TimelineEvent>, ids: Seq<EventId>)
    ensures
        level_count(events, ids) <= 64,
    decreases ids.len(),
{
    if ids.len() > 0 {
        lemma_level_count_bound(events, ids.drop_last());
        lemma_bucket_of_bound(events[ids.last().0 as int].duration_ns);
    }
}

proof fn lemma_bucket_of_bound(d: u64)
    ensures
        bucket_of(d) < 64,
{
    let n: nat = if d == 0 { 1 } else { d as nat };
    crate::data::law_bucket_bounds(n);
    if bucket_of(d) >= 64 {
        if bucket_of(d) > 64 {
            vstd::arithmetic::power2::lemma_pow2_strictly_increases(64, bucket_of(d));
        }
        vstd::arithmetic::power2::lemma2_to64_rest();
    }
}

proof fn lemma_bucket_ids_in_range(events: Seq<TimelineEvent>, ids: Seq<EventId>, b: nat, k: int)
    requires
        ids_in_range(events, ids),
        0 <= k < ids_in_bucket(events, ids, b).len(),
    ensures
        ids_in_bucket(events, ids, b)[k].0 < events.len(),
    decreases ids.len(),
{
    if ids.len() > 0 {
        let rest = ids_in_bucket(events, ids.drop_last(), b);
        assert(ids_in_range(events, ids.drop_last())) by {
            assert forall|j: int| 0 <= j < ids.drop_last().len() implies (#[trigger] ids.drop_last()[j]).0
                < events.len() by {
                assert(ids.drop_last()[j] == ids[j]);
            }
        }
        if k < rest.len() {
            lemma_bucket_ids_in_range(events, ids.drop_last(), b, k);
        } else {
            assert(ids[ids.len() - 1].0 < events.len());
        }
    }
}

proof fn lemma_level_ids_in_range(events: Seq<TimelineEvent>, ids: Seq<EventId>, b: nat)
    requires
        ids_in_range(events, ids),
    ensures
        ids_in_range(events, ids_in_bucket(events, ids, b)),
{
    assert forall|k: int| 0 <= k < ids_in_bucket(events, ids, b).len() implies (#[trigger] ids_in_bucket(
        events,
        ids,
        b,
    )[k]).0 < events.len() by {
        lemma_bucket_ids_in_range(events, ids, b, k);
    }
}

fn shadow_levels_from(ranges: &Vec<Vec<(u64, u64)>>) -> (r: Vec<ShadowLevel>)
    ensures
        r@.len() == ranges@.len(),
        forall|d: int|
            0 <= d < r@.len() ==> shadow_tree_contents((#[trigger] r@[d]).events_tree)
                == ranges@[d]@.to_multiset(),
{
    let mut out: Vec<ShadowLevel> = Vec::new();
    let mut d: usize = 0;
    while d < ranges.len()
        invariant
            d <= ranges@.len(),
            out@.len() == d,
            forall|e: int|
                0 <= e < d ==> shadow_tree_contents((#[trigger] out@[e]).events_tree)
                    == ranges@[e]@.to_multiset(),
        decreases ranges@.len() - d,
    {
        let tree = shadow_tree_from_ranges(&ranges[d]);
        out.push(ShadowLevel { events_tree: tree });
        d = d + 1;
    }
    out
}

/// Fills in the shadows of every level, from the shortest level up.
fn add_shadows(events: &Vec<TimelineEvent>, event_ids: &Vec<EventId>, mipmaps: &mut Vec<ThreadGroupMipMap>)
    requires
        ids_in_range(events@, event_ids@),
        old(mipmaps)@.len() == level_count(events@, event_ids@),
        forall|b: int|
            0 <= b < old(mipmaps)@.len() ==> {
                &&& (#[trigger] old(mipmaps)@[b]).max_duration_ns == level_max_duration(b as nat)
                &&& old(mipmaps)@[b].events@ == ids_in_bucket(events@, event_ids@, b as nat)
                &&& event_tree_contents(old(mipmaps)@[b].events_tree) == tree_items(
                    events@,
                    old(mipmaps)@[b].events@,
                ).to_multiset()
            },
    ensures
        final(mipmaps)@.len() == old(mipmaps)@.len(),
        forall|b: int|
            0 <= b < final(mipmaps)@.len() ==> mipmap_matches(
                events@,
                event_ids@,
                b as nat,
                #[trigger] final(mipmaps)@[b],
            ),
{
    let mut merged_by_depth: Vec<Vec<(u64, u64)>> = Vec::new();
    let mut level: usize = 0;
    let ghost before = mipmaps@;
    while level < mipmaps.len()
        invariant
            ids_in_range(events@, event_ids@),
            mipmaps@.len() == before.len(),
            before.len() == level_count(events@, event_ids@),
            level <= mipmaps@.len(),
            deep(merged_by_depth@) =~= shadow_state(events@, event_ids@, level as nat),
            forall|b: int|
                0 <= b < before.len() ==> {
                    &&& (#[trigger] mipmaps@[b]).max_duration_ns == before[b].max_duration_ns
                    &&& mipmaps@[b].events == before[b].events
                    &&& mipmaps@[b].events_tree == before[b].events_tree
                },
            forall|b: int|
                0 <= b < before.len() ==> {
                    &&& (#[trigger] before[b]).max_duration_ns == level_max_duration(b as nat)
                    &&& before[b].events@ == ids_in_bucket(events@, event_ids@, b as nat)
                    &&& event_tree_contents(before[b].events_tree) == tree_items(
                        events@,
                        before[b].events@,
                    ).to_multiset()
                },
            forall|b: int|
                0 <= b < level ==> mipmap_matches(events@, event_ids@, b as nat, #[trigger] mipmaps@[b]),
        decreases before.len() - level,
    {
        let ghost prev = shadow_state(events@, event_ids@, level as nat);
        let ghost level_ids = ids_in_bucket(events@, event_ids@, level as nat);
        proof {
            lemma_level_ids_in_range(events@, event_ids@, level as nat);
        }
        let max_duration = mipmaps[level].max_duration_ns;
        let target = if max_duration >= 1 { max_duration } else { 1 };
        assert(target == shadow_target(level as nat));
        let mut new_by_depth = level_depth_ranges(events, &mipmaps[level].events, target);
        let depth_count = if merged_by_depth.len() >= new_by_depth.len() {
            merged_by_depth.len()
        } else {
            new_by_depth.len()
        };
        while merged_by_depth.len() < depth_count
            invariant
                merged_by_depth@.len() <= depth_count,
                merged_by_depth@.len() >= prev.len(),
                forall|d: int|
                    0 <= d < merged_by_depth@.len() ==> (#[trigger] merged_by_depth@[d])@ == at_depth(prev, d),
            decreases depth_count - merged_by_depth@.len(),
        {
            merged_by_depth.push(Vec::new());
        }
        while new_by_depth.len() < depth_count
            invariant
                new_by_depth@.len() <= depth_count,
                new_by_depth@.len() >= depth_span(events@, level_ids),
                forall|d: int|
                    0 <= d < new_by_depth@.len() ==> (#[trigger] new_by_depth@[d])@
                        == level_ranges_at_depth(events@, level_ids, target, d as nat),
            decreases depth_count - new_by_depth@.len(),
        {
            proof {
                lemma_depth_beyond_span(events@, level_ids, target, new_by_depth@.len() as nat);
            }
            new_by_depth.push(Vec::new());
        }
        // Re-inflate the previous shadows to the new minimum duration.
        let mut reinflated_by_depth: Vec<Vec<(u64, u64)>> = Vec::new();
        let mut d: usize = 0;
        while d < depth_count
            invariant
                d <= depth_count,
                merged_by_depth@.len() == depth_count,
                reinflated_by_depth@.len() == d,
                forall|e: int|
                    0 <= e < depth_count ==> (#[trigger] merged_by_depth@[e])@ == at_depth(prev, e),
                forall|e: int|
                    0 <= e < d ==> (#[trigger] reinflated_by_depth@[e])@ == reinflate(
                        at_depth(prev, e),
                        target,
                    ),
            decreases depth_count - d,
        {
            let r = reinflate_exec(&merged_by_depth[d], target);
            reinflated_by_depth.push(r);
            d = d + 1;
        }
        // The shadows of this level are those of the shorter levels only.
        let shadow_levels = shadow_levels_from(&reinflated_by_depth);
        mipmaps[level].shadows = ThreadGroupMipMapShadows { levels: shadow_levels };
        proof {
            assert(depth_count == shadow_depths(events@, event_ids@, level as nat));
            let ls = level_shadows(events@, event_ids@, level as nat);
            assert forall|e: int| 0 <= e < mipmaps@[level as int].shadows.levels@.len() implies shadow_tree_contents(
                (#[trigger] mipmaps@[level as int].shadows.levels@[e]).events_tree,
            ) == ls[e].to_multiset() by {}
            assert(mipmap_matches(events@, event_ids@, level as nat, mipmaps@[level as int]));
        }
        // Merge this level's events in, for the levels above.
        let mut d: usize = 0;
        while d < depth_count
            invariant
                d <= depth_count,
                merged_by_depth@.len() == depth_count,
                new_by_depth@.len() == depth_count,
                reinflated_by_depth@.len() == depth_count,
                forall|e: int|
                    0 <= e < depth_count ==> (#[trigger] reinflated_by_depth@[e])@ == reinflate(
                        at_depth(prev, e),
                        target,
                    ),
                forall|e: int|
                    0 <= e < depth_count ==> (#[trigger] new_by_depth@[e])@ == level_ranges_at_depth(
                        events@,
                        level_ids,
                        target,
                        e as nat,
                    ),
                forall|e: int|
                    0 <= e < d ==> (#[trigger] merged_by_depth@[e])@ == merge_ranges(
                        Seq::empty(),
                        reinflate(at_depth(prev, e), target),
                        stable_sort_by_start(level_ranges_at_depth(events@, level_ids, target, e as nat)),
                    ),
            decreases depth_count - d,
        {
            let sorted_new = sort_by_start(&new_by_depth[d]);
            let merged = merge_exec(&reinflated_by_depth[d], &sorted_new);
            merged_by_depth.set(d, merged);
            d = d + 1;
        }
        proof {
            assert(deep(merged_by_depth@) =~= shadow_state(events@, event_ids@, (level + 1) as nat));
        }
        level = level + 1;
    }
}

/// Each listed event lies in exactly one level, the level of its duration:
/// it is among the events of level `b` just when `b` is its bucket.
pub proof fn law_levels_partition(events: Seq<TimelineEvent>, ids: Seq<EventId>, id: EventId, b: nat)
    ensures
        ids_in_bucket(events, ids, b).contains(id) <==> (ids.contains(id) && bucket_of(
            events[id.0 as int].duration_ns,
        ) == b),
    decreases ids.len(),
{
    if ids.len() > 0 {
        let rest = ids.drop_last();
        law_levels_partition(events, rest, id, b);
        let inner = ids_in_bucket(events, rest, b);
        if ids.contains(id) && id != ids.last() {
            let k = choose|k: int| 0 <= k < ids.len() && ids[k] == id;
            assert(rest[k] == id);
        }
        if rest.contains(id) {
            let k = choose|k: int| 0 <= k < rest.len() && rest[k] == id;
            assert(ids[k] == id);
        }
        if bucket_of(events[ids.last().0 as int].duration_ns) == b {
            let out = inner.push(ids.last());
            assert(out[out.len() - 1] == ids.last());
            if inner.contains(id) {
                let k = choose|k: int| 0 <= k < inner.len() && inner[k] == id;
                assert(out[k] == id);
            }
            if out.contains(id) && id != ids.last() {
                let k = choose|k: int| 0 <= k < out.len() && out[k] == id;
                assert(inner[k] == id);
            }
        }
        assert(ids[ids.len() - 1] == ids.last());
    }
}

// ---------------------------------------------------------------------------
// What the shadows keep
// ---------------------------------------------------------------------------

/// Ranges that are well formed (none starts after it ends) and apart: each
/// ends before the next one starts.
pub open spec fn apart(rs: Seq<(u64, u64)>) -> bool {
    &&& forall|i: int| 0 <= i < rs.len() ==> (#[trigger] rs[i]).0 <= rs[i].1
    &&& forall|i: int, j: int| 0 <= i < j < rs.len() ==> (#[trigger] rs[i]).1 < (#[trigger] rs[j]).0
}

/// Ranges ordered by start.
pub open spec fn starts_sorted(rs: Seq<(u64, u64)>) -> bool {
    forall|i: int, j: int| 0 <= i < j < rs.len() ==> (#[trigger] rs[i]).0 <= (#[trigger] rs[j]).0
}

/// Well-formed ranges: none starts after it ends.
pub open spec fn well_formed(rs: Seq<(u64, u64)>) -> bool {
    forall|i: int| 0 <= i < rs.len() ==> (#[trigger] rs[i]).0 <= rs[i].1
}

proof fn lemma_inflated_end_after(start: u64, duration: u64, target: u64)
    ensures
        start <= inflated_end(start, duration, target),
{
}

proof fn lemma_push_merged_apart(out: Seq<(u64, u64)>, start: u64, end: u64)
    requires
        apart(out),
        start <= end,
        out.len() > 0 ==> out.last().0 <= start,
    ensures
        apart(push_merged(out, start, end)),
        push_merged(out, start, end).len() > 0,
        push_merged(out, start, end).last().0 <= start,
{
    let r = push_merged(out, start, end);
    if out.len() > 0 && start <= out.last().1 {
        let last = out.last();
        assert forall|i: int, j: int| 0 <= i < j < r.len() implies (#[trigger] r[i]).1 < (#[trigger] r[j]).0 by {
            assert(out[i].1 < out[j].0);
        }
    } else {
        assert forall|i: int, j: int| 0 <= i < j < r.len() implies (#[trigger] r[i]).1 < (#[trigger] r[j]).0 by {
            if j == out.len() {
                if i < out.len() - 1 {
                    assert(out[i].1 < out[out.len() - 1].0);
                    assert(out[out.len() - 1].0 <= out[out.len() - 1].1);
                }
            } else {
                assert(out[i].1 < out[j].0);
            }
        }
    }
}

proof fn lemma_reinflate_apart(rs: Seq<(u64, u64)>, target: u64)
    requires
        starts_sorted(rs),
    ensures
        apart(reinflate(rs, target)),
        rs.len() > 0 ==> reinflate(rs, target).len() > 0 && reinflate(rs, target).last().0 <= rs.last().0,
    decreases rs.len(),
{
    if rs.len() > 0 {
        let init = rs.drop_last();
        assert(starts_sorted(init)) by {
            assert forall|i: int, j: int| 0 <= i < j < init.len() implies (#[trigger] init[i]).0 <= (
            #[trigger] init[j]).0 by {
                assert(rs[i].0 <= rs[j].0);
            }
        }
        lemma_reinflate_apart(init, target);
        let r = rs.last();
        let d = sat_sub(r.1, r.0);
        let dur = if d >= 1 { d } else { 1 };
        lemma_inflated_end_after(r.0, dur, target);
        if init.len() > 0 {
            assert(rs[init.len() - 1].0 <= rs[rs.len() - 1].0);
        }
        lemma_push_merged_apart(reinflate(init, target), r.0, inflated_end(r.0, dur, target));
    }
}

proof fn lemma_merge_ranges_apart(out: Seq<(u64, u64)>, a: Seq<(u64, u64)>, b: Seq<(u64, u64)>)
    requires
        apart(out),
        starts_sorted(a),
        well_formed(a),
        starts_sorted(b),
        well_formed(b),
        out.len() > 0 && a.len() > 0 ==> out.last().0 <= a[0].0,
        out.len() > 0 && b.len() > 0 ==> out.last().0 <= b[0].0,
    ensures
        apart(merge_ranges(out, a, b)),
    decreases a.len() + b.len(),
{
    if a.len() == 0 && b.len() == 0 {
    } else if b.len() == 0 || (a.len() > 0 && a[0].0 <= b[0].0) {
        lemma_push_merged_apart(out, a[0].0, a[0].1);
        let rest = a.drop_first();
        assert(starts_sorted(rest) && well_formed(rest)) by {
            assert forall|i: int, j: int| 0 <= i < j < rest.len() implies (#[trigger] rest[i]).0 <= (
            #[trigger] rest[j]).0 by {
                assert(a[i + 1].0 <= a[j + 1].0);
            }
            assert forall|i: int| 0 <= i < rest.len() implies (#[trigger] rest[i]).0 <= rest[i].1 by {
                assert(a[i + 1].0 <= a[i + 1].1);
            }
        }
        if rest.len() > 0 {
            assert(a[0].0 <= a[1].0);
        }
        lemma_merge_ranges_apart(push_merged(out, a[0].0, a[0].1), rest, b);
    } else {
        lemma_push_merged_apart(out, b[0].0, b[0].1);
        let rest = b.drop_first();
        assert(starts_sorted(rest) && well_formed(rest)) by {
            assert forall|i: int, j: int| 0 <= i < j < rest.len() implies (#[trigger] rest[i]).0 <= (
            #[trigger] rest[j]).0 by {
                assert(b[i + 1].0 <= b[j + 1].0);
            }
            assert forall|i: int| 0 <= i < rest.len() implies (#[trigger] rest[i]).0 <= rest[i].1 by {
                assert(b[i + 1].0 <= b[i + 1].1);
            }
        }
        if rest.len() > 0 {
            assert(b[0].0 <= b[1].0);
        }
        lemma_merge_ranges_apart(push_merged(out, b[0].0, b[0].1), a, rest);
    }
}

proof fn lemma_level_ranges_well_formed(events: Seq<TimelineEvent>, ids: Seq<EventId>, target: u64, d: nat)
    ensures
        well_formed(level_ranges_at_depth(events, ids, target, d)),
    decreases ids.len(),
{
    if ids.len() > 0 {
        lemma_level_ranges_well_formed(events, ids.drop_last(), target, d);
        let e = events[ids.last().0 as int];
        lemma_inflated_end_after(e.start_ns, e.duration_ns, target);
    }
}

proof fn lemma_stable_sort_by_start(rs: Seq<(u64, u64)>)
    requires
        well_formed(rs),
    ensures
        starts_sorted(stable_sort_by_start(rs)),
        well_formed(stable_sort_by_start(rs)),
{
    let keyed = keyed_by_start(rs);
    let le = |a: (u64, u64, u64), b: (u64, u64, u64)| triple_le(a, b);
    crate::sort::lemma_triple_le_total_preorder();
    keyed.lemma_sort_by_ensures(le);
    let sorted = keyed.sort_by(le);
    let out = stable_sort_by_start(rs);
    assert(sorted.len() == keyed.len()) by {
        sorted.to_multiset_ensures();
        keyed.to_multiset_ensures();
    }
    assert forall|i: int, j: int| 0 <= i < j < out.len() implies (#[trigger] out[i]).0 <= (#[trigger] out[j]).0 by {
        assert(le(sorted[i], sorted[j]));
    }
    assert forall|i: int| 0 <= i < out.len() implies (#[trigger] out[i]).0 <= out[i].1 by {
        vstd::seq_lib::to_multiset_contains(sorted, sorted[i]);
        vstd::seq_lib::to_multiset_contains(keyed, sorted[i]);
        let a = choose|a: int| 0 <= a < keyed.len() && keyed[a] == sorted[i];
        assert(rs[a].0 <= rs[a].1);
    }
}

proof fn lemma_apart_sorted(rs: Seq<(u64, u64)>)
    requires
        apart(rs),
    ensures
        starts_sorted(rs),
        well_formed(rs),
{
    assert forall|i: int, j: int| 0 <= i < j < rs.len() implies (#[trigger] rs[i]).0 <= (#[trigger] rs[j]).0 by {
        assert(rs[i].0 <= rs[i].1);
        assert(rs[i].1 < rs[j].0);
    }
}

proof fn lemma_shadow_state_apart(events: Seq<TimelineEvent>, ids: Seq<EventId>, n: nat)
    ensures
        forall|d: int| 0 <= d < shadow_state(events, ids, n).len() ==> apart(#[trigger] shadow_state(events, ids, n)[d]),
    decreases n,
{
    if n > 0 {
        let b = (n - 1) as nat;
        lemma_shadow_state_apart(events, ids, b);
        let prev = shadow_state(events, ids, b);
        let level = ids_in_bucket(events, ids, b);
        let target = shadow_target(b);
        assert forall|d: int| 0 <= d < shadow_state(events, ids, n).len() implies apart(
            #[trigger] shadow_state(events, ids, n)[d],
        ) by {
            let a = reinflate(at_depth(prev, d), target);
            let lr = level_ranges_at_depth(events, level, target, d as nat);
            if 0 <= d < prev.len() {
                lemma_apart_sorted(prev[d]);
            }
            lemma_reinflate_apart(at_depth(prev, d), target);
            lemma_apart_sorted(a);
            lemma_level_ranges_well_formed(events, level, target, d as nat);
            lemma_stable_sort_by_start(lr);
            lemma_merge_ranges_apart(Seq::empty(), a, stable_sort_by_start(lr));
        }
    }
}

/// At every depth of every level, the shadows are well formed and apart:
/// ordered by start, each ending before the next one starts.
pub proof fn law_shadows_apart(events: Seq<TimelineEvent>, ids: Seq<EventId>, b: nat, d: int)
    requires
        0 <= d < level_shadows(events, ids, b).len(),
    ensures
        apart(level_shadows(events, ids, b)[d]),
{
    let prev = shadow_state(events, ids, b);
    lemma_shadow_state_apart(events, ids, b);
    if 0 <= d < prev.len() {
        lemma_apart_sorted(prev[d]);
    }
    lemma_reinflate_apart(at_depth(prev, d), shadow_target(b));
}


/// Each range reaches at least `target` past its start (capped at `u64::MAX`).
pub open spec fn spans_at_least(rs: Seq<(u64, u64)>, target: u64) -> bool {
    forall|i: int| 0 <= i < rs.len() ==> (#[trigger] rs[i]).1 >= sat_add(rs[i].0, target)
}

proof fn lemma_push_merged_spans(out: Seq<(u64, u64)>, start: u64, end: u64, target: u64)
    requires
        spans_at_least(out, target),
        end >= sat_add(start, target),
    ensures
        spans_at_least(push_merged(out, start, end), target),
{
    let r = push_merged(out, start, end);
    assert forall|i: int| 0 <= i < r.len() implies (#[trigger] r[i]).1 >= sat_add(r[i].0, target) by {
        if i < out.len() {
            assert(out[i].1 >= sat_add(out[i].0, target));
        }
    }
}

proof fn lemma_reinflate_spans(rs: Seq<(u64, u64)>, target: u64)
    ensures
        spans_at_least(reinflate(rs, target), target),
    decreases rs.len(),
{
    if rs.len() > 0 {
        lemma_reinflate_spans(rs.drop_last(), target);
        let r = rs.last();
        let d = sat_sub(r.1, r.0);
        lemma_push_merged_spans(
            reinflate(rs.drop_last(), target),
            r.0,
            inflated_end(r.0, if d >= 1 { d } else { 1 }, target),
            target,
        );
    }
}

/// Every shadow of level `b` reaches at least the level's minimum duration
/// past its start (capped at the end of time).
pub proof fn law_shadows_reach_target(events: Seq<TimelineEvent>, ids: Seq<EventId>, b: nat, d: int)
    requires
        0 <= d < level_shadows(events, ids, b).len(),
    ensures
        spans_at_least(level_shadows(events, ids, b)[d], shadow_target(b)),
{
    lemma_reinflate_spans(at_depth(shadow_state(events, ids, b), d), shadow_target(b));
}

/// Some range of `rs` covers `start..end`.
pub open spec fn covers(rs: Seq<(u64, u64)>, start: u64, end: u64) -> bool {
    exists|k: int| 0 <= k < rs.len() && (#[trigger] rs[k]).0 <= start && end <= rs[k].1
}

/// Every range of `a` is covered by a range of `rs`.
pub open spec fn covers_all(rs: Seq<(u64, u64)>, a: Seq<(u64, u64)>) -> bool {
    forall|i: int| 0 <= i < a.len() ==> covers(rs, (#[trigger] a[i]).0, a[i].1)
}

proof fn lemma_covers_trans(rs: Seq<(u64, u64)>, rs2: Seq<(u64, u64)>, start: u64, end: u64)
    requires
        covers(rs, start, end),
        covers_all(rs2, rs),
    ensures
        covers(rs2, start, end),
{
    let k = choose|k: int| 0 <= k < rs.len() && (#[trigger] rs[k]).0 <= start && end <= rs[k].1;
    assert(covers(rs2, rs[k].0, rs[k].1));
    let k2 = choose|k2: int| 0 <= k2 < rs2.len() && (#[trigger] rs2[k2]).0 <= rs[k].0 && rs[k].1 <= rs2[k2].1;
    assert(rs2[k2].0 <= start && end <= rs2[k2].1);
}

proof fn lemma_covers_all_trans(rs: Seq<(u64, u64)>, rs2: Seq<(u64, u64)>, a: Seq<(u64, u64)>)
    requires
        covers_all(rs, a),
        covers_all(rs2, rs),
    ensures
        covers_all(rs2, a),
{
    assert forall|i: int| 0 <= i < a.len() implies covers(rs2, (#[trigger] a[i]).0, a[i].1) by {
        lemma_covers_trans(rs, rs2, a[i].0, a[i].1);
    }
}

proof fn lemma_push_merged_covers(out: Seq<(u64, u64)>, start: u64, end: u64)
    requires
        out.len() > 0 ==> out.last().0 <= start,
    ensures
        covers(push_merged(out, start, end), start, end),
        covers_all(push_merged(out, start, end), out),
{
    let r = push_merged(out, start, end);
    if out.len() > 0 && start <= out.last().1 {
        let n = out.len() - 1;
        assert(r[n].0 <= start && end <= r[n].1);
        assert forall|i: int| 0 <= i < out.len() implies covers(r, (#[trigger] out[i]).0, out[i].1) by {
            assert(r[i].0 <= out[i].0 && out[i].1 <= r[i].1);
        }
    } else {
        assert(r[out.len() as int] == (start, end));
        assert forall|i: int| 0 <= i < out.len() implies covers(r, (#[trigger] out[i]).0, out[i].1) by {
            assert(r[i] == out[i]);
        }
    }
}

proof fn lemma_reinflate_covers(rs: Seq<(u64, u64)>, target: u64)
    requires
        starts_sorted(rs),
        well_formed(rs),
    ensures
        covers_all(reinflate(rs, target), rs),
    decreases rs.len(),
{
    if rs.len() > 0 {
        let init = rs.drop_last();
        assert(starts_sorted(init) && well_formed(init)) by {
            assert forall|i: int, j: int| 0 <= i < j < init.len() implies (#[trigger] init[i]).0 <= (
            #[trigger] init[j]).0 by {
                assert(rs[i].0 <= rs[j].0);
            }
            assert forall|i: int| 0 <= i < init.len() implies (#[trigger] init[i]).0 <= init[i].1 by {
                assert(rs[i].0 <= rs[i].1);
            }
        }
        lemma_reinflate_covers(init, target);
        lemma_reinflate_apart(init, target);
        let r = rs.last();
        let d = sat_sub(r.1, r.0);
        let dur = if d >= 1 { d } else { 1 };
        let ie = inflated_end(r.0, dur, target);
        if init.len() > 0 {
            assert(rs[init.len() - 1].0 <= rs[rs.len() - 1].0);
        }
        let pre = reinflate(init, target);
        lemma_push_merged_covers(pre, r.0, ie);
        let out = reinflate(rs, target);
        assert(out == push_merged(pre, r.0, ie));
        lemma_covers_all_trans(pre, out, init);
        assert(rs[rs.len() - 1].0 <= rs[rs.len() - 1].1);
        assert(ie >= r.1);
        assert forall|i: int| 0 <= i < rs.len() implies covers(out, (#[trigger] rs[i]).0, rs[i].1) by {
            if i < init.len() {
                assert(rs[i] == init[i]);
            } else {
                let k = choose|k: int| 0 <= k < out.len() && (#[trigger] out[k]).0 <= r.0 && ie <= out[k].1;
                assert(out[k].0 <= rs[i].0 && rs[i].1 <= out[k].1);
            }
        }
    }
}

proof fn lemma_merge_ranges_covers(out: Seq<(u64, u64)>, a: Seq<(u64, u64)>, b: Seq<(u64, u64)>)
    requires
        apart(out),
        starts_sorted(a),
        well_formed(a),
        starts_sorted(b),
        well_formed(b),
        out.len() > 0 && a.len() > 0 ==> out.last().0 <= a[0].0,
        out.len() > 0 && b.len() > 0 ==> out.last().0 <= b[0].0,
    ensures
        covers_all(merge_ranges(out, a, b), out),
        covers_all(merge_ranges(out, a, b), a),
        covers_all(merge_ranges(out, a, b), b),
    decreases a.len() + b.len(),
{
    let m = merge_ranges(out, a, b);
    if a.len() == 0 && b.len() == 0 {
        assert forall|i: int| 0 <= i < out.len() implies covers(m, (#[trigger] out[i]).0, out[i].1) by {
            assert(m[i] == out[i]);
        }
    } else if b.len() == 0 || (a.len() > 0 && a[0].0 <= b[0].0) {
        lemma_push_merged_apart(out, a[0].0, a[0].1);
        lemma_push_merged_covers(out, a[0].0, a[0].1);
        let next = push_merged(out, a[0].0, a[0].1);
        let rest = a.drop_first();
        assert(starts_sorted(rest) && well_formed(rest)) by {
            assert forall|i: int, j: int| 0 <= i < j < rest.len() implies (#[trigger] rest[i]).0 <= (
            #[trigger] rest[j]).0 by {
                assert(a[i + 1].0 <= a[j + 1].0);
            }
            assert forall|i: int| 0 <= i < rest.len() implies (#[trigger] rest[i]).0 <= rest[i].1 by {
                assert(a[i + 1].0 <= a[i + 1].1);
            }
        }
        if rest.len() > 0 {
            assert(a[0].0 <= a[1].0);
        }
        lemma_merge_ranges_covers(next, rest, b);
        assert(m == merge_ranges(next, rest, b));
        lemma_covers_all_trans(next, m, out);
        assert forall|i: int| 0 <= i < a.len() implies covers(m, (#[trigger] a[i]).0, a[i].1) by {
            if i == 0 {
                lemma_covers_trans(next, m, a[0].0, a[0].1);
            } else {
                assert(a[i] == rest[i - 1]);
            }
        }
    } else {
        lemma_push_merged_apart(out, b[0].0, b[0].1);
        lemma_push_merged_covers(out, b[0].0, b[0].1);
        let next = push_merged(out, b[0].0, b[0].1);
        let rest = b.drop_first();
        assert(starts_sorted(rest) && well_formed(rest)) by {
            assert forall|i: int, j: int| 0 <= i < j < rest.len() implies (#[trigger] rest[i]).0 <= (
            #[trigger] rest[j]).0 by {
                assert(b[i + 1].0 <= b[j + 1].0);
            }
            assert forall|i: int| 0 <= i < rest.len() implies (#[trigger] rest[i]).0 <= rest[i].1 by {
                assert(b[i + 1].0 <= b[i + 1].1);
            }
        }
        if rest.len() > 0 {
            assert(b[0].0 <= b[1].0);
        }
        lemma_merge_ranges_covers(next, a, rest);
        assert(m == merge_ranges(next, a, rest));
        lemma_covers_all_trans(next, m, out);
        assert forall|i: int| 0 <= i < b.len() implies covers(m, (#[trigger] b[i]).0, b[i].1) by {
            if i == 0 {
                lemma_covers_trans(next, m, b[0].0, b[0].1);
            } else {
                assert(b[i] == rest[i - 1]);
            }
        }
    }
}


proof fn lemma_level_ranges_has(events: Seq<TimelineEvent>, ids: Seq<EventId>, target: u64, id: EventId)
    requires
        ids.contains(id),
    ensures
        ({
            let e = events[id.0 as int];
            level_ranges_at_depth(events, ids, target, e.depth as nat).contains(
                (e.start_ns, inflated_end(e.start_ns, e.duration_ns, target)),
            )
        }),
        events[id.0 as int].depth < depth_span(events, ids),
    decreases ids.len(),
{
    let e = events[id.0 as int];
    let d = e.depth as nat;
    let x = (e.start_ns, inflated_end(e.start_ns, e.duration_ns, target));
    let rest = level_ranges_at_depth(events, ids.drop_last(), target, d);
    if ids.last() == id {
        assert(level_ranges_at_depth(events, ids, target, d) == rest.push(x));
        assert(rest.push(x)[rest.len() as int] == x);
    } else {
        let k = choose|k: int| 0 <= k < ids.len() && ids[k] == id;
        assert(ids.drop_last()[k] == id);
        lemma_level_ranges_has(events, ids.drop_last(), target, id);
        let j = choose|j: int| 0 <= j < rest.len() && rest[j] == x;
        let last = events[ids.last().0 as int];
        if last.depth == d {
            assert(level_ranges_at_depth(events, ids, target, d) == rest.push(
                (last.start_ns, inflated_end(last.start_ns, last.duration_ns, target)),
            ));
            assert(level_ranges_at_depth(events, ids, target, d)[j] == x);
        }
    }
}

proof fn lemma_stable_sort_has(rs: Seq<(u64, u64)>, x: (u64, u64))
    requires
        rs.contains(x),
    ensures
        stable_sort_by_start(rs).contains(x),
{
    let keyed = keyed_by_start(rs);
    let le = |a: (u64, u64, u64), b: (u64, u64, u64)| triple_le(a, b);
    crate::sort::lemma_triple_le_total_preorder();
    keyed.lemma_sort_by_ensures(le);
    let sorted = keyed.sort_by(le);
    let out = stable_sort_by_start(rs);
    assert(sorted.len() == keyed.len()) by {
        sorted.to_multiset_ensures();
        keyed.to_multiset_ensures();
    }
    let i = choose|i: int| 0 <= i < rs.len() && rs[i] == x;
    assert(keyed[i] == (x.0, i as u64, x.1));
    vstd::seq_lib::to_multiset_contains(keyed, keyed[i]);
    vstd::seq_lib::to_multiset_contains(sorted, keyed[i]);
    let j = choose|j: int| 0 <= j < sorted.len() && sorted[j] == keyed[i];
    assert(out[j] == x);
}

/// The merged ranges carried past level `n - 1` cover, at its depth, every
/// event of the levels below `n`.
proof fn lemma_shadow_state_covers(events: Seq<TimelineEvent>, ids: Seq<EventId>, n: nat, c: nat, id: EventId)
    requires
        c < n,
        ids_in_bucket(events, ids, c).contains(id),
    ensures
        ({
            let e = events[id.0 as int];
            &&& e.depth < shadow_state(events, ids, n).len()
            &&& covers(shadow_state(events, ids, n)[e.depth as int], e.start_ns, event_end(e))
        }),
    decreases n,
{
    let e = events[id.0 as int];
    let d = e.depth as int;
    let b = (n - 1) as nat;
    let prev = shadow_state(events, ids, b);
    let level = ids_in_bucket(events, ids, b);
    let target = shadow_target(b);
    let st = shadow_state(events, ids, n);
    let a = reinflate(at_depth(prev, d), target);
    let lr = level_ranges_at_depth(events, level, target, d as nat);
    lemma_shadow_state_apart(events, ids, b);
    if 0 <= d < prev.len() {
        lemma_apart_sorted(prev[d]);
    }
    lemma_reinflate_apart(at_depth(prev, d), target);
    lemma_apart_sorted(a);
    lemma_level_ranges_well_formed(events, level, target, d as nat);
    lemma_stable_sort_by_start(lr);
    lemma_merge_ranges_covers(Seq::empty(), a, stable_sort_by_start(lr));
    if c == b {
        lemma_level_ranges_has(events, level, target, id);
        let x = (e.start_ns, inflated_end(e.start_ns, e.duration_ns, target));
        lemma_stable_sort_has(lr, x);
        let sorted = stable_sort_by_start(lr);
        let j = choose|j: int| 0 <= j < sorted.len() && sorted[j] == x;
        assert(d < st.len());
        assert(st[d] == merge_ranges(Seq::empty(), a, sorted));
        assert(covers(st[d], sorted[j].0, sorted[j].1));
        let k = choose|k: int| 0 <= k < st[d].len() && (#[trigger] st[d][k]).0 <= x.0 && x.1 <= st[d][k].1;
        assert(x.1 >= event_end(e));
        assert(st[d][k].0 <= e.start_ns && event_end(e) <= st[d][k].1);
    } else {
        lemma_shadow_state_covers(events, ids, b, c, id);
        assert(d < st.len());
        assert(st[d] == merge_ranges(Seq::empty(), a, stable_sort_by_start(lr)));
        lemma_reinflate_covers(prev[d], target);
        lemma_covers_trans(prev[d], a, e.start_ns, event_end(e));
        lemma_covers_trans(a, st[d], e.start_ns, event_end(e));
    }
}

/// Every event of a shorter level is covered, at its depth, by a shadow of
/// level `b`: the shadows keep each hidden event in sight.
pub proof fn law_shadows_cover_shorter_levels(
    events: Seq<TimelineEvent>,
    ids: Seq<EventId>,
    b: nat,
    c: nat,
    id: EventId,
)
    requires
        c < b,
        ids_in_bucket(events, ids, c).contains(id),
    ensures
        ({
            let e = events[id.0 as int];
            &&& e.depth < level_shadows(events, ids, b).len()
            &&& covers(level_shadows(events, ids, b)[e.depth as int], e.start_ns, event_end(e))
        }),
{
    let e = events[id.0 as int];
    let d = e.depth as int;
    let prev = shadow_state(events, ids, b);
    lemma_shadow_state_covers(events, ids, b, c, id);
    lemma_shadow_state_apart(events, ids, b);
    lemma_apart_sorted(prev[d]);
    lemma_reinflate_covers(prev[d], shadow_target(b));
    assert(level_shadows(events, ids, b)[d] == reinflate(at_depth(prev, d), shadow_target(b)));
    lemma_covers_trans(prev[d], level_shadows(events, ids, b)[d], e.start_ns, event_end(e));
}


/// The event `id`, stretched to last at least `target`, reaches over `t`.
pub open spec fn in_stretched(events: Seq<TimelineEvent>, id: EventId, target: u64, t: u64) -> bool {
    let e = events[id.0 as int];
    e.start_ns <= t && t <= inflated_end(e.start_ns, e.duration_ns, target)
}

/// `id` is an event at depth `d` of one of the levels below `n`.
pub open spec fn lower_event(events: Seq<TimelineEvent>, ids: Seq<EventId>, n: nat, d: int, id: EventId) -> bool {
    exists|c: nat| c < n && #[trigger] ids_in_bucket(events, ids, c).contains(id) && events[id.0 as int].depth == d
}

/// Some event at depth `d` of the levels below `n` starts at `s`.
pub open spec fn starts_an_event(events: Seq<TimelineEvent>, ids: Seq<EventId>, n: nat, d: int, s: u64) -> bool {
    exists|id: EventId| lower_event(events, ids, n, d, id) && #[trigger] events[id.0 as int].start_ns == s
}

/// Some event at depth `d` of the levels below `n`, stretched to `target`,
/// reaches over `t`.
pub open spec fn point_backed(
    events: Seq<TimelineEvent>,
    ids: Seq<EventId>,
    n: nat,
    d: int,
    target: u64,
    t: u64,
) -> bool {
    exists|id: EventId| lower_event(events, ids, n, d, id) && #[trigger] in_stretched(events, id, target, t)
}

/// The range starts where such an event starts, and each of its points lies
/// within such an event stretched to `target`.
pub open spec fn range_backed(
    events: Seq<TimelineEvent>,
    ids: Seq<EventId>,
    n: nat,
    d: int,
    target: u64,
    r: (u64, u64),
) -> bool {
    &&& starts_an_event(events, ids, n, d, r.0)
    &&& forall|t: u64| r.0 <= t <= r.1 ==> #[trigger] point_backed(events, ids, n, d, target, t)
}

pub open spec fn all_backed(
    events: Seq<TimelineEvent>,
    ids: Seq<EventId>,
    n: nat,
    d: int,
    target: u64,
    rs: Seq<(u64, u64)>,
) -> bool {
    forall|i: int| 0 <= i < rs.len() ==> range_backed(events, ids, n, d, target, #[trigger] rs[i])
}

proof fn lemma_shadow_target_grows(b1: nat, b2: nat)
    requires
        b1 <= b2,
    ensures
        shadow_target(b1) <= shadow_target(b2),
{
    if b1 < b2 && b2 < 63 {
        vstd::arithmetic::power2::lemma_pow2_strictly_increases(b1 + 1, b2 + 1);
        vstd::bits::lemma_u64_pow2_no_overflow((b2 + 1) as nat);
        vstd::arithmetic::power2::lemma_pow2_pos(b1 + 1);
    }
}

proof fn lemma_range_backed_weaken(
    events: Seq<TimelineEvent>,
    ids: Seq<EventId>,
    n1: nat,
    n2: nat,
    d: int,
    t1: u64,
    t2: u64,
    r: (u64, u64),
)
    requires
        n1 <= n2,
        t1 <= t2,
        range_backed(events, ids, n1, d, t1, r),
    ensures
        range_backed(events, ids, n2, d, t2, r),
{
    let id0 = choose|id: EventId| lower_event(events, ids, n1, d, id) && #[trigger] events[id.0 as int].start_ns == r.0;
    let c0 = choose|c: nat| c < n1 && #[trigger] ids_in_bucket(events, ids, c).contains(id0) && events[id0.0 as int].depth == d;
    assert(lower_event(events, ids, n2, d, id0));
    assert forall|t: u64| r.0 <= t <= r.1 implies #[trigger] point_backed(events, ids, n2, d, t2, t) by {
        assert(point_backed(events, ids, n1, d, t1, t));
        let id = choose|id: EventId| lower_event(events, ids, n1, d, id) && #[trigger] in_stretched(events, id, t1, t);
        let c = choose|c: nat| c < n1 && #[trigger] ids_in_bucket(events, ids, c).contains(id) && events[id.0 as int].depth == d;
        assert(lower_event(events, ids, n2, d, id));
        assert(in_stretched(events, id, t2, t));
    }
}

proof fn lemma_push_merged_backed(
    events: Seq<TimelineEvent>,
    ids: Seq<EventId>,
    n: nat,
    d: int,
    target: u64,
    out: Seq<(u64, u64)>,
    start: u64,
    end: u64,
)
    requires
        all_backed(events, ids, n, d, target, out),
        range_backed(events, ids, n, d, target, (start, end)),
    ensures
        all_backed(events, ids, n, d, target, push_merged(out, start, end)),
{
    let r = push_merged(out, start, end);
    if out.len() > 0 && start <= out.last().1 {
        let last = out.last();
        assert(range_backed(events, ids, n, d, target, last));
        let m = (last.0, if last.1 >= end { last.1 } else { end });
        assert forall|t: u64| m.0 <= t <= m.1 implies #[trigger] point_backed(events, ids, n, d, target, t) by {
            if t <= last.1 {
            } else {
                assert(start <= t && t <= end);
            }
        }
        assert forall|i: int| 0 <= i < r.len() implies range_backed(events, ids, n, d, target, #[trigger] r[i]) by {
            if i < out.len() - 1 {
                assert(r[i] == out[i]);
            } else {
                assert(r[i] == m);
            }
        }
    } else {
        assert forall|i: int| 0 <= i < r.len() implies range_backed(events, ids, n, d, target, #[trigger] r[i]) by {
            if i < out.len() {
                assert(r[i] == out[i]);
            }
        }
    }
}

proof fn lemma_reinflate_backed(
    events: Seq<TimelineEvent>,
    ids: Seq<EventId>,
    n: nat,
    d: int,
    old_target: u64,
    target: u64,
    rs: Seq<(u64, u64)>,
)
    requires
        old_target <= target,
        all_backed(events, ids, n, d, old_target, rs),
    ensures
        all_backed(events, ids, n, d, target, reinflate(rs, target)),
    decreases rs.len(),
{
    if rs.len() > 0 {
        let init = rs.drop_last();
        assert(all_backed(events, ids, n, d, old_target, init)) by {
            assert forall|i: int| 0 <= i < init.len() implies range_backed(events, ids, n, d, old_target, #[trigger] init[i]) by {
                assert(init[i] == rs[i]);
            }
        }
        lemma_reinflate_backed(events, ids, n, d, old_target, target, init);
        let r = rs.last();
        assert(range_backed(events, ids, n, d, old_target, r));
        let dd = sat_sub(r.1, r.0);
        let dur = if dd >= 1 { dd } else { 1 };
        let ie = inflated_end(r.0, dur, target);
        let id0 = choose|id: EventId| lower_event(events, ids, n, d, id) && #[trigger] events[id.0 as int].start_ns == r.0;
        assert forall|t: u64| r.0 <= t <= ie implies #[trigger] point_backed(events, ids, n, d, target, t) by {
            if t <= r.1 {
                assert(point_backed(events, ids, n, d, old_target, t));
                let id = choose|id: EventId| lower_event(events, ids, n, d, id) && #[trigger] in_stretched(events, id, old_target, t);
                assert(in_stretched(events, id, target, t));
            } else {
                let e = events[id0.0 as int];
                assert(in_stretched(events, id0, target, t));
            }
        }
        lemma_push_merged_backed(events, ids, n, d, target, reinflate(init, target), r.0, ie);
    }
}

proof fn lemma_merge_ranges_backed(
    events: Seq<TimelineEvent>,
    ids: Seq<EventId>,
    n: nat,
    d: int,
    target: u64,
    out: Seq<(u64, u64)>,
    a: Seq<(u64, u64)>,
    b: Seq<(u64, u64)>,
)
    requires
        all_backed(events, ids, n, d, target, out),
        all_backed(events, ids, n, d, target, a),
        all_backed(events, ids, n, d, target, b),
    ensures
        all_backed(events, ids, n, d, target, merge_ranges(out, a, b)),
    decreases a.len() + b.len(),
{
    if a.len() == 0 && b.len() == 0 {
    } else if b.len() == 0 || (a.len() > 0 && a[0].0 <= b[0].0) {
        assert(range_backed(events, ids, n, d, target, a[0]));
        lemma_push_merged_backed(events, ids, n, d, target, out, a[0].0, a[0].1);
        let rest = a.drop_first();
        assert(all_backed(events, ids, n, d, target, rest)) by {
            assert forall|i: int| 0 <= i < rest.len() implies range_backed(events, ids, n, d, target, #[trigger] rest[i]) by {
                assert(rest[i] == a[i + 1]);
            }
        }
        lemma_merge_ranges_backed(events, ids, n, d, target, push_merged(out, a[0].0, a[0].1), rest, b);
    } else {
        assert(range_backed(events, ids, n, d, target, b[0]));
        lemma_push_merged_backed(events, ids, n, d, target, out, b[0].0, b[0].1);
        let rest = b.drop_first();
        assert(all_backed(events, ids, n, d, target, rest)) by {
            assert forall|i: int| 0 <= i < rest.len() implies range_backed(events, ids, n, d, target, #[trigger] rest[i]) by {
                assert(rest[i] == b[i + 1]);
            }
        }
        lemma_merge_ranges_backed(events, ids, n, d, target, push_merged(out, b[0].0, b[0].1), a, rest);
    }
}

proof fn lemma_level_ranges_backed(
    events: Seq<TimelineEvent>,
    ids: Seq<EventId>,
    c: nat,
    level: Seq<EventId>,
    target: u64,
    d: nat,
)
    requires
        forall|j: int| 0 <= j < level.len() ==> ids_in_bucket(events, ids, c).contains(#[trigger] level[j]),
    ensures
        all_backed(events, ids, c + 1, d as int, target, level_ranges_at_depth(events, level, target, d)),
    decreases level.len(),
{
    if level.len() > 0 {
        let init = level.drop_last();
        assert forall|j: int| 0 <= j < init.len() implies ids_in_bucket(events, ids, c).contains(#[trigger] init[j]) by {
            assert(init[j] == level[j]);
        }
        lemma_level_ranges_backed(events, ids, c, init, target, d);
        let id = level.last();
        let e = events[id.0 as int];
        let rest = level_ranges_at_depth(events, init, target, d);
        if e.depth == d {
            assert(ids_in_bucket(events, ids, c).contains(level[level.len() - 1]));
            assert(lower_event(events, ids, c + 1, d as int, id));
            let x = (e.start_ns, inflated_end(e.start_ns, e.duration_ns, target));
            assert forall|t: u64| x.0 <= t <= x.1 implies #[trigger] point_backed(events, ids, c + 1, d as int, target, t) by {
                assert(in_stretched(events, id, target, t));
            }
            assert(range_backed(events, ids, c + 1, d as int, target, x));
            let all = rest.push(x);
            assert forall|i: int| 0 <= i < all.len() implies range_backed(events, ids, c + 1, d as int, target, #[trigger] all[i]) by {
                if i < rest.len() {
                    assert(all[i] == rest[i]);
                }
            }
        }
    }
}

proof fn lemma_stable_sort_backed(
    events: Seq<TimelineEvent>,
    ids: Seq<EventId>,
    n: nat,
    d: int,
    target: u64,
    rs: Seq<(u64, u64)>,
)
    requires
        all_backed(events, ids, n, d, target, rs),
    ensures
        all_backed(events, ids, n, d, target, stable_sort_by_start(rs)),
{
    let keyed = keyed_by_start(rs);
    let le = |a: (u64, u64, u64), b: (u64, u64, u64)| triple_le(a, b);
    crate::sort::lemma_triple_le_total_preorder();
    keyed.lemma_sort_by_ensures(le);
    let sorted = keyed.sort_by(le);
    let out = stable_sort_by_start(rs);
    assert(sorted.len() == keyed.len()) by {
        sorted.to_multiset_ensures();
        keyed.to_multiset_ensures();
    }
    assert forall|i: int| 0 <= i < out.len() implies range_backed(events, ids, n, d, target, #[trigger] out[i]) by {
        vstd::seq_lib::to_multiset_contains(sorted, sorted[i]);
        vstd::seq_lib::to_multiset_contains(keyed, sorted[i]);
        let a = choose|a: int| 0 <= a < keyed.len() && keyed[a] == sorted[i];
        assert(out[i] == rs[a]);
    }
}

/// The merged ranges carried past level `n - 1` are backed by the events of
/// the levels below `n`, stretched to the minimum duration of level `n - 1`.
proof fn lemma_shadow_state_backed(events: Seq<TimelineEvent>, ids: Seq<EventId>, n: nat, d: int)
    requires
        n > 0,
        0 <= d < shadow_state(events, ids, n).len(),
    ensures
        all_backed(events, ids, n, d, shadow_target((n - 1) as nat), shadow_state(events, ids, n)[d]),
    decreases n,
{
    let b = (n - 1) as nat;
    let prev = shadow_state(events, ids, b);
    let level = ids_in_bucket(events, ids, b);
    let target = shadow_target(b);
    let a = reinflate(at_depth(prev, d), target);
    let lr = level_ranges_at_depth(events, level, target, d as nat);
    if b > 0 && d < prev.len() {
        lemma_shadow_state_backed(events, ids, b, d);
        lemma_shadow_target_grows((b - 1) as nat, b);
        lemma_reinflate_backed(events, ids, b, d, shadow_target((b - 1) as nat), target, prev[d]);
    }
    assert(all_backed(events, ids, n, d, target, a)) by {
        assert forall|i: int| 0 <= i < a.len() implies range_backed(events, ids, n, d, target, #[trigger] a[i]) by {
            lemma_range_backed_weaken(events, ids, b, n, d, target, target, a[i]);
        }
    }
    assert forall|j: int| 0 <= j < level.len() implies ids_in_bucket(events, ids, b).contains(#[trigger] level[j]) by {
    }
    lemma_level_ranges_backed(events, ids, b, level, target, d as nat);
    lemma_stable_sort_backed(events, ids, n, d, target, lr);
    lemma_merge_ranges_backed(events, ids, n, d, target, Seq::empty(), a, stable_sort_by_start(lr));
}

/// Every point of a shadow of level `b` lies within an event of a shorter
/// level at the same depth, stretched to the level's minimum duration: a
/// shadow shows no more than the events it stands for.
pub proof fn law_shadow_points_lie_in_stretched_events(
    events: Seq<TimelineEvent>,
    ids: Seq<EventId>,
    b: nat,
    d: int,
    k: int,
    t: u64,
)
    requires
        0 <= d < level_shadows(events, ids, b).len(),
        0 <= k < level_shadows(events, ids, b)[d].len(),
        level_shadows(events, ids, b)[d][k].0 <= t <= level_shadows(events, ids, b)[d][k].1,
    ensures
        exists|id: EventId|
            lower_event(events, ids, b, d, id) && #[trigger] in_stretched(events, id, shadow_target(b), t),
{
    let prev = shadow_state(events, ids, b);
    let target = shadow_target(b);
    let sh = level_shadows(events, ids, b)[d];
    assert(sh == reinflate(at_depth(prev, d), target));
    if b > 0 && d < prev.len() {
        lemma_shadow_state_backed(events, ids, b, d);
        lemma_shadow_target_grows((b - 1) as nat, b);
        lemma_reinflate_backed(events, ids, b, d, shadow_target((b - 1) as nat), target, prev[d]);
    } else {
        assert(at_depth(prev, d).len() == 0);
    }
    assert(range_backed(events, ids, b, d, target, sh[k]));
    assert(point_backed(events, ids, b, d, target, t));
}


/// One past the deepest depth among the events of the levels below `n`
/// (0 for none).
pub open spec fn depth_span_below(events: Seq<TimelineEvent>, ids: Seq<EventId>, n: nat) -> nat
    decreases n,
{
    if n == 0 {
        0
    } else {
        max_nat(
            depth_span_below(events, ids, (n - 1) as nat),
            depth_span(events, ids_in_bucket(events, ids, (n - 1) as nat)),
        )
    }
}

proof fn lemma_shadow_state_depths(events: Seq<TimelineEvent>, ids: Seq<EventId>, n: nat)
    ensures
        shadow_state(events, ids, n).len() == depth_span_below(events, ids, n),
    decreases n,
{
    if n > 0 {
        lemma_shadow_state_depths(events, ids, (n - 1) as nat);
    }
}

/// Level `b` keeps one list of shadows per depth reached by the events of
/// its own level and of the shorter ones.
pub proof fn law_one_shadow_list_per_depth(events: Seq<TimelineEvent>, ids: Seq<EventId>, b: nat)
    ensures
        level_shadows(events, ids, b).len() == depth_span_below(events, ids, b + 1),
{
    lemma_shadow_state_depths(events, ids, b);
}

} // verus!
