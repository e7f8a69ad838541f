//! Thread data (root event, duration levels, depth) and the grouping of
//! threads into lanes, one per thread or merged.
use crate::data::{
    bucket_of, build_thread_root_event, compute_thread_root_info, duration_bucket, ids_in_range,
    level_max_duration, level_max_duration_exec, root_info_spec, EventId, ThreadData, ThreadGroup,
    ThreadGroupMipMap, ThreadGroupMipMapShadows, TimelineEvent,
};
use crate::mipmap::{build_event_indices, build_thread_group_mipmaps, level_count, mipmap_matches, tree_items};
use crate::symbols::{interned, Symbols};
use crate::text::thread_label;
use crate::tree::event_tree_contents;
use std::sync::Arc;
use vstd::prelude::*;

verus! {

/// The root span of each listed thread (see `root_info_spec`).
pub open spec fn root_infos(events: Seq<TimelineEvent>, threads: Seq<(u32, Seq<EventId>)>) -> Seq<
    Option<(u32, u64, u64)>,
> {
    threads.map_values(|t: (u32, Seq<EventId>)| root_info_spec(events, t.0, t.1))
}

/// How many of the listed root spans exist.
pub open spec fn count_roots(infos: Seq<Option<(u32, u64, u64)>>) -> nat
    decreases infos.len(),
{
    if infos.len() == 0 {
        0
    } else {
        count_roots(infos.drop_last()) + if infos.last() is Some {
            1nat
        } else {
            0nat
        }
    }
}

/// The id given to the root event of the `k`-th thread: root events are
/// appended after the `base` existing events, in thread order.
pub open spec fn root_id(base: nat, infos: Seq<Option<(u32, u64, u64)>>, k: int) -> Option<EventId> {
    if infos[k] is Some {
        Some(EventId((base + count_roots(infos.take(k))) as u32))
    } else {
        None
    }
}

/// The interner's table after interning the labels of the existing roots,
/// in thread order.
pub open spec fn intern_root_labels(table: Seq<Seq<char>>, infos: Seq<Option<(u32, u64, u64)>>) -> Seq<
    Seq<char>,
>
    decreases infos.len(),
{
    if infos.len() == 0 {
        table
    } else {
        let t = intern_root_labels(table, infos.drop_last());
        match infos.last() {
            Some(info) => interned(t, thread_label(info.0 as nat)),
            None => t,
        }
    }
}

/// The root event built for a root span, given the interned table.
pub open spec fn is_root_event(e: TimelineEvent, info: (u32, u64, u64), table: Seq<Seq<char>>) -> bool {
    &&& e.label.id() < table.len()
    &&& table[e.label.id() as int] == thread_label(info.0 as nat)
    &&& e.start_ns == info.1
    &&& e.duration_ns == info.2
    &&& e.depth == 0
    &&& e.thread_id == info.0
    &&& e.kind_index == 0
    &&& e.additional_data is None
    &&& e.payload_integer is None
    &&& e.is_thread_root
}

/// The deepest depth among the listed events (0 for none).
pub open spec fn max_depth_of(events: Seq<TimelineEvent>, ids: Seq<EventId>) -> u32
    decreases ids.len(),
{
    if ids.len() == 0 {
        0
    } else {
        let rest = max_depth_of(events, ids.drop_last());
        let d = events[ids.last().0 as int].depth;
        if d > rest {
            d
        } else {
            rest
        }
    }
}

/// The level that holds only a thread's root event.
pub open spec fn is_root_mipmap(m: ThreadGroupMipMap, events: Seq<TimelineEvent>, root: EventId) -> bool {
    &&& m.max_duration_ns == level_max_duration(bucket_of(events[root.0 as int].duration_ns))
    &&& m.events@ == seq![root]
    &&& event_tree_contents(m.events_tree) == tree_items(events, seq![root]).to_multiset()
    &&& m.shadows.levels@.len() == 0
}

/// The data built for the `k`-th thread of the index.
pub open spec fn thread_data_matches(
    t: ThreadData,
    events: Seq<TimelineEvent>,
    base: nat,
    infos: Seq<Option<(u32, u64, u64)>>,
    k: int,
    thread: (u32, Seq<EventId>),
) -> bool {
    &&& t.thread_id == thread.0
    &&& t.thread_root == root_id(base, infos, k)
    &&& match t.thread_root {
        Some(root) => t.thread_root_mipmap matches Some(m) && is_root_mipmap(m, events, root),
        None => t.thread_root_mipmap is None,
    }
    &&& t.max_depth == max_depth_of(events, thread.1)
    &&& t.mipmaps@.len() == level_count(events, thread.1)
    &&& forall|b: int|
        0 <= b < t.mipmaps@.len() ==> mipmap_matches(events, thread.1, b as nat, #[trigger] t.mipmaps@[b])
}

fn max_depth_exec(events: &Vec<TimelineEvent>, ids: &Vec<EventId>) -> (r: u32)
    requires
        ids_in_range(events@, ids@),
    ensures
        r == max_depth_of(events@, ids@),
{
    let mut m: u32 = 0;
    let mut k: usize = 0;
    while k < ids.len()
        invariant
            ids_in_range(events@, ids@),
            k <= ids@.len(),
            m == max_depth_of(events@, ids@.take(k as int)),
        decreases ids@.len() - k,
    {
        let d = events[ids[k].index()].depth;
        assert(ids@.take(k + 1).drop_last() =~= ids@.take(k as int));
        if d > m {
            m = d;
        }
        k = k + 1;
    }
    assert(ids@.take(ids@.len() as int) =~= ids@);
    m
}

proof fn lemma_count_roots_bound(infos: Seq<Option<(u32, u64, u64)>>)
    ensures
        count_roots(infos) <= infos.len(),
    decreases infos.len(),
{
    if infos.len() > 0 {
        lemma_count_roots_bound(infos.drop_last());
    }
}

pub(crate) proof fn lemma_intern_root_labels_len(table: Seq<Seq<char>>, infos: Seq<Option<(u32, u64, u64)>>)
    ensures
        intern_root_labels(table, infos).len() <= table.len() + infos.len(),
        intern_root_labels(table, infos).len() >= table.len(),
        forall|i: int| 0 <= i < table.len() ==> #[trigger] intern_root_labels(table, infos)[i] == table[i],
    decreases infos.len(),
{
    if infos.len() > 0 {
        lemma_intern_root_labels_len(table, infos.drop_last());
    }
}

proof fn lemma_ids_in_range_grow(a: Seq<TimelineEvent>, b: Seq<TimelineEvent>, ids: Seq<EventId>)
    requires
        ids_in_range(a, ids),
        a.len() <= b.len(),
    ensures
        ids_in_range(b, ids),
{
}

/// Builds the data of every thread of the index, which lists the threads in
/// ascending thread-id order; the result keeps that order.
///
/// For each thread with a root span (see `root_info_spec`), a root event
/// labelled `Thread <id>` is appended to `events`, in thread order, so root
/// ids are deterministic; the thread's levels are built over its own events.
pub fn build_thread_data(
    events: &mut Vec<TimelineEvent>,
    threads: Vec<(u32, Vec<EventId>)>,
    symbols: &mut Symbols,
) -> (r: Vec<Arc<ThreadData>>)
    requires
        forall|k: int, j: int| 0 <= k < j < threads@.len() ==> threads@[k].0 < threads@[j].0,
        old(symbols).wf(),
        old(symbols)@.len() + threads@.len() <= u32::MAX,
        old(events)@.len() + threads@.len() <= u32::MAX,
        forall|k: int| 0 <= k < threads@.len() ==> ids_in_range(old(events)@, (#[trigger] threads@[k]).1@),
    ensures
        ({
            let base = old(events)@.len();
            let tv = crate::lanes::index_view(threads@);
            let infos = root_infos(old(events)@, tv);
            &&& final(symbols).wf()
            &&& final(symbols)@ == intern_root_labels(old(symbols)@, infos)
            &&& final(events)@.len() == base + count_roots(infos)
            &&& final(events)@.take(base as int) == old(events)@
            &&& forall|k: int|
                0 <= k < infos.len() && infos[k] is Some ==> is_root_event(
                    final(events)@[(base + count_roots(infos.take(k))) as int],
                    infos[k]->Some_0,
                    final(symbols)@,
                )
            &&& r@.len() == threads@.len()
            &&& forall|k: int, j: int| 0 <= k < j < r@.len() ==> r@[k].thread_id < r@[j].thread_id
            &&& roots_in_range(final(events)@, r@)
            &&& forall|k: int|
                0 <= k < r@.len() ==> thread_data_matches(
                    *#[trigger] r@[k],
                    final(events)@,
                    base,
                    infos,
                    k,
                    tv[k],
                )
        }),
{
    let ghost ev0 = events@;
    let ghost base = ev0.len();
    let ghost tv = crate::lanes::index_view(threads@);
    let ghost infos = root_infos(ev0, tv);
    let ghost sym0 = symbols@;
    let n = threads.len();
    // Phase 1: root spans.
    let mut root_spans: Vec<Option<crate::data::ThreadRootInfo>> = Vec::new();
    let mut k: usize = 0;
    while k < n
        invariant
            n == threads@.len(),
            events@ == ev0,
            tv == crate::lanes::index_view(threads@),
            infos == root_infos(ev0, tv),
            forall|j: int| 0 <= j < threads@.len() ==> ids_in_range(ev0, (#[trigger] threads@[j]).1@),
            k <= n,
            root_spans@.len() == k,
            forall|j: int|
                0 <= j < k ==> match #[trigger] root_spans@[j] {
                    Some(info) => infos[j] == Some((info.thread_id, info.start_ns, info.duration_ns)),
                    None => infos[j] is None,
                },
        decreases n - k,
    {
        let info = compute_thread_root_info(events, threads[k].0, &threads[k].1);
        root_spans.push(info);
        k = k + 1;
    }
    // Phase 2: root events, appended in thread order.
    let mut roots: Vec<Option<EventId>> = Vec::new();
    let mut k: usize = 0;
    while k < n
        invariant
            n == threads@.len(),
            n == infos.len(),
            base == ev0.len(),
            base + n <= u32::MAX,
            sym0.len() + n <= u32::MAX,
            root_spans@.len() == n,
            forall|j: int|
                0 <= j < n ==> match #[trigger] root_spans@[j] {
                    Some(info) => infos[j] == Some((info.thread_id, info.start_ns, info.duration_ns)),
                    None => infos[j] is None,
                },
            k <= n,
            roots@.len() == k,
            symbols.wf(),
            symbols@ == intern_root_labels(sym0, infos.take(k as int)),
            events@.len() == base + count_roots(infos.take(k as int)),
            events@.take(base as int) == ev0,
            forall|j: int| 0 <= j < k ==> #[trigger] roots@[j] == root_id(base, infos, j),
            forall|j: int|
                0 <= j < k && infos[j] is Some ==> is_root_event(
                    events@[(base + count_roots(infos.take(j))) as int],
                    infos[j]->Some_0,
                    symbols@,
                ),
        decreases n - k,
    {
        proof {
            assert(infos.take(k + 1).drop_last() =~= infos.take(k as int));
            lemma_count_roots_bound(infos.take(k as int));
            lemma_intern_root_labels_len(sym0, infos.take(k as int));
        }
        let ghost sym_before = symbols@;
        match &root_spans[k] {
            Some(info) => {
                let event = build_thread_root_event(info, symbols);
                let id = EventId(events.len() as u32);
                events.push(event);
                roots.push(Some(id));
                proof {
                    assert forall|j: int| 0 <= j < k && infos[j] is Some implies is_root_event(
                        events@[(base + count_roots(infos.take(j))) as int],
                        infos[j]->Some_0,
                        symbols@,
                    ) by {
                        lemma_count_roots_prefix(infos, j, k as int);
                        let e = events@[(base + count_roots(infos.take(j))) as int];
                        assert(e.label.id() < sym_before.len());
                        crate::symbols::law_resolve_after_intern(sym_before, thread_label(info.thread_id as nat));
                        lemma_interned_keeps_prefix(sym_before, thread_label(info.thread_id as nat), e.label.id() as int);
                    }
                    assert(events@.take(base as int) =~= ev0);
                }
            },
            None => {
                roots.push(None);
            },
        }
        k = k + 1;
    }
    proof {
        assert(infos.take(n as int) =~= infos);
    }
    // Phase 3: per-thread levels, root level and depth.
    let mut out: Vec<Arc<ThreadData>> = Vec::new();
    let mut threads = threads;
    let mut k: usize = 0;
    while k < n
        invariant
            n == threads@.len(),
            n == infos.len(),
            n == roots@.len(),
            tv == crate::lanes::index_view(threads@),
            base == ev0.len(),
            base + n <= u32::MAX,
            events@.len() == base + count_roots(infos),
            events@.take(base as int) == ev0,
            forall|j: int| 0 <= j < n ==> ids_in_range(ev0, (#[trigger] threads@[j]).1@),
            forall|j: int| 0 <= j < n ==> #[trigger] roots@[j] == root_id(base, infos, j),
            k <= n,
            out@.len() == k,
            forall|j: int|
                0 <= j < k ==> thread_data_matches(*#[trigger] out@[j], events@, base, infos, j, tv[j]),
        decreases n - k,
    {
        proof {
            lemma_ids_in_range_grow(ev0, events@, threads@[k as int].1@);
            lemma_count_roots_prefix(infos, k as int, n as int);
        }
        let thread_root = roots[k];
        let thread_root_mipmap = match thread_root {
            Some(root) => {
                proof {
                    lemma_count_roots_bound(infos.take(k as int));
                    assert(roots@[k as int] == root_id(base, infos, k as int));
                    assert(infos[k as int] is Some);
                    assert(infos.take(n as int) =~= infos);
                    assert(count_roots(infos.take(k as int)) + 1 <= count_roots(infos));
                    assert(root.0 == base + count_roots(infos.take(k as int)));
                }
                assert(root.0 < events@.len());
                let bucket = duration_bucket(events[root.index()].duration_ns);
                let max_duration_ns = level_max_duration_exec(bucket);
                let mut bucket_events: Vec<EventId> = Vec::new();
                bucket_events.push(root);
                let (_events_by_start, _events_by_end, events_tree) = build_event_indices(events, &bucket_events);
                Some(
                    ThreadGroupMipMap {
                        max_duration_ns,
                        events: bucket_events,
                        shadows: ThreadGroupMipMapShadows { levels: Vec::new() },
                        events_tree,
                    },
                )
            },
            None => None,
        };
        let max_depth = max_depth_exec(events, &threads[k].1);
        let mipmaps = build_thread_group_mipmaps(events, &threads[k].1);
        let data = ThreadData {
            thread_id: threads[k].0,
            thread_root,
            thread_root_mipmap,
            mipmaps,
            max_depth,
        };
        out.push(Arc::new(data));
        proof {
            assert(tv[k as int] == (threads@[k as int].0, threads@[k as int].1@));
        }
        k = k + 1;
    }
    proof {
        assert forall|j: int| 0 <= j < out@.len() implies ((#[trigger] out@[j]).thread_root matches Some(root)
            ==> root.0 < events@.len()) by {
            if infos[j] is Some {
                lemma_count_roots_prefix(infos, j, n as int);
                assert(infos.take(n as int) =~= infos);
            }
        }
    }
    out
}

proof fn lemma_count_roots_prefix(infos: Seq<Option<(u32, u64, u64)>>, j: int, k: int)
    requires
        0 <= j < k <= infos.len(),
    ensures
        count_roots(infos.take(j)) + (if infos[j] is Some { 1nat } else { 0nat }) <= count_roots(
            infos.take(k),
        ),
    decreases k - j,
{
    if k == j + 1 {
        assert(infos.take(k).drop_last() =~= infos.take(j));
    } else {
        lemma_count_roots_prefix(infos, j, k - 1);
        assert(infos.take(k).drop_last() =~= infos.take(k - 1));
    }
}

proof fn lemma_interned_keeps_prefix(table: Seq<Seq<char>>, s: Seq<char>, i: int)
    requires
        0 <= i < table.len(),
    ensures
        interned(table, s)[i] == table[i],
{
}

// ---------------------------------------------------------------------------
// Thread groups
// ---------------------------------------------------------------------------

/// Clones an `Arc` with `Arc::clone`: the copy points to the same value.
#[verifier::external_body]
pub(crate) fn arc_clone<T>(a: &Arc<T>) -> (r: Arc<T>)
    ensures
        r == *a,
{
    Arc::clone(a)
}

/// One group per thread, in thread order, each expanded and showing its own
/// events only.
pub open spec fn is_single_grouping(groups: Seq<ThreadGroup>, threads: Seq<Arc<ThreadData>>) -> bool {
    &&& groups.len() == threads.len()
    &&& forall|k: int|
        0 <= k < groups.len() ==> {
            &&& (*(#[trigger] groups[k]).threads)@ == seq![threads[k]]
            &&& groups[k].max_depth == threads[k].max_depth
            &&& !groups[k].is_collapsed
            &&& !groups[k].show_thread_roots
        }
}

/// One group per thread, in thread order, each showing its own events only.
pub fn build_thread_groups(thread_data: &Vec<Arc<ThreadData>>) -> (r: Vec<ThreadGroup>)
    ensures
        is_single_grouping(r@, thread_data@),
{
    let mut thread_groups: Vec<ThreadGroup> = Vec::new();
    let mut k: usize = 0;
    while k < thread_data.len()
        invariant
            k <= thread_data@.len(),
            thread_groups@.len() == k,
            forall|j: int|
                0 <= j < k ==> {
                    &&& (*(#[trigger] thread_groups@[j]).threads)@ == seq![thread_data@[j]]
                    &&& thread_groups@[j].max_depth == thread_data@[j].max_depth
                    &&& !thread_groups@[j].is_collapsed
                    &&& !thread_groups@[j].show_thread_roots
                },
        decreases thread_data@.len() - k,
    {
        let thread = &thread_data[k];
        let mut list: Vec<Arc<ThreadData>> = Vec::new();
        list.push(arc_clone(thread));
        assert(list@ =~= seq![thread_data@[k as int]]);
        thread_groups.push(
            ThreadGroup {
                threads: Arc::new(list),
                max_depth: thread.max_depth,
                is_collapsed: false,
                show_thread_roots: false,
            },
        );
        k = k + 1;
    }
    thread_groups
}

/// The time span of a thread for merging: the span of its root event, or
/// `(0, 0)` without one; a start of `u64::MAX` counts as 0.
pub open spec fn thread_span(events: Seq<TimelineEvent>, t: ThreadData) -> (u64, u64) {
    match t.thread_root {
        Some(root) => {
            let e = events[root.0 as int];
            (if e.start_ns == u64::MAX { 0 } else { e.start_ns }, crate::data::event_end(e))
        },
        None => (0, 0),
    }
}

/// Two spans overlap.
pub open spec fn spans_overlap(a: (u64, u64), b: (u64, u64)) -> bool {
    a.0 < b.1 && a.1 > b.0
}

/// The order in which threads are placed: shortest span first, then earliest
/// start, then thread position.
pub open spec fn placement_keys(spans: Seq<(u64, u64)>) -> Seq<(u64, u64, u64)> {
    Seq::new(spans.len(), |i: int| (crate::data::sat_sub(spans[i].1, spans[i].0), spans[i].0, i as u64))
}

pub open spec fn placement_order(spans: Seq<(u64, u64)>) -> Seq<(u64, u64, u64)> {
    placement_keys(spans).sort_by(|a: (u64, u64, u64), b: (u64, u64, u64)| crate::sort::triple_le(a, b))
}

/// The first group whose range the span does not overlap (the number of
/// groups when every group overlaps it).
pub open spec fn first_fit(ranges: Seq<(u64, u64)>, span: (u64, u64)) -> nat
    decreases ranges.len(),
{
    if ranges.len() == 0 {
        0
    } else if !spans_overlap(span, ranges[0]) {
        0
    } else {
        1 + first_fit(ranges.drop_first(), span)
    }
}

/// First-fit packing of the threads, visited in `order` (of which the first
/// `m` entries are placed): the range covered by each group and the group
/// of each thread.
pub open spec fn pack(spans: Seq<(u64, u64)>, order: Seq<(u64, u64, u64)>, m: nat) -> (Seq<(u64, u64)>, Seq<nat>)
    decreases m,
{
    if m == 0 {
        (Seq::empty(), Seq::new(spans.len(), |i: int| 0nat))
    } else {
        let (ranges, group_of) = pack(spans, order, (m - 1) as nat);
        let idx = order[m - 1].2 as int;
        let span = spans[idx];
        let g = first_fit(ranges, span);
        if g < ranges.len() {
            let r = ranges[g as int];
            (
                ranges.update(
                    g as int,
                    (if r.0 <= span.0 { r.0 } else { span.0 }, if r.1 >= span.1 { r.1 } else { span.1 }),
                ),
                group_of.update(idx, g),
            )
        } else {
            (ranges.push(span), group_of.update(idx, g))
        }
    }
}

/// The groups' members, groups ordered by their first thread, each listing
/// its threads in order, for the first `n` threads.
pub open spec fn regroup(group_of: Seq<nat>, n: nat) -> Seq<Seq<nat>>
    decreases n,
{
    if n == 0 {
        Seq::empty()
    } else {
        let members = regroup(group_of, (n - 1) as nat);
        let idx = (n - 1) as nat;
        let g = group_of[idx as int];
        let p = position_of_group(members, group_of, g);
        if p < members.len() {
            members.update(p as int, members[p as int].push(idx))
        } else {
            members.push(seq![idx])
        }
    }
}

/// The position among `members` of the group `g`.
pub open spec fn position_of_group(members: Seq<Seq<nat>>, group_of: Seq<nat>, g: nat) -> nat
    decreases members.len(),
{
    if members.len() == 0 {
        0
    } else if members[0].len() > 0 && group_of[members[0][0] as int] == g {
        0
    } else {
        1 + position_of_group(members.drop_first(), group_of, g)
    }
}

/// The merged groups' members, by thread position.
pub open spec fn merged_members(events: Seq<TimelineEvent>, threads: Seq<Arc<ThreadData>>) -> Seq<Seq<nat>> {
    let spans = threads.map_values(|t: Arc<ThreadData>| thread_span(events, *t));
    let order = placement_order(spans);
    regroup(pack(spans, order, order.len()).1, threads.len())
}

/// The deepest thread depth among the members.
pub open spec fn members_max_depth(threads: Seq<Arc<ThreadData>>, members: Seq<nat>) -> u32
    decreases members.len(),
{
    if members.len() == 0 {
        0
    } else {
        let rest = members_max_depth(threads, members.drop_last());
        let d = threads[members.last() as int].max_depth;
        if d > rest {
            d
        } else {
            rest
        }
    }
}

proof fn lemma_first_fit_is(ranges: Seq<(u64, u64)>, span: (u64, u64), g: nat)
    requires
        g <= ranges.len(),
        forall|h: int| 0 <= h < g ==> spans_overlap(span, #[trigger] ranges[h]),
        g < ranges.len() ==> !spans_overlap(span, ranges[g as int]),
    ensures
        first_fit(ranges, span) == g,
    decreases g,
{
    if g > 0 {
        assert(spans_overlap(span, ranges[0]));
        let rest = ranges.drop_first();
        assert forall|h: int| 0 <= h < g - 1 implies spans_overlap(span, #[trigger] rest[h]) by {
            assert(rest[h] == ranges[h + 1]);
        }
        lemma_first_fit_is(rest, span, (g - 1) as nat);
    }
}

proof fn lemma_position_of_group_is(members: Seq<Seq<nat>>, group_of: Seq<nat>, g: nat, p: nat)
    requires
        p <= members.len(),
        forall|h: int|
            0 <= h < p ==> !((#[trigger] members[h]).len() > 0 && group_of[members[h][0] as int] == g),
        p < members.len() ==> members[p as int].len() > 0 && group_of[members[p as int][0] as int] == g,
    ensures
        position_of_group(members, group_of, g) == p,
    decreases p,
{
    if p > 0 {
        let rest = members.drop_first();
        assert(!(members[0].len() > 0 && group_of[members[0][0] as int] == g));
        assert forall|h: int| 0 <= h < p - 1 implies !((#[trigger] rest[h]).len() > 0 && group_of[rest[h][0] as int]
            == g) by {
            assert(rest[h] == members[h + 1]);
        }
        lemma_position_of_group_is(rest, group_of, g, (p - 1) as nat);
    }
}

/// The depth of a merged group: its deepest thread, plus one lane for the
/// thread roots when they are shown (saturating).
pub open spec fn group_depth(deepest: u32, shows_roots: bool) -> u32 {
    let extra: int = if shows_roots { 1 } else { 0 };
    if deepest + extra > u32::MAX { u32::MAX } else { (deepest + extra) as u32 }
}

/// The spans of the threads, by position.
pub open spec fn thread_spans(events: Seq<TimelineEvent>, threads: Seq<Arc<ThreadData>>) -> Seq<(u64, u64)> {
    threads.map_values(|t: Arc<ThreadData>| thread_span(events, *t))
}

/// Every root id of the threads names an event of the table.
pub open spec fn roots_in_range(events: Seq<TimelineEvent>, threads: Seq<Arc<ThreadData>>) -> bool {
    forall|k: int|
        0 <= k < threads.len() ==> ((#[trigger] threads[k]).thread_root matches Some(root) ==> root.0
            < events.len())
}

fn pack_threads(spans: &Vec<(u64, u64)>, order: &Vec<(u64, u64, u64)>) -> (r: (Vec<(u64, u64)>, Vec<usize>))
    requires
        order@ == placement_order(spans@),
        order@.len() == spans@.len(),
        forall|m: int| 0 <= m < order@.len() ==> (#[trigger] order@[m]).2 < spans@.len(),
    ensures
        r.0@ == pack(spans@, order@, order@.len() as nat).0,
        r.1@.map_values(|g: usize| g as nat) == pack(spans@, order@, order@.len() as nat).1,
        r.1@.len() == spans@.len(),
{
    let n = spans.len();
    let mut ranges: Vec<(u64, u64)> = Vec::new();
    let mut group_of: Vec<usize> = Vec::new();
    let mut i: usize = 0;
    while i < n
        invariant
            n == spans@.len(),
            i <= n,
            group_of@.len() == i,
            forall|j: int| 0 <= j < i ==> group_of@[j] == 0,
        decreases n - i,
    {
        group_of.push(0);
        i = i + 1;
    }
    assert(group_of@.map_values(|g: usize| g as nat) =~= pack(spans@, order@, 0).1);
    let mut m: usize = 0;
    while m < order.len()
        invariant
            n == spans@.len(),
            order@.len() == n,
            forall|q: int| 0 <= q < order@.len() ==> (#[trigger] order@[q]).2 < spans@.len(),
            m <= order@.len(),
            ranges@ == pack(spans@, order@, m as nat).0,
            ranges@.len() <= m,
            group_of@.len() == n,
            group_of@.map_values(|g: usize| g as nat) == pack(spans@, order@, m as nat).1,
        decreases order@.len() - m,
    {
        let idx = order[m].2 as usize;
        let span = spans[idx];
        let mut g: usize = 0;
        while g < ranges.len() && span.0 < ranges[g].1 && span.1 > ranges[g].0
            invariant
                g <= ranges@.len(),
                forall|h: int| 0 <= h < g ==> spans_overlap(span, #[trigger] ranges@[h]),
            decreases ranges@.len() - g,
        {
            g = g + 1;
        }
        proof {
            lemma_first_fit_is(ranges@, span, g as nat);
        }
        let ghost before = group_of@;
        if g < ranges.len() {
            let r = ranges[g];
            let start = if r.0 <= span.0 { r.0 } else { span.0 };
            let end = if r.1 >= span.1 { r.1 } else { span.1 };
            ranges.set(g, (start, end));
        } else {
            ranges.push(span);
        }
        group_of.set(idx, g);
        proof {
            assert(group_of@.map_values(|g: usize| g as nat) =~= before.map_values(|g: usize| g as nat).update(
                idx as int,
                g as nat,
            ));
        }
        m = m + 1;
    }
    (ranges, group_of)
}

fn regroup_exec(group_of: &Vec<usize>) -> (members: Vec<Vec<usize>>)
    ensures
        forall|j: int, q: int|
            0 <= j < members@.len() && 0 <= q < members@[j]@.len() ==> (#[trigger] members@[j]@[q])
                < group_of@.len(),
        members@.len() == regroup(group_of@.map_values(|g: usize| g as nat), group_of@.len() as nat).len(),
        forall|k: int|
            0 <= k < members@.len() ==> (#[trigger] members@[k])@.map_values(|i: usize| i as nat) == regroup(
                group_of@.map_values(|g: usize| g as nat),
                group_of@.len() as nat,
            )[k],
{
    let ghost gs = group_of@.map_values(|g: usize| g as nat);
    let mut members: Vec<Vec<usize>> = Vec::new();
    let mut idx: usize = 0;
    while idx < group_of.len()
        invariant
            idx <= group_of@.len(),
            gs == group_of@.map_values(|g: usize| g as nat),
            forall|j: int, q: int|
                0 <= j < members@.len() && 0 <= q < members@[j]@.len() ==> (#[trigger] members@[j]@[q])
                    < idx,
            members@.len() == regroup(gs, idx as nat).len(),
            forall|k: int|
                0 <= k < members@.len() ==> (#[trigger] members@[k])@.map_values(|i: usize| i as nat) == regroup(
                    gs,
                    idx as nat,
                )[k],
        decreases group_of@.len() - idx,
    {
        let g = group_of[idx];
        let ghost spec_members = regroup(gs, idx as nat);
        let mut p: usize = 0;
        while p < members.len() && !(members[p].len() > 0 && group_of[members[p][0]] == g)
            invariant
                p <= members@.len(),
                idx < group_of@.len(),
                gs == group_of@.map_values(|g: usize| g as nat),
                forall|j: int, q: int|
                    0 <= j < members@.len() && 0 <= q < members@[j]@.len() ==> (#[trigger] members@[j]@[q])
                        < idx,
                members@.len() == spec_members.len(),
                forall|k: int|
                    0 <= k < members@.len() ==> (#[trigger] members@[k])@.map_values(|i: usize| i as nat)
                        == spec_members[k],
                forall|h: int|
                    0 <= h < p ==> !((#[trigger] spec_members[h]).len() > 0 && gs[spec_members[h][0] as int]
                        == g as nat),
            decreases members@.len() - p,
        {
            proof {
                assert(members@[p as int]@.map_values(|i: usize| i as nat) == spec_members[p as int]);
                if members@[p as int]@.len() > 0 {
                    assert(spec_members[p as int][0] == members@[p as int]@[0] as nat);
                }
            }
            p = p + 1;
        }
        proof {
            if p < members@.len() {
                assert(members@[p as int]@.map_values(|i: usize| i as nat) == spec_members[p as int]);
                assert(spec_members[p as int][0] == members@[p as int]@[0] as nat);
            }
            lemma_position_of_group_is(spec_members, gs, g as nat, p as nat);
        }
        let ghost before = members@;
        if p < members.len() {
            members[p].push(idx);
            proof {
                assert(members@[p as int]@.map_values(|i: usize| i as nat) =~= before[p as int]@.map_values(
                    |i: usize| i as nat,
                ).push(idx as nat));
            }
        } else {
            let mut fresh: Vec<usize> = Vec::new();
            fresh.push(idx);
            members.push(fresh);
            proof {
                assert(members@[p as int]@.map_values(|i: usize| i as nat) =~= seq![idx as nat]);
            }
        }
        proof {
            let next = regroup(gs, (idx + 1) as nat);
            assert forall|k: int| 0 <= k < members@.len() implies (#[trigger] members@[k])@.map_values(
                |i: usize| i as nat,
            ) == next[k] by {
                if k != p {
                    assert(members@[k] == before[k]);
                }
            }
        }
        idx = idx + 1;
    }
    members
}

/// The groups of the merged view: one per set of `merged_members`, in
/// order, each expanded, listing its threads in order, and showing the
/// thread roots when it holds more than one thread.
pub open spec fn is_merged_grouping(
    groups: Seq<ThreadGroup>,
    events: Seq<TimelineEvent>,
    threads: Seq<Arc<ThreadData>>,
) -> bool {
    &&& groups.len() == merged_members(events, threads).len()
    &&& forall|k: int|
        0 <= k < groups.len() ==> {
            let members = merged_members(events, threads)[k];
            &&& (*(#[trigger] groups[k]).threads)@ == members.map_values(|i: nat| threads[i as int])
            &&& groups[k].show_thread_roots == (members.len() > 1)
            &&& groups[k].max_depth == group_depth(members_max_depth(threads, members), members.len() > 1)
            &&& !groups[k].is_collapsed
        }
}

/// Merges threads whose root spans do not overlap into shared groups.
///
/// Threads are visited shortest span first (then by start, then position)
/// and each joins the first group whose covered range its span does not
/// overlap, widening that range; otherwise it starts a new group. Groups are
/// ordered by their first thread and list their threads in order. A group of
/// several threads shows the thread roots, one lane above the events.
pub fn build_merged_thread_groups(events: &Vec<TimelineEvent>, threads: &Vec<Arc<ThreadData>>) -> (r: Vec<
    ThreadGroup,
>)
    requires
        roots_in_range(events@, threads@),
    ensures
        is_merged_grouping(r@, events@, threads@),
{
    let ghost spans_spec = thread_spans(events@, threads@);
    if threads.len() == 0 {
        assert(merged_members(events@, threads@) =~= Seq::<Seq<nat>>::empty());
        return Vec::new();
    }
    let n = threads.len();
    let mut spans: Vec<(u64, u64)> = Vec::new();
    let mut keys: Vec<(u64, u64, u64)> = Vec::new();
    let mut k: usize = 0;
    while k < n
        invariant
            n == threads@.len(),
            roots_in_range(events@, threads@),
            spans_spec == thread_spans(events@, threads@),
            k <= n,
            spans@ =~= spans_spec.take(k as int),
            keys@ =~= placement_keys(spans_spec).take(k as int),
        decreases n - k,
    {
        let thread = &threads[k];
        let mut start = u64::MAX;
        let mut end = 0u64;
        match thread.thread_root {
            Some(root) => {
                let event = &events[root.index()];
                start = event.start_ns;
                end = event.start_ns.saturating_add(event.duration_ns);
            },
            None => {},
        }
        if start == u64::MAX {
            start = 0;
        }
        spans.push((start, end));
        keys.push((end.saturating_sub(start), start, k as u64));
        k = k + 1;
    }
    assert(spans@ =~= spans_spec);
    assert(keys@ =~= placement_keys(spans_spec));
    let order = crate::sort::sort_triples(&keys);
    proof {
        assert forall|m: int| 0 <= m < order@.len() implies (#[trigger] order@[m]).2 < spans@.len() by {
            vstd::seq_lib::to_multiset_contains(order@, order@[m]);
            vstd::seq_lib::to_multiset_contains(keys@, order@[m]);
        }
    }
    let (_ranges, group_of) = pack_threads(&spans, &order);
    let members = regroup_exec(&group_of);
    proof {
        assert(group_of@.len() == n);
    }
    let ghost spec_members = merged_members(events@, threads@);
    let mut groups: Vec<ThreadGroup> = Vec::new();
    let mut k: usize = 0;
    while k < members.len()
        invariant
            n == threads@.len(),
            members@.len() == spec_members.len(),
            forall|j: int|
                0 <= j < members@.len() ==> (#[trigger] members@[j])@.map_values(|i: usize| i as nat)
                    == spec_members[j],
            forall|j: int, q: int|
                0 <= j < members@.len() && 0 <= q < members@[j]@.len() ==> (#[trigger] members@[j]@[q]) < n,
            k <= members@.len(),
            groups@.len() == k,
            forall|j: int|
                0 <= j < k ==> {
                    let m = spec_members[j];
                    &&& (*(#[trigger] groups@[j]).threads)@ == m.map_values(|i: nat| threads@[i as int])
                    &&& groups@[j].show_thread_roots == (m.len() > 1)
                    &&& groups@[j].max_depth == group_depth(members_max_depth(threads@, m), m.len() > 1)
                    &&& !groups@[j].is_collapsed
                },
        decreases members@.len() - k,
    {
        let ghost m = spec_members[k as int];
        let list_ids = &members[k];
        let mut list: Vec<Arc<ThreadData>> = Vec::new();
        let mut max_depth: u32 = 0;
        let mut q: usize = 0;
        while q < list_ids.len()
            invariant
                n == threads@.len(),
                list_ids@.map_values(|i: usize| i as nat) == m,
                forall|p: int| 0 <= p < list_ids@.len() ==> (#[trigger] list_ids@[p]) < n,
                q <= list_ids@.len(),
                list@ =~= m.take(q as int).map_values(|i: nat| threads@[i as int]),
                max_depth == members_max_depth(threads@, m.take(q as int)),
            decreases list_ids@.len() - q,
        {
            let idx = list_ids[q];
            let t = arc_clone(&threads[idx]);
            if t.max_depth > max_depth {
                max_depth = t.max_depth;
            }
            list.push(t);
            proof {
                assert(m.take(q + 1).drop_last() =~= m.take(q as int));
                assert(m[q as int] == idx as nat);
            }
            q = q + 1;
        }
        proof {
            assert(m.take(m.len() as int) =~= m);
        }
        let show_thread_roots = list.len() > 1;
        let extra: u32 = if show_thread_roots { 1 } else { 0 };
        let group_max = max_depth.saturating_add(extra);
        groups.push(
            ThreadGroup {
                threads: Arc::new(list),
                max_depth: group_max,
                is_collapsed: false,
                show_thread_roots,
            },
        );
        k = k + 1;
    }
    groups
}

// ---------------------------------------------------------------------------
// What merging guarantees
// ---------------------------------------------------------------------------

/// The groups of `members` split the threads `0..m`: no group is empty, each
/// lists its threads in increasing position, all members of a group share
/// their entry of `group_of`, and no two groups share one.
pub open spec fn splits(members: Seq<Seq<nat>>, group_of: Seq<nat>, m: nat) -> bool {
    &&& forall|k: int| 0 <= k < members.len() ==> (#[trigger] members[k]).len() > 0
    &&& forall|k: int, p: int, q: int|
        0 <= k < members.len() && 0 <= p < q < members[k].len() ==> (#[trigger] members[k][p]) < (
        #[trigger] members[k][q])
    &&& forall|k: int, p: int| 0 <= k < members.len() && 0 <= p < members[k].len() ==> (#[trigger] members[k][p]) < m
    &&& forall|k: int, p: int|
        0 <= k < members.len() && 0 <= p < members[k].len() ==> group_of[(#[trigger] members[k][p]) as int]
            == group_of[members[k][0] as int]
    &&& forall|k1: int, k2: int|
        0 <= k1 < members.len() && 0 <= k2 < members.len() && k1 != k2 ==> group_of[(
        #[trigger] members[k1])[0] as int] != group_of[(#[trigger] members[k2])[0] as int]
    &&& forall|i: int| 0 <= i < m ==> #[trigger] in_some_group(members, i)
}

/// Some group lists the thread at position `i`.
pub open spec fn in_some_group(members: Seq<Seq<nat>>, i: int) -> bool {
    exists|k: int, p: int| 0 <= k < members.len() && 0 <= p < members[k].len() && members[k][p] == i
}

proof fn lemma_position_of_group_props(members: Seq<Seq<nat>>, group_of: Seq<nat>, g: nat)
    ensures
        position_of_group(members, group_of, g) <= members.len(),
        position_of_group(members, group_of, g) < members.len() ==> {
            let p = position_of_group(members, group_of, g) as int;
            members[p].len() > 0 && group_of[members[p][0] as int] == g
        },
        forall|h: int|
            0 <= h < position_of_group(members, group_of, g) ==> !((#[trigger] members[h]).len() > 0
                && group_of[members[h][0] as int] == g),
    decreases members.len(),
{
    if members.len() > 0 && !(members[0].len() > 0 && group_of[members[0][0] as int] == g) {
        let rest = members.drop_first();
        lemma_position_of_group_props(rest, group_of, g);
        assert forall|h: int| 0 <= h < position_of_group(members, group_of, g) implies !((#[trigger] members[h]).len()
            > 0 && group_of[members[h][0] as int] == g) by {
            if h > 0 {
                assert(members[h] == rest[h - 1]);
            }
        }
    }
}

proof fn lemma_regroup_splits(group_of: Seq<nat>, m: nat)
    requires
        m <= group_of.len(),
    ensures
        splits(regroup(group_of, m), group_of, m),
    decreases m,
{
    if m > 0 {
        let prev = (m - 1) as nat;
        lemma_regroup_splits(group_of, prev);
        let members = regroup(group_of, prev);
        let g = group_of[prev as int];
        let p = position_of_group(members, group_of, g);
        lemma_position_of_group_props(members, group_of, g);
        let next = regroup(group_of, m);
        if p < members.len() {
            assert(next == members.update(p as int, members[p as int].push(prev)));
            assert forall|k: int, q: int| 0 <= k < next.len() && 0 <= q < next[k].len() implies group_of[(
            #[trigger] next[k][q]) as int] == group_of[next[k][0] as int] by {
                if k == p {
                    assert(next[k][0] == members[k][0]);
                }
            }
            assert forall|i: int| 0 <= i < m implies #[trigger] in_some_group(next, i) by {
                if i == prev {
                    assert(next[p as int][members[p as int].len() as int] == prev);
                } else {
                    assert(in_some_group(members, i));
                    let (k, q) = choose|k: int, q: int|
                        0 <= k < members.len() && 0 <= q < members[k].len() && members[k][q] == i;
                    assert(next[k][q] == i);
                }
            }
            assert forall|k1: int, k2: int|
                0 <= k1 < next.len() && 0 <= k2 < next.len() && k1 != k2 implies group_of[(
            #[trigger] next[k1])[0] as int] != group_of[(#[trigger] next[k2])[0] as int] by {
                assert(next[k1][0] == members[k1][0]);
                assert(next[k2][0] == members[k2][0]);
            }
        } else {
            assert(next == members.push(seq![prev]));
            assert forall|k: int, q: int| 0 <= k < next.len() && 0 <= q < next[k].len() implies group_of[(
            #[trigger] next[k][q]) as int] == group_of[next[k][0] as int] by {
                if k < members.len() {
                    assert(next[k] == members[k]);
                }
            }
            assert forall|i: int| 0 <= i < m implies #[trigger] in_some_group(next, i) by {
                if i == prev {
                    assert(next[members.len() as int][0] == prev);
                } else {
                    assert(in_some_group(members, i));
                    let (k, q) = choose|k: int, q: int|
                        0 <= k < members.len() && 0 <= q < members[k].len() && members[k][q] == i;
                    assert(next[k][q] == i);
                }
            }
            assert forall|k1: int, k2: int|
                0 <= k1 < next.len() && 0 <= k2 < next.len() && k1 != k2 implies group_of[(
            #[trigger] next[k1])[0] as int] != group_of[(#[trigger] next[k2])[0] as int] by {
                if k1 < members.len() && k2 < members.len() {
                    assert(next[k1] == members[k1]);
                    assert(next[k2] == members[k2]);
                } else if k1 < members.len() {
                    assert(next[k1] == members[k1]);
                    assert(!(members[k1].len() > 0 && group_of[members[k1][0] as int] == g));
                } else {
                    assert(next[k2] == members[k2]);
                    assert(!(members[k2].len() > 0 && group_of[members[k2][0] as int] == g));
                }
            }
        }
    }
}

/// The placement order visits each thread once: its entries name positions
/// `0..n`, each exactly once.
pub open spec fn visits_each_once(order: Seq<(u64, u64, u64)>, n: nat) -> bool {
    &&& order.len() == n
    &&& forall|t: int| 0 <= t < order.len() ==> (#[trigger] order[t]).2 < n
    &&& forall|t1: int, t2: int|
        0 <= t1 < order.len() && 0 <= t2 < order.len() && t1 != t2 ==> (#[trigger] order[t1]).2 != (
        #[trigger] order[t2]).2
    &&& forall|i: int| 0 <= i < n ==> #[trigger] visits(order, i)
}

/// Some entry of the placement order names position `i`.
pub open spec fn visits(order: Seq<(u64, u64, u64)>, i: int) -> bool {
    exists|t: int| 0 <= t < order.len() && (#[trigger] order[t]).2 == i
}

proof fn lemma_placement_order_visits(spans: Seq<(u64, u64)>)
    requires
        spans.len() <= u64::MAX,
    ensures
        visits_each_once(placement_order(spans), spans.len()),
{
    let keys = placement_keys(spans);
    let le = |a: (u64, u64, u64), b: (u64, u64, u64)| crate::sort::triple_le(a, b);
    crate::sort::lemma_triple_le_total_preorder();
    keys.lemma_sort_by_ensures(le);
    let order = placement_order(spans);
    assert(order == keys.sort_by(le));
    assert(keys.no_duplicates()) by {
        assert forall|a: int, b: int| 0 <= a < keys.len() && 0 <= b < keys.len() && a != b implies keys[a]
            != keys[b] by {
            assert(keys[a].2 == a as u64);
            assert(keys[b].2 == b as u64);
        }
    }
    keys.lemma_multiset_has_no_duplicates();
    order.lemma_multiset_has_no_duplicates_conv();
    assert(order.len() == keys.len()) by {
        order.to_multiset_ensures();
        keys.to_multiset_ensures();
    }
    assert forall|t: int| 0 <= t < order.len() implies (#[trigger] order[t]).2 < spans.len() && keys[order[t].2 as int]
        == order[t] by {
        vstd::seq_lib::to_multiset_contains(order, order[t]);
        vstd::seq_lib::to_multiset_contains(keys, order[t]);
        let a = choose|a: int| 0 <= a < keys.len() && keys[a] == order[t];
        assert(keys[a].2 == a as u64);
    }
    assert forall|t1: int, t2: int|
        0 <= t1 < order.len() && 0 <= t2 < order.len() && t1 != t2 implies (#[trigger] order[t1]).2 != (
    #[trigger] order[t2]).2 by {
        assert(keys[order[t1].2 as int] == order[t1]);
        assert(keys[order[t2].2 as int] == order[t2]);
    }
    assert forall|i: int| 0 <= i < spans.len() implies #[trigger] visits(order, i) by {
        vstd::seq_lib::to_multiset_contains(keys, keys[i]);
        vstd::seq_lib::to_multiset_contains(order, keys[i]);
        let t = choose|t: int| 0 <= t < order.len() && order[t] == keys[i];
        assert(keys[i].2 == i as u64);
    }
}

/// `a` lies within `r`.
pub open spec fn within(a: (u64, u64), r: (u64, u64)) -> bool {
    r.0 <= a.0 && a.1 <= r.1
}

/// What first-fit packing keeps after placing the threads visited first:
/// each placed thread is in an existing group whose range covers its span,
/// and two placed threads of one group have spans that do not overlap.
pub open spec fn packed_well(spans: Seq<(u64, u64)>, order: Seq<(u64, u64, u64)>, m: nat) -> bool {
    let (ranges, group_of) = pack(spans, order, m);
    &&& group_of.len() == spans.len()
    &&& forall|t: int| 0 <= t < m ==> group_of[(#[trigger] order[t]).2 as int] < ranges.len()
    &&& forall|t: int|
        0 <= t < m ==> within(spans[(#[trigger] order[t]).2 as int], ranges[group_of[order[t].2 as int] as int])
    &&& forall|t1: int, t2: int|
        0 <= t1 < m && 0 <= t2 < m && t1 != t2 && group_of[(#[trigger] order[t1]).2 as int] == group_of[(
        #[trigger] order[t2]).2 as int] ==> !spans_overlap(spans[order[t1].2 as int], spans[order[t2].2 as int])
}

proof fn lemma_first_fit_props(ranges: Seq<(u64, u64)>, span: (u64, u64))
    ensures
        first_fit(ranges, span) <= ranges.len(),
        first_fit(ranges, span) < ranges.len() ==> !spans_overlap(span, ranges[first_fit(ranges, span) as int]),
    decreases ranges.len(),
{
    if ranges.len() > 0 && spans_overlap(span, ranges[0]) {
        lemma_first_fit_props(ranges.drop_first(), span);
    }
}

proof fn lemma_pack_well(spans: Seq<(u64, u64)>, order: Seq<(u64, u64, u64)>, m: nat)
    requires
        visits_each_once(order, spans.len()),
        m <= order.len(),
    ensures
        packed_well(spans, order, m),
    decreases m,
{
    if m > 0 {
        let prev = (m - 1) as nat;
        lemma_pack_well(spans, order, prev);
        let (ranges, group_of) = pack(spans, order, prev);
        let idx = order[prev as int].2 as int;
        let span = spans[idx];
        let g = first_fit(ranges, span);
        lemma_first_fit_props(ranges, span);
        let (ranges2, group_of2) = pack(spans, order, m);
        assert(group_of2 == group_of.update(idx, g));
        assert forall|t: int| 0 <= t < prev implies group_of2[(#[trigger] order[t]).2 as int] == group_of[order[
            t].2 as int] by {
            assert(order[t].2 != order[prev as int].2);
        }
        if g < ranges.len() {
            let r = ranges[g as int];
            let hull = (if r.0 <= span.0 { r.0 } else { span.0 }, if r.1 >= span.1 { r.1 } else { span.1 });
            assert(ranges2 == ranges.update(g as int, hull));
            assert forall|t: int| 0 <= t < m implies within(
                spans[(#[trigger] order[t]).2 as int],
                ranges2[group_of2[order[t].2 as int] as int],
            ) by {
                if t < prev {
                    assert(group_of2[order[t].2 as int] == group_of[order[t].2 as int]);
                }
            }
            assert forall|t1: int, t2: int|
                0 <= t1 < m && 0 <= t2 < m && t1 != t2 && group_of2[(#[trigger] order[t1]).2 as int]
                    == group_of2[(#[trigger] order[t2]).2 as int] implies !spans_overlap(
                spans[order[t1].2 as int],
                spans[order[t2].2 as int],
            ) by {
                if t1 < prev && t2 < prev {
                    assert(group_of2[order[t1].2 as int] == group_of[order[t1].2 as int]);
                    assert(group_of2[order[t2].2 as int] == group_of[order[t2].2 as int]);
                } else if t1 < prev {
                    assert(group_of2[order[t1].2 as int] == group_of[order[t1].2 as int]);
                    assert(within(spans[order[t1].2 as int], ranges[g as int]));
                } else {
                    assert(group_of2[order[t2].2 as int] == group_of[order[t2].2 as int]);
                    assert(within(spans[order[t2].2 as int], ranges[g as int]));
                }
            }
        } else {
            assert(ranges2 == ranges.push(span));
            assert forall|t: int| 0 <= t < m implies within(
                spans[(#[trigger] order[t]).2 as int],
                ranges2[group_of2[order[t].2 as int] as int],
            ) by {
                if t < prev {
                    assert(group_of2[order[t].2 as int] == group_of[order[t].2 as int]);
                }
            }
            assert forall|t1: int, t2: int|
                0 <= t1 < m && 0 <= t2 < m && t1 != t2 && group_of2[(#[trigger] order[t1]).2 as int]
                    == group_of2[(#[trigger] order[t2]).2 as int] implies !spans_overlap(
                spans[order[t1].2 as int],
                spans[order[t2].2 as int],
            ) by {
                if t1 < prev && t2 < prev {
                    assert(group_of2[order[t1].2 as int] == group_of[order[t1].2 as int]);
                    assert(group_of2[order[t2].2 as int] == group_of[order[t2].2 as int]);
                } else if t1 < prev {
                    assert(group_of2[order[t1].2 as int] == group_of[order[t1].2 as int]);
                } else {
                    assert(group_of2[order[t2].2 as int] == group_of[order[t2].2 as int]);
                }
            }
        }
    }
}

/// Merging splits the threads into groups: each thread is in exactly one
/// group, each group is non-empty and lists its threads in increasing
/// position, and no two threads of a group have overlapping root spans.
pub proof fn law_merged_groups_partition(events: Seq<TimelineEvent>, threads: Seq<Arc<ThreadData>>)
    requires
        threads.len() <= usize::MAX,
    ensures
        ({
            let members = merged_members(events, threads);
            let spans = thread_spans(events, threads);
            &&& forall|k: int| 0 <= k < members.len() ==> (#[trigger] members[k]).len() > 0
            &&& forall|k: int, p: int, q: int|
                0 <= k < members.len() && 0 <= p < q < members[k].len() ==> (#[trigger] members[k][p]) < (
                #[trigger] members[k][q])
            &&& forall|k: int, p: int|
                0 <= k < members.len() && 0 <= p < members[k].len() ==> (#[trigger] members[k][p]) < threads.len()
            &&& forall|i: int| 0 <= i < threads.len() ==> #[trigger] in_some_group(members, i)
            &&& forall|k1: int, p1: int, k2: int, p2: int|
                0 <= k1 < members.len() && 0 <= p1 < members[k1].len() && 0 <= k2 < members.len() && 0 <= p2
                    < members[k2].len() && (#[trigger] members[k1][p1]) == (#[trigger] members[k2][p2]) ==> k1 == k2
                    && p1 == p2
            &&& forall|k: int, p: int, q: int|
                0 <= k < members.len() && 0 <= p < members[k].len() && 0 <= q < members[k].len() && p != q
                    ==> !spans_overlap(spans[(#[trigger] members[k][p]) as int], spans[(#[trigger] members[k][q]) as int])
        }),
{
    let spans = thread_spans(events, threads);
    let n = threads.len();
    assert(spans == threads.map_values(|t: Arc<ThreadData>| thread_span(events, *t)));
    let order = placement_order(spans);
    lemma_placement_order_visits(spans);
    lemma_pack_well(spans, order, order.len());
    let group_of = pack(spans, order, order.len()).1;
    lemma_regroup_splits(group_of, n);
    let members = regroup(group_of, n);
    assert(members == merged_members(events, threads));
    assert forall|k1: int, p1: int, k2: int, p2: int|
        0 <= k1 < members.len() && 0 <= p1 < members[k1].len() && 0 <= k2 < members.len() && 0 <= p2
            < members[k2].len() && (#[trigger] members[k1][p1]) == (#[trigger] members[k2][p2]) implies k1 == k2
            && p1 == p2 by {
        if k1 != k2 {
            assert(group_of[members[k1][p1] as int] == group_of[members[k1][0] as int]);
            assert(group_of[members[k2][p2] as int] == group_of[members[k2][0] as int]);
        } else if p1 < p2 {
            assert(members[k1][p1] < members[k1][p2]);
        } else if p2 < p1 {
            assert(members[k1][p2] < members[k1][p1]);
        }
    }
    assert forall|k: int, p: int, q: int|
        0 <= k < members.len() && 0 <= p < members[k].len() && 0 <= q < members[k].len() && p != q
            implies !spans_overlap(spans[(#[trigger] members[k][p]) as int], spans[(#[trigger] members[k][q]) as int]) by {
        let i = members[k][p] as int;
        let j = members[k][q] as int;
        assert(group_of[i] == group_of[members[k][0] as int]);
        assert(group_of[j] == group_of[members[k][0] as int]);
        assert(visits(order, i));
        assert(visits(order, j));
        let t1 = choose|t: int| 0 <= t < order.len() && (#[trigger] order[t]).2 == i;
        let t2 = choose|t: int| 0 <= t < order.len() && (#[trigger] order[t]).2 == j;
        if p < q {
            assert(i < j);
        } else {
            assert(j < i);
        }
        assert(t1 != t2);
    }
}


// ---------------------------------------------------------------------------
// Depths of threads and groups
// ---------------------------------------------------------------------------

proof fn lemma_max_depth_of_bounds(events: Seq<TimelineEvent>, ids: Seq<EventId>)
    ensures
        forall|p: int| 0 <= p < ids.len() ==> events[(#[trigger] ids[p]).0 as int].depth <= max_depth_of(events, ids),
        ids.len() == 0 ==> max_depth_of(events, ids) == 0,
        ids.len() > 0 ==> exists|p: int|
            0 <= p < ids.len() && events[(#[trigger] ids[p]).0 as int].depth == max_depth_of(events, ids),
    decreases ids.len(),
{
    if ids.len() > 0 {
        let init = ids.drop_last();
        lemma_max_depth_of_bounds(events, init);
        let n = ids.len() - 1;
        assert forall|p: int| 0 <= p < ids.len() implies events[(#[trigger] ids[p]).0 as int].depth <= max_depth_of(
            events,
            ids,
        ) by {
            if p < n {
                assert(init[p] == ids[p]);
            }
        }
        if events[ids[n].0 as int].depth > max_depth_of(events, init) || init.len() == 0 {
            assert(events[ids[n].0 as int].depth == max_depth_of(events, ids));
        } else {
            let p = choose|p: int| 0 <= p < init.len() && events[(#[trigger] init[p]).0 as int].depth == max_depth_of(
                events,
                init,
            );
            assert(init[p] == ids[p]);
        }
    }
}

/// A thread's depth is the deepest depth among its events: no event of the
/// thread is deeper, one of them is that deep, and a thread without events
/// has depth 0.
pub proof fn law_thread_max_depth(
    t: ThreadData,
    events: Seq<TimelineEvent>,
    base: nat,
    infos: Seq<Option<(u32, u64, u64)>>,
    k: int,
    thread: (u32, Seq<EventId>),
)
    requires
        thread_data_matches(t, events, base, infos, k, thread),
    ensures
        forall|p: int| 0 <= p < thread.1.len() ==> events[(#[trigger] thread.1[p]).0 as int].depth <= t.max_depth,
        thread.1.len() == 0 ==> t.max_depth == 0,
        thread.1.len() > 0 ==> exists|p: int|
            0 <= p < thread.1.len() && events[(#[trigger] thread.1[p]).0 as int].depth == t.max_depth,
{
    lemma_max_depth_of_bounds(events, thread.1);
}

proof fn lemma_members_max_depth_bounds(threads: Seq<Arc<ThreadData>>, members: Seq<nat>)
    ensures
        forall|p: int| 0 <= p < members.len() ==> threads[(#[trigger] members[p]) as int].max_depth <= members_max_depth(
            threads,
            members,
        ),
        members.len() > 0 ==> exists|p: int|
            0 <= p < members.len() && threads[(#[trigger] members[p]) as int].max_depth == members_max_depth(
                threads,
                members,
            ),
    decreases members.len(),
{
    if members.len() > 0 {
        let init = members.drop_last();
        lemma_members_max_depth_bounds(threads, init);
        let n = members.len() - 1;
        assert forall|p: int| 0 <= p < members.len() implies threads[(#[trigger] members[p]) as int].max_depth
            <= members_max_depth(threads, members) by {
            if p < n {
                assert(init[p] == members[p]);
            }
        }
        if threads[members[n] as int].max_depth > members_max_depth(threads, init) || init.len() == 0 {
            assert(threads[members[n] as int].max_depth == members_max_depth(threads, members));
        } else {
            let p = choose|p: int|
                0 <= p < init.len() && threads[(#[trigger] init[p]) as int].max_depth == members_max_depth(threads, init);
            assert(init[p] == members[p]);
        }
    }
}

/// A merged group is as deep as its deepest member thread plus one lane when
/// it shows the thread roots (capped at `u32::MAX`): no member needs more
/// lanes, and one member needs exactly that many.
pub proof fn law_merged_group_depth(
    groups: Seq<ThreadGroup>,
    events: Seq<TimelineEvent>,
    threads: Seq<Arc<ThreadData>>,
    k: int,
)
    requires
        is_merged_grouping(groups, events, threads),
        threads.len() <= usize::MAX,
        0 <= k < groups.len(),
    ensures
        ({
            let members = merged_members(events, threads)[k];
            let lanes: int = if groups[k].show_thread_roots { 1 } else { 0 };
            &&& groups[k].show_thread_roots == (members.len() > 1)
            &&& forall|p: int|
                0 <= p < members.len() ==> groups[k].max_depth >= threads[(#[trigger] members[p]) as int].max_depth
                    + lanes || groups[k].max_depth == u32::MAX
            &&& exists|p: int|
                0 <= p < members.len() && (groups[k].max_depth == threads[(#[trigger] members[p]) as int].max_depth
                    + lanes || (groups[k].max_depth == u32::MAX && threads[members[p] as int].max_depth + lanes
                    > u32::MAX))
        }),
{
    let members = merged_members(events, threads)[k];
    law_merged_groups_partition(events, threads);
    assert(members.len() > 0);
    lemma_members_max_depth_bounds(threads, members);
    let p = choose|p: int|
        0 <= p < members.len() && threads[(#[trigger] members[p]) as int].max_depth == members_max_depth(threads, members);
    assert(threads[members[p] as int].max_depth == members_max_depth(threads, members));
}


// ---------------------------------------------------------------------------
// First-fit merging
// ---------------------------------------------------------------------------

/// Group `h` of a packing, with the first `m` threads of `order` placed,
/// covers exactly the hull of its members' spans: some member starts where
/// the group's range starts and some member ends where it ends.
pub open spec fn range_is_hull(spans: Seq<(u64, u64)>, order: Seq<(u64, u64, u64)>, m: nat, h: int) -> bool {
    let (ranges, group_of) = pack(spans, order, m);
    &&& exists|t: int|
        0 <= t < m && group_of[order[t].2 as int] == h && #[trigger] spans[order[t].2 as int].0 == ranges[h].0
    &&& exists|t: int|
        0 <= t < m && group_of[order[t].2 as int] == h && #[trigger] spans[order[t].2 as int].1 == ranges[h].1
}

proof fn lemma_first_fit_before(ranges: Seq<(u64, u64)>, span: (u64, u64))
    ensures
        forall|h: int| 0 <= h < first_fit(ranges, span) ==> spans_overlap(span, #[trigger] ranges[h]),
    decreases ranges.len(),
{
    if ranges.len() > 0 && spans_overlap(span, ranges[0]) {
        let rest = ranges.drop_first();
        lemma_first_fit_before(rest, span);
        lemma_first_fit_props(rest, span);
        assert forall|h: int| 0 <= h < first_fit(ranges, span) implies spans_overlap(span, #[trigger] ranges[h]) by {
            if h > 0 {
                assert(ranges[h] == rest[h - 1]);
            }
        }
    }
}

proof fn lemma_pack_hulls(spans: Seq<(u64, u64)>, order: Seq<(u64, u64, u64)>, m: nat)
    requires
        visits_each_once(order, spans.len()),
        m <= order.len(),
    ensures
        pack(spans, order, m).1.len() == spans.len(),
        forall|h: int| 0 <= h < pack(spans, order, m).0.len() ==> #[trigger] range_is_hull(spans, order, m, h),
        forall|t: int|
            0 <= t < m && #[trigger] pack(spans, order, m).1[order[t].2 as int] < pack(spans, order, t as nat).0.len()
                ==> !spans_overlap(
                spans[order[t].2 as int],
                pack(spans, order, t as nat).0[pack(spans, order, m).1[order[t].2 as int] as int],
            ),
        forall|t: int, h: int|
            0 <= t < m && 0 <= h < pack(spans, order, m).1[(#[trigger] order[t]).2 as int] ==> spans_overlap(
                spans[order[t].2 as int],
                #[trigger] pack(spans, order, t as nat).0[h],
            ),
    decreases m,
{
    if m > 0 {
        let prev = (m - 1) as nat;
        lemma_pack_hulls(spans, order, prev);
        lemma_pack_well(spans, order, prev);
        let (ranges, group_of) = pack(spans, order, prev);
        let idx = order[prev as int].2 as int;
        let span = spans[idx];
        let g = first_fit(ranges, span);
        lemma_first_fit_props(ranges, span);
        lemma_first_fit_before(ranges, span);
        let (ranges2, group_of2) = pack(spans, order, m);
        assert(group_of2 == group_of.update(idx, g));
        assert forall|t: int| 0 <= t < prev implies group_of2[(#[trigger] order[t]).2 as int] == group_of[order[
            t].2 as int] by {
            assert(order[t].2 != order[prev as int].2);
        }
        assert forall|t: int|
            0 <= t < m && #[trigger] group_of2[order[t].2 as int] < pack(spans, order, t as nat).0.len() implies !spans_overlap(
            spans[order[t].2 as int],
            pack(spans, order, t as nat).0[group_of2[order[t].2 as int] as int],
        ) by {
            if t < prev {
                assert(group_of2[order[t].2 as int] == group_of[order[t].2 as int]);
            } else {
                assert(group_of2[idx] == g);
                assert(pack(spans, order, t as nat).0 == ranges);
            }
        }
        assert forall|t: int, h: int|
            0 <= t < m && 0 <= h < group_of2[(#[trigger] order[t]).2 as int] implies spans_overlap(
            spans[order[t].2 as int],
            #[trigger] pack(spans, order, t as nat).0[h],
        ) by {
            if t < prev {
                assert(group_of2[order[t].2 as int] == group_of[order[t].2 as int]);
            } else {
                assert(group_of2[idx] == g);
                assert(pack(spans, order, t as nat).0 == ranges);
            }
        }
        assert forall|h: int| 0 <= h < ranges2.len() implies #[trigger] range_is_hull(spans, order, m, h) by {
            if h < ranges.len() {
                assert(range_is_hull(spans, order, prev, h));
                let t0 = choose|t: int|
                    0 <= t < prev && group_of[order[t].2 as int] == h && #[trigger] spans[order[t].2 as int].0
                        == ranges[h].0;
                let t1 = choose|t: int|
                    0 <= t < prev && group_of[order[t].2 as int] == h && #[trigger] spans[order[t].2 as int].1
                        == ranges[h].1;
                assert(group_of2[order[t0].2 as int] == h);
                assert(group_of2[order[t1].2 as int] == h);
                if h == g {
                    let r = ranges[h];
                    assert(ranges2[h] == (
                        if r.0 <= span.0 { r.0 } else { span.0 },
                        if r.1 >= span.1 { r.1 } else { span.1 },
                    ));
                    assert(group_of2[order[prev as int].2 as int] == h);
                    if r.0 <= span.0 {
                        assert(spans[order[t0].2 as int].0 == ranges2[h].0);
                    } else {
                        assert(spans[order[prev as int].2 as int].0 == ranges2[h].0);
                    }
                    if r.1 >= span.1 {
                        assert(spans[order[t1].2 as int].1 == ranges2[h].1);
                    } else {
                        assert(spans[order[prev as int].2 as int].1 == ranges2[h].1);
                    }
                } else {
                    assert(ranges2[h] == ranges[h]);
                    assert(spans[order[t0].2 as int].0 == ranges2[h].0);
                    assert(spans[order[t1].2 as int].1 == ranges2[h].1);
                }
            } else {
                assert(ranges2 == ranges.push(span));
                assert(group_of2[order[prev as int].2 as int] == h);
                assert(spans[order[prev as int].2 as int].0 == ranges2[h].0);
                assert(spans[order[prev as int].2 as int].1 == ranges2[h].1);
            }
        }
    }
}

/// Merging is first fit over exact hulls. Threads are placed in placement
/// order; each group covers exactly the hull of its members' spans (the
/// earliest start and the latest end among them, and every member lies
/// within it), and a thread placed in group `g` overlaps, when it is placed,
/// the hull of every earlier group `h < g`, and not the hull of `g` itself
/// when `g` already existed.
pub proof fn law_merge_first_fit(spans: Seq<(u64, u64)>, m: nat)
    requires
        spans.len() <= u64::MAX,
        m <= spans.len(),
    ensures
        ({
            let order = placement_order(spans);
            let (ranges, group_of) = pack(spans, order, m);
            &&& forall|t: int|
                0 <= t < m ==> group_of[(#[trigger] order[t]).2 as int] < ranges.len() && ranges[group_of[order[t].2 as int] as int].0
                    <= spans[order[t].2 as int].0 && spans[order[t].2 as int].1 <= ranges[group_of[order[t].2 as int] as int].1
            &&& forall|h: int| 0 <= h < ranges.len() ==> #[trigger] range_is_hull(spans, order, m, h)
            &&& forall|t: int|
                0 <= t < m && #[trigger] group_of[order[t].2 as int] < pack(spans, order, t as nat).0.len() ==> {
                    let r = pack(spans, order, t as nat).0[group_of[order[t].2 as int] as int];
                    !(spans[order[t].2 as int].0 < r.1 && spans[order[t].2 as int].1 > r.0)
                }
            &&& forall|t: int, h: int|
                0 <= t < m && 0 <= h < group_of[(#[trigger] order[t]).2 as int] ==> spans[order[t].2 as int].0
                    < (#[trigger] pack(spans, order, t as nat).0[h]).1 && spans[order[t].2 as int].1 > pack(
                    spans,
                    order,
                    t as nat,
                ).0[h].0
        }),
{
    let order = placement_order(spans);
    lemma_placement_order_visits(spans);
    lemma_pack_well(spans, order, m);
    lemma_pack_hulls(spans, order, m);
}

} // verus!
