//! What the timeline shows of a time window: the span of a file, the events
//! and shadows of a level that meet the window, and which groups hold a
//! thread.
use crate::data::{sat_add, sat_sub, EventId, ThreadGroup, ThreadGroupMipMapShadows};
use crate::tree::{event_tree_contents, event_tree_query, overlaps, shadow_tree_contents, shadow_tree_query};
use intervaltree::IntervalTree;
use vstd::multiset::Multiset;
use vstd::prelude::*;
use vstd::string::StringExecFns;

verus! {

/// The time a file spans: `max_ns - min_ns`, floored at 0.
pub fn total_ns(min_ns: u64, max_ns: u64) -> (r: u64)
    ensures
        r == sat_sub(max_ns, min_ns),
{
    max_ns.saturating_sub(min_ns)
}

/// Whether one of the group's threads is the thread `thread_id`.
pub fn group_contains_thread(group: &ThreadGroup, thread_id: u32) -> (r: bool)
    ensures
        r == exists|k: int|
            0 <= k < (*group.threads)@.len() && (#[trigger] (*group.threads)@[k]).thread_id == thread_id,
{
    let threads: &Vec<std::sync::Arc<crate::data::ThreadData>> = &group.threads;
    let mut k: usize = 0;
    while k < threads.len()
        invariant
            k <= threads@.len(),
            threads@ == (*group.threads)@,
            forall|j: int| 0 <= j < k ==> (#[trigger] threads@[j]).thread_id != thread_id,
        decreases threads@.len() - k,
    {
        if threads[k].thread_id == thread_id {
            assert((*group.threads)@[k as int].thread_id == thread_id);
            return true;
        }
        k = k + 1;
    }
    false
}

/// The elements of an event tree that meet the window `ns_min..=ns_max`.
pub open spec fn events_in_window(contents: Multiset<(u64, u64, u32)>, ns_min: u64, ns_max: u64) -> Multiset<
    (u64, u64, u32),
> {
    contents.filter(|x: (u64, u64, u32)| overlaps(x.0, x.1, ns_min, sat_add(ns_max, 1)))
}

/// The ranges of a shadow tree that meet the window `ns_min..=ns_max`.
pub open spec fn shadows_in_window(contents: Multiset<(u64, u64)>, ns_min: u64, ns_max: u64) -> Multiset<
    (u64, u64),
> {
    contents.filter(|x: (u64, u64)| overlaps(x.0, x.1, ns_min, sat_add(ns_max, 1)))
}

/// The ids of the events of a level that meet the window `ns_min..=ns_max`,
/// in the order the tree yields them.
pub fn visible_event_indices_in(tree: &IntervalTree<u64, EventId>, ns_min: u64, ns_max: u64) -> (r: Vec<EventId>)
    ensures
        exists|items: Seq<(u64, u64, u32)>|
            #[trigger] items.to_multiset() == events_in_window(event_tree_contents(*tree), ns_min, ns_max)
                && r@ == items.map_values(|x: (u64, u64, u32)| EventId(x.2)),
{
    let found = event_tree_query(tree, ns_min, ns_max.saturating_add(1));
    let ghost items = found@.map_values(|x: (u64, u64, EventId)| crate::tree::plain_event_range(x));
    let mut ids: Vec<EventId> = Vec::new();
    let mut k: usize = 0;
    while k < found.len()
        invariant
            k <= found@.len(),
            items == found@.map_values(|x: (u64, u64, EventId)| crate::tree::plain_event_range(x)),
            ids@ == items.take(k as int).map_values(|x: (u64, u64, u32)| EventId(x.2)),
        decreases found@.len() - k,
    {
        ids.push(found[k].2);
        proof {
            assert(items.take(k + 1) =~= items.take(k as int).push(items[k as int]));
            assert(ids@ =~= items.take(k + 1).map_values(|x: (u64, u64, u32)| EventId(x.2)));
        }
        k = k + 1;
    }
    assert(items.take(items.len() as int) =~= items);
    assert(items.to_multiset() == events_in_window(event_tree_contents(*tree), ns_min, ns_max));
    ids
}

/// The shadows of a level as `(depth, start, duration)` rows: depth by
/// depth, each depth's ranges in the order given.
pub open spec fn shadow_rows(ranges: Seq<Seq<(u64, u64)>>) -> Seq<(u32, u64, u64)>
    decreases ranges.len(),
{
    if ranges.len() == 0 {
        Seq::empty()
    } else {
        let d = ranges.len() - 1;
        shadow_rows(ranges.drop_last()) + ranges.last().map_values(
            |x: (u64, u64)| (d as u32, x.0, sat_sub(x.1, x.0)),
        )
    }
}

/// The shadows of a level that meet the window `ns_min..=ns_max`, as
/// `(depth, start, duration)`, depth by depth.
pub fn visible_shadows_in(shadows: &ThreadGroupMipMapShadows, ns_min: u64, ns_max: u64) -> (r: Vec<(u32, u64, u64)>)
    requires
        shadows.levels@.len() <= u32::MAX + 1,
    ensures
        exists|ranges: Seq<Seq<(u64, u64)>>|
            {
                &&& ranges.len() == shadows.levels@.len()
                &&& forall|d: int|
                    0 <= d < ranges.len() ==> (#[trigger] ranges[d]).to_multiset() == shadows_in_window(
                        shadow_tree_contents(shadows.levels@[d].events_tree),
                        ns_min,
                        ns_max,
                    )
                &&& r@ == #[trigger] shadow_rows(ranges)
            },
{
    let levels = &shadows.levels;
    let mut out: Vec<(u32, u64, u64)> = Vec::new();
    let ghost mut ranges: Seq<Seq<(u64, u64)>> = Seq::empty();
    let mut d: usize = 0;
    while d < levels.len()
        invariant
            d <= levels@.len(),
            levels@.len() <= u32::MAX + 1,
            ranges.len() == d,
            forall|e: int|
                0 <= e < d ==> (#[trigger] ranges[e]).to_multiset() == shadows_in_window(
                    shadow_tree_contents(levels@[e].events_tree),
                    ns_min,
                    ns_max,
                ),
            out@ == shadow_rows(ranges),
        decreases levels@.len() - d,
    {
        let found = shadow_tree_query(&levels[d].events_tree, ns_min, ns_max.saturating_add(1));
        let ghost before = out@;
        let mut k: usize = 0;
        while k < found.len()
            invariant
                k <= found@.len(),
                d < levels@.len(),
                levels@.len() <= u32::MAX + 1,
                out@ == before + found@.take(k as int).map_values(
                    |x: (u64, u64)| (d as u32, x.0, sat_sub(x.1, x.0)),
                ),
            decreases found@.len() - k,
        {
            let (start, end) = found[k];
            out.push((d as u32, start, end.saturating_sub(start)));
            proof {
                assert(found@.take(k + 1) =~= found@.take(k as int).push(found@[k as int]));
                assert(out@ =~= before + found@.take(k + 1).map_values(
                    |x: (u64, u64)| (d as u32, x.0, sat_sub(x.1, x.0)),
                ));
            }
            k = k + 1;
        }
        proof {
            assert(found@.take(found@.len() as int) =~= found@);
            let next = ranges.push(found@);
            assert(next.drop_last() =~= ranges);
            ranges = next;
        }
        d = d + 1;
    }
    out
}

proof fn lemma_shadow_row_source(ranges: Seq<Seq<(u64, u64)>>, j: int)
    requires
        0 <= j < shadow_rows(ranges).len(),
    ensures
        exists|d: int, q: int|
            0 <= d < ranges.len() && 0 <= q < ranges[d].len() && shadow_rows(ranges)[j] == (
                d as u32,
                (#[trigger] ranges[d][q]).0,
                sat_sub(ranges[d][q].1, ranges[d][q].0),
            ),
    decreases ranges.len(),
{
    let init = ranges.drop_last();
    let d = ranges.len() - 1;
    let tail = ranges.last().map_values(|x: (u64, u64)| (d as u32, x.0, sat_sub(x.1, x.0)));
    assert(shadow_rows(ranges) == shadow_rows(init) + tail);
    if j < shadow_rows(init).len() {
        lemma_shadow_row_source(init, j);
        let (d0, q0) = choose|d0: int, q0: int|
            0 <= d0 < init.len() && 0 <= q0 < init[d0].len() && shadow_rows(init)[j] == (
                d0 as u32,
                (#[trigger] init[d0][q0]).0,
                sat_sub(init[d0][q0].1, init[d0][q0].0),
            );
        assert(init[d0] == ranges[d0]);
        assert(shadow_rows(ranges)[j] == shadow_rows(init)[j]);
        assert(ranges[d0][q0] == init[d0][q0]);
    } else {
        let q = j - shadow_rows(init).len();
        assert(shadow_rows(ranges)[j] == tail[q]);
        assert(ranges[d][q] == ranges.last()[q]);
    }
}

/// Every row `(d, start, len)` of the visible shadows of a level comes from
/// the shadow list at depth `d`: that list holds a range `start..end`
/// meeting the window `ns_min..=ns_max`, with `len == end - start`.
pub proof fn law_shadow_rows_keep_depth(
    shadows: ThreadGroupMipMapShadows,
    ns_min: u64,
    ns_max: u64,
    ranges: Seq<Seq<(u64, u64)>>,
    j: int,
)
    requires
        ranges.len() == shadows.levels@.len(),
        shadows.levels@.len() <= u32::MAX + 1,
        forall|d: int|
            0 <= d < ranges.len() ==> (#[trigger] ranges[d]).to_multiset() == shadows_in_window(
                shadow_tree_contents(shadows.levels@[d].events_tree),
                ns_min,
                ns_max,
            ),
        0 <= j < shadow_rows(ranges).len(),
    ensures
        exists|d: int, x: (u64, u64)|
            0 <= d < shadows.levels@.len() && shadow_tree_contents(shadows.levels@[d].events_tree).count(x) > 0
                && x.0 <= ns_max && ns_min < x.1 && #[trigger] shadow_rows(ranges)[j] == (
                d as u32,
                x.0,
                (if x.1 >= x.0 { x.1 - x.0 } else { 0 }) as u64,
            ),
{
    lemma_shadow_row_source(ranges, j);
    let (d, q) = choose|d: int, q: int|
        0 <= d < ranges.len() && 0 <= q < ranges[d].len() && shadow_rows(ranges)[j] == (
            d as u32,
            (#[trigger] ranges[d][q]).0,
            sat_sub(ranges[d][q].1, ranges[d][q].0),
        );
    let x = ranges[d][q];
    vstd::seq_lib::to_multiset_contains(ranges[d], x);
    assert(ranges[d].to_multiset().count(x) > 0);
    assert(shadow_tree_contents(shadows.levels@[d].events_tree).count(x) > 0);
}

proof fn lemma_shadow_row_present(ranges: Seq<Seq<(u64, u64)>>, d: int, q: int)
    requires
        0 <= d < ranges.len(),
        0 <= q < ranges[d].len(),
    ensures
        exists|j: int|
            0 <= j < shadow_rows(ranges).len() && #[trigger] shadow_rows(ranges)[j] == (
                d as u32,
                ranges[d][q].0,
                sat_sub(ranges[d][q].1, ranges[d][q].0),
            ),
    decreases ranges.len(),
{
    let init = ranges.drop_last();
    let n = ranges.len() - 1;
    let tail = ranges.last().map_values(|x: (u64, u64)| (n as u32, x.0, sat_sub(x.1, x.0)));
    assert(shadow_rows(ranges) == shadow_rows(init) + tail);
    if d < n {
        lemma_shadow_row_present(init, d, q);
        assert(init[d] == ranges[d]);
        let j = choose|j: int|
            0 <= j < shadow_rows(init).len() && #[trigger] shadow_rows(init)[j] == (
                d as u32,
                init[d][q].0,
                sat_sub(init[d][q].1, init[d][q].0),
            );
        assert(shadow_rows(ranges)[j] == shadow_rows(init)[j]);
    } else {
        let j = shadow_rows(init).len() + q;
        assert(shadow_rows(ranges)[j] == tail[q]);
    }
}

/// Every range of the shadow list at depth `d` that meets the window
/// `ns_min..=ns_max` (starting before `ns_max + 1`, capped at `u64::MAX`,
/// and ending after `ns_min`) shows as a row `(d, start, end - start)`.
pub proof fn law_shadow_rows_show_every_shadow(
    shadows: ThreadGroupMipMapShadows,
    ns_min: u64,
    ns_max: u64,
    ranges: Seq<Seq<(u64, u64)>>,
    d: int,
    x: (u64, u64),
)
    requires
        ranges.len() == shadows.levels@.len(),
        shadows.levels@.len() <= u32::MAX + 1,
        forall|e: int|
            0 <= e < ranges.len() ==> (#[trigger] ranges[e]).to_multiset() == shadows_in_window(
                shadow_tree_contents(shadows.levels@[e].events_tree),
                ns_min,
                ns_max,
            ),
        0 <= d < shadows.levels@.len(),
        shadow_tree_contents(shadows.levels@[d].events_tree).count(x) > 0,
        x.0 < ns_max || (x.0 == ns_max && ns_max < u64::MAX),
        ns_min < x.1,
    ensures
        exists|j: int|
            0 <= j < shadow_rows(ranges).len() && #[trigger] shadow_rows(ranges)[j] == (
                d as u32,
                x.0,
                (if x.1 >= x.0 { x.1 - x.0 } else { 0 }) as u64,
            ),
{
    let win = shadows_in_window(shadow_tree_contents(shadows.levels@[d].events_tree), ns_min, ns_max);
    vstd::multiset::axiom_filter_count(
        shadow_tree_contents(shadows.levels@[d].events_tree),
        |y: (u64, u64)| overlaps(y.0, y.1, ns_min, sat_add(ns_max, 1)),
        x,
    );
    assert(win.count(x) > 0);
    assert(ranges[d].to_multiset().count(x) > 0);
    vstd::seq_lib::to_multiset_contains(ranges[d], x);
    let q = choose|q: int| 0 <= q < ranges[d].len() && ranges[d][q] == x;
    lemma_shadow_row_present(ranges, d, q);
}

/// The label of a group in the thread panel: `Thread <id>` for a group of
/// one thread, `Merged` otherwise.
pub open spec fn group_label_text(group: ThreadGroup) -> Seq<char> {
    if (*group.threads)@.len() == 1 {
        crate::text::thread_label((*group.threads)@[0].thread_id as nat)
    } else {
        "Merged"@
    }
}

/// The label of a group in the thread panel.
pub fn group_label(group: &ThreadGroup) -> (s: String)
    ensures
        s@ == group_label_text(*group),
{
    let threads: &Vec<std::sync::Arc<crate::data::ThreadData>> = &group.threads;
    if threads.len() == 1 {
        crate::text::thread_label_string(threads[0].thread_id)
    } else {
        let s = String::from_str("Merged");
        proof {
            reveal_strlit("Merged");
        }
        s
    }
}

} // verus!
