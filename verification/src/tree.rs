//! The interval trees of the `intervaltree` crate, as the data model uses them:
//! one keyed by event time ranges and holding event ids, one holding bare
//! shadow ranges.
use crate::data::EventId;
use intervaltree::IntervalTree;
use vstd::multiset::Multiset;
use vstd::prelude::*;

verus! {

#[verifier::external_type_specification]
#[verifier::external_body]
#[verifier::reject_recursive_types(K)]
#[verifier::reject_recursive_types(V)]
pub struct ExIntervalTree<K, V>(IntervalTree<K, V>);

/// `IntervalTree::clone` (derived by the crate) copies the tree; nothing is
/// stated of the copy.
pub assume_specification<K: Clone, V: Clone>[ <IntervalTree<K, V> as Clone>::clone ](
    t: &IntervalTree<K, V>,
) -> IntervalTree<K, V>;

/// The elements of an event tree, as `(start, end, event index)` with the
/// range `start..end`.
pub uninterp spec fn event_tree_contents(t: IntervalTree<u64, EventId>) -> Multiset<(u64, u64, u32)>;

/// The ranges of a shadow tree, as `(start, end)` with the range `start..end`.
pub uninterp spec fn shadow_tree_contents(t: IntervalTree<u64, ()>) -> Multiset<(u64, u64)>;

/// An event tree element as plain values.
pub open spec fn plain_event_range(x: (u64, u64, EventId)) -> (u64, u64, u32) {
    (x.0, x.1, x.2.0)
}

/// `start..end` overlaps `lo..hi` in the sense of `IntervalTree::query`.
pub open spec fn overlaps(start: u64, end: u64, lo: u64, hi: u64) -> bool {
    hi > start && lo < end
}

/// Builds a tree with `IntervalTree::from_iter`, which keeps every element it
/// is given: the tree holds exactly the given ranges with their ids.
#[verifier::external_body]
pub(crate) fn event_tree_from_ranges(items: Vec<(u64, u64, EventId)>) -> (t: IntervalTree<u64, EventId>)
    ensures
        event_tree_contents(t) == items@.map_values(|x: (u64, u64, EventId)| plain_event_range(x)).to_multiset(),
{
    items.into_iter().map(|(start, end, id)| (start..end, id)).collect()
}

/// Builds a tree with `IntervalTree::from_iter`, which keeps every element it
/// is given: the tree holds exactly the given ranges.
#[verifier::external_body]
pub(crate) fn shadow_tree_from_ranges(items: &Vec<(u64, u64)>) -> (t: IntervalTree<u64, ()>)
    ensures
        shadow_tree_contents(t) == items@.to_multiset(),
{
    items.iter().map(|&(start, end)| (start..end, ())).collect()
}

/// Collects `IntervalTree::query(lo..hi)`, which yields, in an order the
/// crate leaves unstated, each element whose range overlaps `lo..hi`.
#[verifier::external_body]
pub(crate) fn event_tree_query(t: &IntervalTree<u64, EventId>, lo: u64, hi: u64) -> (r: Vec<(u64, u64, EventId)>)
    ensures
        r@.map_values(|x: (u64, u64, EventId)| plain_event_range(x)).to_multiset()
            == event_tree_contents(*t).filter(|x: (u64, u64, u32)| overlaps(x.0, x.1, lo, hi)),
{
    t.query(lo..hi).map(|e| (e.range.start, e.range.end, e.value)).collect()
}

/// Collects `IntervalTree::query(lo..hi)`, which yields, in an order the
/// crate leaves unstated, each range that overlaps `lo..hi`.
#[verifier::external_body]
pub(crate) fn shadow_tree_query(t: &IntervalTree<u64, ()>, lo: u64, hi: u64) -> (r: Vec<(u64, u64)>)
    ensures
        r@.to_multiset() == shadow_tree_contents(*t).filter(|x: (u64, u64)| overlaps(x.0, x.1, lo, hi)),
{
    t.query(lo..hi).map(|e| (e.range.start, e.range.end)).collect()
}

} // verus!
