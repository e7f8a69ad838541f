//! Building a file's data from the events of its profile: which events are
//! kept, how their strings are interned and their times measured, the table
//! of event kinds, and the assembly of depths, root events and groups.
use crate::data::{sat_sub, EventId, FileData, KindInfo, TimelineData, TimelineEvent};
use crate::grouping::{
    build_merged_thread_groups, build_thread_data, build_thread_groups, count_roots, intern_root_labels,
    is_merged_grouping, is_root_event, is_single_grouping, root_infos, thread_data_matches,
};
use crate::lanes::{
    assign_event_depths, build_threads_index, depth_order, index_view, is_threads_index, nesting_depth,
    same_but_depth,
};
use crate::sort::{bytes_le, bytes_le_exec, merge_sort_by, sorted_by};
use crate::symbols::{interned, Symbol, Symbols};
use crate::text::{decimal, push_decimal};
use std::sync::Arc;
use vstd::prelude::*;
use vstd::string::StringExecFns;
use vstd::utf8::encode_utf8;

verus! {

/// One event of a profile, as plain values.
pub struct RawEvent {
    pub thread_id: u32,
    pub event_kind: String,
    pub label: String,
    pub additional_data: Vec<String>,
    /// Start and end of an interval event, in nanoseconds since the Unix
    /// epoch; none for an instant or integer event.
    pub interval: Option<(u128, u128)>,
    pub payload_integer: Option<u64>,
}

/// The interval events of a profile as timeline events, with the kind of
/// each (in the same order) and the latest end among them.
pub struct CollectedEvents {
    pub events: Vec<TimelineEvent>,
    /// The kind symbol of each event, in the order of `events`.
    pub event_kinds: Vec<Symbol>,
    pub max_ns: u64,
    /// The number of events of the profile, of every sort.
    pub event_count: usize,
}

/// The contents of a list of strings.
pub open spec fn strs(v: Seq<String>) -> Seq<Seq<char>> {
    v.map_values(|s: String| s@)
}

/// The table after interning each of `ss` in turn.
pub open spec fn intern_all(table: Seq<Seq<char>>, ss: Seq<Seq<char>>) -> Seq<Seq<char>>
    decreases ss.len(),
{
    if ss.len() == 0 {
        table
    } else {
        interned(intern_all(table, ss.drop_last()), ss.last())
    }
}

/// The strings that collecting an event interns, in order: its additional
/// data, its kind, its label.
pub open spec fn event_strings(r: RawEvent) -> Seq<Seq<char>> {
    strs(r.additional_data@).push(r.event_kind@).push(r.label@)
}

/// The interner's table after collecting `raw` from `table`.
pub open spec fn collect_table(table: Seq<Seq<char>>, raw: Seq<RawEvent>) -> Seq<Seq<char>>
    decreases raw.len(),
{
    if raw.len() == 0 {
        table
    } else {
        let t = collect_table(table, raw.drop_last());
        if raw.last().interval is Some {
            intern_all(t, event_strings(raw.last()))
        } else {
            t
        }
    }
}

/// The interval events among `raw`, in order.
pub open spec fn interval_events(raw: Seq<RawEvent>) -> Seq<RawEvent>
    decreases raw.len(),
{
    if raw.len() == 0 {
        Seq::empty()
    } else {
        let rest = interval_events(raw.drop_last());
        if raw.last().interval is Some {
            rest.push(raw.last())
        } else {
            rest
        }
    }
}

/// A time since the Unix epoch as a `u64` (keeping its low 64 bits),
/// measured from `base` and floored at 0.
pub open spec fn rel_ns(t: u128, base: u64) -> u64 {
    sat_sub(t as u64, base)
}

/// The start of an interval event, measured from `base`.
pub open spec fn interval_start(r: RawEvent, base: u64) -> u64 {
    rel_ns(r.interval->Some_0.0, base)
}

/// The end of an interval event, measured from `base`.
pub open spec fn interval_end(r: RawEvent, base: u64) -> u64 {
    rel_ns(r.interval->Some_0.1, base)
}

/// The latest end among interval events (0 for none).
pub open spec fn max_interval_end(kept: Seq<RawEvent>, base: u64) -> u64
    decreases kept.len(),
{
    if kept.len() == 0 {
        0
    } else {
        let rest = max_interval_end(kept.drop_last(), base);
        let e = interval_end(kept.last(), base);
        if e > rest {
            e
        } else {
            rest
        }
    }
}

/// `sym` stands for `s` in `table`.
pub open spec fn names(table: Seq<Seq<char>>, sym: Symbol, s: Seq<char>) -> bool {
    sym.id() < table.len() && table[sym.id() as int] == s
}

/// `e` is the timeline event collected from the interval event `r`, its
/// strings interned in `table`, its times measured from `base`.
pub open spec fn is_collected_event(e: TimelineEvent, r: RawEvent, table: Seq<Seq<char>>, base: u64) -> bool {
    &&& names(table, e.label, r.label@)
    &&& e.start_ns == interval_start(r, base)
    &&& e.duration_ns == sat_sub(interval_end(r, base), interval_start(r, base))
    &&& e.depth == 0
    &&& e.thread_id == r.thread_id
    &&& e.kind_index == 0
    &&& match e.additional_data {
        None => r.additional_data@.len() == 0,
        Some(b) => {
            &&& r.additional_data@.len() > 0
            &&& b@.len() == r.additional_data@.len()
            &&& forall|j: int| 0 <= j < b@.len() ==> names(table, #[trigger] b@[j], r.additional_data@[j]@)
        },
    }
    &&& e.payload_integer == r.payload_integer
    &&& !e.is_thread_root
}

proof fn lemma_intern_all_grows(table: Seq<Seq<char>>, ss: Seq<Seq<char>>)
    ensures
        intern_all(table, ss).len() <= table.len() + ss.len(),
        table.len() <= intern_all(table, ss).len(),
        intern_all(table, ss).take(table.len() as int) == table,
    decreases ss.len(),
{
    if ss.len() > 0 {
        lemma_intern_all_grows(table, ss.drop_last());
        let t = intern_all(table, ss.drop_last());
        assert(interned(t, ss.last()).take(t.len() as int) =~= t);
        assert(interned(t, ss.last()).take(table.len() as int) =~= t.take(table.len() as int));
    }
}

proof fn lemma_collect_table_grows(table: Seq<Seq<char>>, raw: Seq<RawEvent>)
    ensures
        table.len() <= collect_table(table, raw).len(),
        collect_table(table, raw).take(table.len() as int) == table,
    decreases raw.len(),
{
    if raw.len() > 0 {
        lemma_collect_table_grows(table, raw.drop_last());
        let t = collect_table(table, raw.drop_last());
        if raw.last().interval is Some {
            lemma_intern_all_grows(t, event_strings(raw.last()));
            let t2 = intern_all(t, event_strings(raw.last()));
            assert(t2.take(table.len() as int) =~= t2.take(t.len() as int).take(table.len() as int));
        }
    }
}

/// Interning a prefix of `ss` gives a table no longer than interning all of it.
pub(crate) proof fn lemma_intern_all_prefix(table: Seq<Seq<char>>, ss: Seq<Seq<char>>, j: int)
    requires
        0 <= j <= ss.len(),
    ensures
        intern_all(table, ss.take(j)).len() <= intern_all(table, ss).len(),
    decreases ss.len() - j,
{
    if j < ss.len() {
        lemma_intern_all_prefix(table, ss, j + 1);
        assert(ss.take(j + 1).drop_last() =~= ss.take(j));
    } else {
        assert(ss.take(j) =~= ss);
    }
}

/// Collecting a prefix of `raw` gives a table no longer than collecting all
/// of it.
pub(crate) proof fn lemma_collect_table_prefix(table: Seq<Seq<char>>, raw: Seq<RawEvent>, i: int)
    requires
        0 <= i <= raw.len(),
    ensures
        collect_table(table, raw.take(i)).len() <= collect_table(table, raw).len(),
    decreases raw.len() - i,
{
    if i < raw.len() {
        lemma_collect_table_prefix(table, raw, i + 1);
        assert(raw.take(i + 1).drop_last() =~= raw.take(i));
        assert(raw.take(i + 1).last() == raw[i]);
        if raw[i].interval is Some {
            lemma_intern_all_grows(collect_table(table, raw.take(i)), event_strings(raw[i]));
        }
    } else {
        assert(raw.take(i) =~= raw);
    }
}

/// A later table (one that extends `t`) still names what `t` names.
proof fn lemma_names_extend(t: Seq<Seq<char>>, u: Seq<Seq<char>>, sym: Symbol, s: Seq<char>)
    requires
        names(t, sym, s),
        t.len() <= u.len(),
        u.take(t.len() as int) == t,
    ensures
        names(u, sym, s),
{
    assert(u[sym.id() as int] == u.take(t.len() as int)[sym.id() as int]);
}

/// Turns a list of symbols into a boxed slice with `Vec::into_boxed_slice`,
/// which keeps the elements and their order.
#[verifier::external_body]
fn boxed_symbols(v: Vec<Symbol>) -> (b: Box<[Symbol]>)
    ensures
        b@ == v@,
{
    v.into_boxed_slice()
}

proof fn lemma_collected_extend(e: TimelineEvent, r: RawEvent, t: Seq<Seq<char>>, u: Seq<Seq<char>>, base: u64)
    requires
        is_collected_event(e, r, t, base),
        t.len() <= u.len(),
        u.take(t.len() as int) == t,
    ensures
        is_collected_event(e, r, u, base),
{
    lemma_names_extend(t, u, e.label, r.label@);
    match e.additional_data {
        Some(b) => {
            assert forall|j: int| 0 <= j < b@.len() implies names(u, #[trigger] b@[j], r.additional_data@[j]@) by {
                lemma_names_extend(t, u, b@[j], r.additional_data@[j]@);
            }
        },
        None => {},
    }
}

/// Interns the strings of an event's additional data, in order.
fn intern_additional(symbols: &mut Symbols, data: &Vec<String>) -> (syms: Vec<Symbol>)
    requires
        old(symbols).wf(),
        intern_all(old(symbols)@, strs(data@)).len() <= u32::MAX,
    ensures
        final(symbols).wf(),
        final(symbols)@ == intern_all(old(symbols)@, strs(data@)),
        syms@.len() == data@.len(),
        forall|j: int| 0 <= j < syms@.len() ==> names(final(symbols)@, #[trigger] syms@[j], data@[j]@),
{
    let ghost t0 = symbols@;
    let mut syms: Vec<Symbol> = Vec::new();
    let mut j: usize = 0;
    while j < data.len()
        invariant
            j <= data@.len(),
            symbols.wf(),
            intern_all(t0, strs(data@)).len() <= u32::MAX,
            symbols@ == intern_all(t0, strs(data@).take(j as int)),
            syms@.len() == j,
            forall|q: int| 0 <= q < j ==> names(symbols@, #[trigger] syms@[q], data@[q]@),
        decreases data@.len() - j,
    {
        let ghost before = symbols@;
        proof {
            assert(strs(data@).take(j + 1).drop_last() =~= strs(data@).take(j as int));
            lemma_intern_all_prefix(t0, strs(data@), j + 1);
        }
        let sym = symbols.intern(data[j].as_str());
        proof {
            assert(interned(before, data@[j as int]@).take(before.len() as int) =~= before);
            assert forall|q: int| 0 <= q < j implies names(symbols@, #[trigger] syms@[q], data@[q]@) by {
                lemma_names_extend(before, symbols@, syms@[q], data@[q]@);
            }
        }
        syms.push(sym);
        j = j + 1;
    }
    assert(strs(data@).take(data@.len() as int) =~= strs(data@));
    syms
}

/// Turns the interval events of a profile into timeline events, interning
/// their strings (additional data, then kind, then label, event by event)
/// and measuring their times from `metadata_start_ns`; instant and integer
/// events are left out but counted.
pub fn collect_timeline_events(raw: &Vec<RawEvent>, symbols: &mut Symbols, metadata_start_ns: u64) -> (c:
    CollectedEvents)
    requires
        old(symbols).wf(),
        collect_table(old(symbols)@, raw@).len() <= u32::MAX,
    ensures
        final(symbols).wf(),
        final(symbols)@ == collect_table(old(symbols)@, raw@),
        c.event_count == raw@.len(),
        c.events@.len() == interval_events(raw@).len(),
        c.event_kinds@.len() == c.events@.len(),
        forall|k: int|
            0 <= k < c.events@.len() ==> {
                &&& is_collected_event(
                    #[trigger] c.events@[k],
                    interval_events(raw@)[k],
                    final(symbols)@,
                    metadata_start_ns,
                )
                &&& names(final(symbols)@, c.event_kinds@[k], interval_events(raw@)[k].event_kind@)
            },
        c.max_ns == max_interval_end(interval_events(raw@), metadata_start_ns),
{
    let ghost t0 = symbols@;
    let mut events: Vec<TimelineEvent> = Vec::new();
    let mut event_kinds: Vec<Symbol> = Vec::new();
    let mut max_ns: u64 = 0;
    let mut i: usize = 0;
    while i < raw.len()
        invariant
            i <= raw@.len(),
            symbols.wf(),
            collect_table(t0, raw@).len() <= u32::MAX,
            symbols@ == collect_table(t0, raw@.take(i as int)),
            events@.len() == interval_events(raw@.take(i as int)).len(),
            event_kinds@.len() == events@.len(),
            forall|k: int|
                0 <= k < events@.len() ==> {
                    &&& is_collected_event(
                        #[trigger] events@[k],
                        interval_events(raw@.take(i as int))[k],
                        symbols@,
                        metadata_start_ns,
                    )
                    &&& names(symbols@, event_kinds@[k], interval_events(raw@.take(i as int))[k].event_kind@)
                },
            max_ns == max_interval_end(interval_events(raw@.take(i as int)), metadata_start_ns),
        decreases raw@.len() - i,
    {
        let r = &raw[i];
        proof {
            assert(raw@.take(i + 1).drop_last() =~= raw@.take(i as int));
            assert(raw@.take(i + 1).last() == raw@[i as int]);
            lemma_collect_table_grows(t0, raw@.take(i as int));
            lemma_collect_table_prefix(t0, raw@, i + 1);
        }
        match r.interval {
            Some(span) => {
                let start_ns = (#[verifier::truncate] (span.0 as u64)).saturating_sub(metadata_start_ns);
                let end_ns = (#[verifier::truncate] (span.1 as u64)).saturating_sub(metadata_start_ns);
                if end_ns > max_ns {
                    max_ns = end_ns;
                }
                let ghost before = symbols@;
                proof {
                    let es = event_strings(*r);
                    let na = r.additional_data@.len() as int;
                    assert(collect_table(t0, raw@.take(i + 1)) == intern_all(before, es));
                    assert(es.take(na) =~= strs(r.additional_data@));
                    assert(es.take(na + 1) =~= es.drop_last());
                    assert(es.drop_last().drop_last() =~= strs(r.additional_data@));
                    lemma_intern_all_prefix(before, es, na);
                    lemma_intern_all_prefix(before, es, na + 1);
                }
                let additional = intern_additional(symbols, &r.additional_data);
                let ghost mid = symbols@;
                proof {
                    lemma_intern_all_grows(before, strs(r.additional_data@));
                }
                let additional_data = if additional.len() == 0 {
                    None
                } else {
                    Some(boxed_symbols(additional))
                };
                let kind = symbols.intern(r.event_kind.as_str());
                let ghost mid2 = symbols@;
                let label = symbols.intern(r.label.as_str());
                let ghost after = symbols@;
                proof {
                    let es = event_strings(*r);
                    assert(es.drop_last() =~= strs(r.additional_data@).push(r.event_kind@));
                    assert(es.drop_last().drop_last() =~= strs(r.additional_data@));
                    assert(intern_all(before, es.drop_last().drop_last()) == mid);
                    assert(intern_all(before, es.drop_last()) == mid2);
                    assert(intern_all(before, es) == after);
                    let kept0 = interval_events(raw@.take(i as int));
                    assert(interval_events(raw@.take(i + 1)) == kept0.push(*r));
                    assert(kept0.push(*r).drop_last() =~= kept0);
                    assert(interned(mid, r.event_kind@).take(mid.len() as int) =~= mid);
                    assert(interned(mid2, r.label@).take(mid2.len() as int) =~= mid2);
                    assert(after.take(mid.len() as int) =~= mid2.take(mid.len() as int));
                    assert(after.take(before.len() as int) =~= mid.take(before.len() as int));
                    lemma_names_extend(mid2, after, kind, r.event_kind@);
                    assert forall|k: int| 0 <= k < events@.len() implies {
                        &&& is_collected_event(
                            #[trigger] events@[k],
                            interval_events(raw@.take(i as int))[k],
                            after,
                            metadata_start_ns,
                        )
                        &&& names(after, event_kinds@[k], interval_events(raw@.take(i as int))[k].event_kind@)
                    } by {
                        lemma_collected_extend(
                            events@[k],
                            interval_events(raw@.take(i as int))[k],
                            before,
                            after,
                            metadata_start_ns,
                        );
                        lemma_names_extend(
                            before,
                            after,
                            event_kinds@[k],
                            interval_events(raw@.take(i as int))[k].event_kind@,
                        );
                    }
                    if additional_data is Some {
                        let b = additional_data->Some_0;
                        assert forall|j: int| 0 <= j < b@.len() implies names(
                            after,
                            #[trigger] b@[j],
                            r.additional_data@[j]@,
                        ) by {
                            lemma_names_extend(mid, after, b@[j], r.additional_data@[j]@);
                        }
                    }
                }
                event_kinds.push(kind);
                events.push(
                    TimelineEvent {
                        label,
                        start_ns,
                        duration_ns: end_ns.saturating_sub(start_ns),
                        depth: 0,
                        thread_id: r.thread_id,
                        kind_index: 0u16,
                        additional_data,
                        payload_integer: r.payload_integer,
                        is_thread_root: false,
                    },
                );
            },
            None => {
                assert(interval_events(raw@.take(i + 1)) == interval_events(raw@.take(i as int)));
            },
        }
        i = i + 1;
    }
    assert(raw@.take(raw@.len() as int) =~= raw@);
    CollectedEvents { events, event_kinds, max_ns, event_count: raw.len() }
}

// ---------------------------------------------------------------------------
// The table of event kinds
// ---------------------------------------------------------------------------

/// The sort key of a kind: the UTF-8 bytes of its name (empty for a symbol
/// the table does not hold).
pub open spec fn kind_key(table: Seq<Seq<char>>, s: Symbol) -> Seq<u8> {
    if s.id() < table.len() {
        encode_utf8(table[s.id() as int])
    } else {
        Seq::empty()
    }
}

/// Kinds ordered by name, as `str` orders them (byte by byte).
pub open spec fn kind_le(table: Seq<Seq<char>>) -> spec_fn(Symbol, Symbol) -> bool {
    |a: Symbol, b: Symbol| bytes_le(kind_key(table, a), kind_key(table, b))
}

/// The symbols of a kind table, in order.
pub open spec fn kind_symbols(kinds: Seq<KindInfo>) -> Seq<Symbol> {
    kinds.map_values(|k: KindInfo| k.kind)
}

/// `kinds` lists each kind of `event_kinds` once, ordered by name.
pub open spec fn is_kind_table(table: Seq<Seq<char>>, event_kinds: Seq<Symbol>, kinds: Seq<KindInfo>) -> bool {
    &&& forall|i: int, j: int| 0 <= i < j < kinds.len() ==> kinds[i].kind != kinds[j].kind
    &&& forall|i: int| 0 <= i < kinds.len() ==> event_kinds.contains(#[trigger] kinds[i].kind)
    &&& forall|j: int| 0 <= j < event_kinds.len() ==> kind_symbols(kinds).contains(#[trigger] event_kinds[j])
    &&& sorted_by(kind_symbols(kinds), kind_le(table))
}

/// The UTF-8 bytes of a kind's name (empty for a symbol the interner does
/// not hold).
fn key_bytes<'a>(symbols: &'a Symbols, s: Symbol) -> (b: &'a [u8])
    ensures
        b@ == kind_key(symbols@, s),
{
    if (s.number() as usize) < symbols.len() {
        symbols.resolve(s).as_bytes()
    } else {
        let empty = "";
        proof {
            reveal_strlit("");
        }
        empty.as_bytes()
    }
}

/// Lists the distinct kinds of `event_kinds`, ordered by name, and gives, for
/// each symbol of the interner, the position of its kind in that list (0 for
/// a symbol that names no kind).
pub fn build_kind_table(event_kinds: &Vec<Symbol>, symbols: &Symbols) -> (r: (Vec<KindInfo>, Vec<usize>))
    requires
        forall|j: int| 0 <= j < event_kinds@.len() ==> (#[trigger] event_kinds@[j]).id() < symbols@.len(),
    ensures
        is_kind_table(symbols@, event_kinds@, r.0@),
        r.0@.len() <= event_kinds@.len(),
        r.1@.len() == symbols@.len(),
        forall|i: int| 0 <= i < r.0@.len() ==> r.1@[(#[trigger] r.0@[i]).kind.id() as int] == i,
{
    let ghost table = symbols@;
    let n = symbols.len();
    // Distinct kinds, in order of first appearance.
    let mut seen: Vec<bool> = Vec::new();
    let mut q: usize = 0;
    while q < n
        invariant
            n == table.len(),
            q <= n,
            seen@.len() == q,
            forall|x: int| 0 <= x < q ==> !seen@[x],
        decreases n - q,
    {
        seen.push(false);
        q = q + 1;
    }
    let mut distinct: Vec<Symbol> = Vec::new();
    let mut j: usize = 0;
    while j < event_kinds.len()
        invariant
            n == table.len(),
            seen@.len() == n,
            j <= event_kinds@.len(),
            forall|x: int| 0 <= x < event_kinds@.len() ==> (#[trigger] event_kinds@[x]).id() < n,
            distinct@.len() <= j,
            distinct@.no_duplicates(),
            forall|p: int| 0 <= p < distinct@.len() ==> event_kinds@.contains(#[trigger] distinct@[p]),
            forall|x: int| 0 <= x < j ==> distinct@.contains(#[trigger] event_kinds@[x]),
            forall|p: int| 0 <= p < distinct@.len() ==> (#[trigger] distinct@[p]).id() < n,
            forall|p: int| 0 <= p < distinct@.len() ==> seen@[(#[trigger] distinct@[p]).id() as int],
            forall|x: int|
                0 <= x < n && seen@[x] ==> exists|p: int| 0 <= p < distinct@.len() && (#[trigger] distinct@[p]).id() == x,
        decreases event_kinds@.len() - j,
    {
        let kind = event_kinds[j];
        let id = kind.number() as usize;
        let ghost old_distinct = distinct@;
        let ghost old_seen = seen@;
        if !seen[id] {
            proof {
                assert forall|p: int| 0 <= p < distinct@.len() implies distinct@[p] != kind by {
                    assert(seen@[distinct@[p].id() as int]);
                }
            }
            seen.set(id, true);
            distinct.push(kind);
            proof {
                assert(distinct@[distinct@.len() - 1] == kind);
                assert(event_kinds@[j as int] == kind);
            }
        } else {
            proof {
                let p = choose|p: int| 0 <= p < distinct@.len() && (#[trigger] distinct@[p]).id() == id;
                distinct@[p].lemma_same_id(kind);
                assert(distinct@[p] == kind);
            }
        }
        proof {
            assert(distinct@.take(old_distinct.len() as int) =~= old_distinct);
            assert forall|x: int| 0 <= x < j + 1 implies distinct@.contains(#[trigger] event_kinds@[x]) by {
                if x == j {
                    let p = choose|p: int| 0 <= p < distinct@.len() && (#[trigger] distinct@[p]).id() == id;
                    distinct@[p].lemma_same_id(kind);
                } else {
                    assert(old_distinct.contains(event_kinds@[x]));
                    let p = choose|p: int| 0 <= p < old_distinct.len() && old_distinct[p] == event_kinds@[x];
                    assert(distinct@[p] == old_distinct[p]);
                }
            }
            assert forall|x: int|
                0 <= x < n && seen@[x] implies exists|p: int| 0 <= p < distinct@.len() && (#[trigger] distinct@[p]).id() == x by {
                if x == id {
                    if old_seen[x] {
                        let p = choose|p: int| 0 <= p < old_distinct.len() && (#[trigger] old_distinct[p]).id() == x;
                        assert(distinct@[p] == old_distinct[p]);
                    } else {
                        assert(distinct@[distinct@.len() - 1].id() == x);
                    }
                } else {
                    assert(old_seen[x]);
                    let p = choose|p: int| 0 <= p < old_distinct.len() && (#[trigger] old_distinct[p]).id() == x;
                    assert(distinct@[p] == old_distinct[p]);
                }
            }
        }
        j = j + 1;
    }
    // Order them by name.
    let order = |a: Symbol, b: Symbol| -> (r: bool)
        ensures
            r == bytes_le(kind_key(symbols@, a), kind_key(symbols@, b)),
        { bytes_le_exec(key_bytes(symbols, a), key_bytes(symbols, b)) };
    proof {
        let le = kind_le(table);
        assert forall|a: Symbol, b: Symbol| #[trigger] le(a, b) || le(b, a) by {
            crate::sort::lemma_bytes_le_total(kind_key(table, a), kind_key(table, b));
        }
        assert forall|a: Symbol, b: Symbol, c: Symbol| #[trigger] le(a, b) && #[trigger] le(b, c) implies le(a, c) by {
            crate::sort::lemma_bytes_le_transitive(kind_key(table, a), kind_key(table, b), kind_key(table, c));
        }
    }
    let sorted = merge_sort_by(&distinct, &order, Ghost(kind_le(table)));
    proof {
        distinct@.lemma_multiset_has_no_duplicates();
        sorted@.lemma_multiset_has_no_duplicates_conv();
    }
    let mut kinds: Vec<KindInfo> = Vec::new();
    let mut lookup: Vec<usize> = Vec::new();
    let mut q: usize = 0;
    while q < n
        invariant
            n == table.len(),
            q <= n,
            lookup@.len() == q,
        decreases n - q,
    {
        lookup.push(0);
        q = q + 1;
    }
    let mut i: usize = 0;
    while i < sorted.len()
        invariant
            n == table.len(),
            lookup@.len() == n,
            i <= sorted@.len(),
            sorted@.no_duplicates(),
            forall|p: int| 0 <= p < distinct@.len() ==> (#[trigger] distinct@[p]).id() < n,
            sorted@.to_multiset() == distinct@.to_multiset(),
            kinds@.len() == i,
            forall|p: int| 0 <= p < i ==> (#[trigger] kinds@[p]).kind == sorted@[p],
            forall|p: int| 0 <= p < i ==> (#[trigger] kinds@[p]).kind.id() < n,
            forall|p: int| 0 <= p < i ==> lookup@[(#[trigger] kinds@[p]).kind.id() as int] == p,
        decreases sorted@.len() - i,
    {
        let kind = sorted[i];
        proof {
            vstd::seq_lib::to_multiset_contains(sorted@, kind);
            vstd::seq_lib::to_multiset_contains(distinct@, kind);
            assert forall|p: int| 0 <= p < i implies kinds@[p].kind.id() != kind.id() by {
                if kinds@[p].kind.id() == kind.id() {
                    kinds@[p].kind.lemma_same_id(kind);
                    assert(sorted@[p] == sorted@[i as int]);
                }
            }
        }
        lookup.set(kind.number() as usize, i);
        kinds.push(KindInfo { kind });
        i = i + 1;
    }
    proof {
        assert(kind_symbols(kinds@) =~= sorted@);
        assert forall|p: int| 0 <= p < kinds@.len() implies event_kinds@.contains(#[trigger] kinds@[p].kind) by {
            vstd::seq_lib::to_multiset_contains(sorted@, sorted@[p]);
            vstd::seq_lib::to_multiset_contains(distinct@, sorted@[p]);
            let x = choose|x: int| 0 <= x < distinct@.len() && distinct@[x] == sorted@[p];
        }
        assert forall|x: int| 0 <= x < event_kinds@.len() implies kind_symbols(kinds@).contains(
            #[trigger] event_kinds@[x],
        ) by {
            let k = event_kinds@[x];
            assert(distinct@.contains(k));
            vstd::seq_lib::to_multiset_contains(distinct@, k);
            vstd::seq_lib::to_multiset_contains(sorted@, k);
            let p = choose|p: int| 0 <= p < sorted@.len() && sorted@[p] == k;
            assert(kind_symbols(kinds@)[p] == k);
        }
        assert forall|a: int, b: int| 0 <= a < b < kinds@.len() implies kinds@[a].kind != kinds@[b].kind by {
            assert(sorted@[a] != sorted@[b]);
        }
        assert(sorted_by(kind_symbols(kinds@), kind_le(table)));
        assert(forall|i: int| 0 <= i < kinds@.len() ==> event_kinds@.contains(#[trigger] kinds@[i].kind));
        assert(is_kind_table(table, event_kinds@, kinds@));
    }
    (kinds, lookup)
}

// ---------------------------------------------------------------------------
// A loaded file
// ---------------------------------------------------------------------------

/// The kind names of the events, as a set.
pub open spec fn kind_names(kept: Seq<RawEvent>) -> Set<Seq<char>> {
    kept.map_values(|r: RawEvent| r.event_kind@).to_set()
}

/// The names of the kinds of a kind table, in order.
pub open spec fn kind_name_seq(table: Seq<Seq<char>>, kinds: Seq<KindInfo>) -> Seq<Seq<char>> {
    kinds.map_values(|k: KindInfo| table[k.kind.id() as int])
}

/// `kinds` names each kind of the events once, ordered by name (byte by
/// byte, as `str` orders them).
pub open spec fn is_kind_list(table: Seq<Seq<char>>, kept: Seq<RawEvent>, kinds: Seq<KindInfo>) -> bool {
    &&& forall|i: int| 0 <= i < kinds.len() ==> (#[trigger] kinds[i]).kind.id() < table.len()
    &&& kind_name_seq(table, kinds).no_duplicates()
    &&& kind_name_seq(table, kinds).to_set() == kind_names(kept)
    &&& sorted_by(kind_symbols(kinds), kind_le(table))
}

/// `e` is the loaded form of the interval event `r`: its strings interned in
/// `table`, its times measured from `base`, its kind an entry of `kinds`.
pub open spec fn is_loaded_event(
    e: TimelineEvent,
    r: RawEvent,
    table: Seq<Seq<char>>,
    base: u64,
    kinds: Seq<KindInfo>,
) -> bool {
    &&& names(table, e.label, r.label@)
    &&& e.start_ns == interval_start(r, base)
    &&& e.duration_ns == sat_sub(interval_end(r, base), interval_start(r, base))
    &&& e.thread_id == r.thread_id
    &&& e.kind_index < kinds.len()
    &&& names(table, kinds[e.kind_index as int].kind, r.event_kind@)
    &&& match e.additional_data {
        None => r.additional_data@.len() == 0,
        Some(b) => {
            &&& r.additional_data@.len() > 0
            &&& b@.len() == r.additional_data@.len()
            &&& forall|j: int| 0 <= j < b@.len() ==> names(table, #[trigger] b@[j], r.additional_data@[j]@)
        },
    }
    &&& e.payload_integer == r.payload_integer
    &&& !e.is_thread_root
}

/// The threads of a file, each with its events in the order depths are
/// assigned in (see `depth_order`).
pub open spec fn thread_lists(events: Seq<TimelineEvent>, index: Seq<(u32, Seq<EventId>)>) -> Seq<
    (u32, Seq<EventId>),
> {
    index.map_values(|t: (u32, Seq<EventId>)| (t.0, depth_order(events, t.1)))
}

/// The thread of each group of the per-thread view, in order.
pub open spec fn group_threads(fd: FileData) -> Seq<Arc<crate::data::ThreadData>> {
    Seq::new(
        fd.timeline.thread_groups@.len(),
        |k: int| (*fd.timeline.thread_groups@[k].threads)@[0],
    )
}

/// The thread structure of a file whose first `n` events were read from the
/// profile, given the per-thread index of those events: their depths, the
/// root event of each thread after them, one per-thread group for each
/// thread of the index in its order, and the merged groups over them all.
pub open spec fn has_threads(fd: FileData, raw: Seq<RawEvent>, n: nat, index: Seq<(u32, Seq<EventId>)>) -> bool {
    let evs = fd.events@;
    let collected = evs.take(n as int);
    let lists = thread_lists(collected, index);
    let infos = root_infos(collected, lists);
    let tds = group_threads(fd);
    &&& forall|k: int, p: int|
        0 <= k < lists.len() && 0 <= p < lists[k].1.len() ==> evs[(#[trigger] lists[k].1[p]).0 as int].depth
            == nesting_depth(collected, lists[k].1, p)
    &&& evs.len() == n + count_roots(infos)
    &&& fd.symbols@ == intern_root_labels(collect_table(Seq::empty(), raw), infos)
    &&& forall|k: int|
        0 <= k < infos.len() && infos[k] is Some ==> is_root_event(
            evs[(n + count_roots(infos.take(k))) as int],
            infos[k]->Some_0,
            fd.symbols@,
        )
    &&& tds.len() == index.len()
    &&& is_single_grouping(fd.timeline.thread_groups@, tds)
    &&& forall|k: int| 0 <= k < tds.len() ==> thread_data_matches(*#[trigger] tds[k], evs, n, infos, k, lists[k])
    &&& is_merged_grouping(fd.merged_thread_groups@, evs, tds)
}

/// `fd` is the data loaded from the events `raw` of a profile of the command
/// `cmd` run as process `pid`, times measured from `base`.
pub open spec fn is_loaded(fd: FileData, raw: Seq<RawEvent>, cmd: Seq<char>, pid: u32, base: u64) -> bool {
    let kept = interval_events(raw);
    let n = kept.len();
    &&& fd.symbols.wf()
    &&& fd.event_count == raw.len()
    &&& fd.cmd@ == cmd
    &&& fd.pid == pid
    &&& fd.timeline.min_ns == 0
    &&& fd.timeline.max_ns == max_interval_end(kept, base)
    &&& is_kind_list(fd.symbols@, kept, fd.kinds@)
    &&& n <= fd.events@.len()
    &&& forall|i: int|
        0 <= i < n ==> is_loaded_event(#[trigger] fd.events@[i], kept[i], fd.symbols@, base, fd.kinds@)
    &&& exists|index: Seq<(u32, Seq<EventId>)>|
        is_threads_index(fd.events@.take(n as int), index) && #[trigger] has_threads(fd, raw, n, index)
}

/// The largest number of distinct event kinds a file can have: kind indices
/// are stored as `u16`.
pub const MAX_KINDS: usize = 65535;

/// The message for a profile with more distinct event kinds than
/// `MAX_KINDS`.
pub open spec fn too_many_kinds_text(count: nat) -> Seq<char> {
    "Too many distinct event kinds: "@ + decimal(count) + " (max 65535)"@
}

fn too_many_kinds_message(count: usize) -> (s: String)
    ensures
        s@ == too_many_kinds_text(count as nat),
{
    let mut s = String::from_str("Too many distinct event kinds: ");
    push_decimal(&mut s, count as u64);
    s.append(" (max 65535)");
    s
}

proof fn lemma_interval_events_len(raw: Seq<RawEvent>)
    ensures
        interval_events(raw).len() <= raw.len(),
    decreases raw.len(),
{
    if raw.len() > 0 {
        lemma_interval_events_len(raw.drop_last());
    }
}

/// Sets the kind index of each event to the position of its kind.
fn assign_kind_indices(events: &mut Vec<TimelineEvent>, event_kinds: &Vec<Symbol>, lookup: &Vec<usize>)
    requires
        old(events)@.len() == event_kinds@.len(),
        forall|i: int| 0 <= i < event_kinds@.len() ==> (#[trigger] event_kinds@[i]).id() < lookup@.len(),
        forall|i: int| 0 <= i < event_kinds@.len() ==> lookup@[(#[trigger] event_kinds@[i]).id() as int] <= u16::MAX,
    ensures
        final(events)@.len() == old(events)@.len(),
        forall|i: int|
            0 <= i < final(events)@.len() ==> {
                &&& (#[trigger] final(events)@[i]).kind_index == lookup@[event_kinds@[i].id() as int]
                &&& final(events)@[i].label == old(events)@[i].label
                &&& final(events)@[i].start_ns == old(events)@[i].start_ns
                &&& final(events)@[i].duration_ns == old(events)@[i].duration_ns
                &&& final(events)@[i].depth == old(events)@[i].depth
                &&& final(events)@[i].thread_id == old(events)@[i].thread_id
                &&& final(events)@[i].additional_data == old(events)@[i].additional_data
                &&& final(events)@[i].payload_integer == old(events)@[i].payload_integer
                &&& final(events)@[i].is_thread_root == old(events)@[i].is_thread_root
            },
{
    let ghost ev0 = events@;
    let mut i: usize = 0;
    while i < events.len()
        invariant
            i <= events@.len(),
            events@.len() == ev0.len(),
            ev0.len() == event_kinds@.len(),
            forall|j: int| 0 <= j < event_kinds@.len() ==> (#[trigger] event_kinds@[j]).id() < lookup@.len(),
            forall|j: int| 0 <= j < event_kinds@.len() ==> lookup@[(#[trigger] event_kinds@[j]).id() as int] <= u16::MAX,
            forall|j: int|
                0 <= j < events@.len() ==> {
                    &&& (#[trigger] events@[j]).kind_index == (if j < i {
                        lookup@[event_kinds@[j].id() as int] as u16
                    } else {
                        ev0[j].kind_index
                    })
                    &&& events@[j].label == ev0[j].label
                    &&& events@[j].start_ns == ev0[j].start_ns
                    &&& events@[j].duration_ns == ev0[j].duration_ns
                    &&& events@[j].depth == ev0[j].depth
                    &&& events@[j].thread_id == ev0[j].thread_id
                    &&& events@[j].additional_data == ev0[j].additional_data
                    &&& events@[j].payload_integer == ev0[j].payload_integer
                    &&& events@[j].is_thread_root == ev0[j].is_thread_root
                },
        decreases ev0.len() - i,
    {
        let idx = lookup[event_kinds[i].number() as usize];
        let mut e = events.remove(i);
        e.kind_index = idx as u16;
        events.insert(i, e);
        i = i + 1;
    }
}

/// The thread ids of the interval events of `raw`.
pub open spec fn thread_ids(raw: Seq<RawEvent>) -> Set<u32> {
    interval_events(raw).map_values(|r: RawEvent| r.thread_id).to_set()
}

/// The machine limit of a load: symbols and event ids are 32-bit numbers.
/// Loading interns the distinct strings of the interval events and one root
/// label per thread, and numbers the interval events and one root event per
/// thread; each count must stay within `u32::MAX`.
pub open spec fn fits_load(raw: Seq<RawEvent>) -> bool {
    &&& collect_table(Seq::empty(), raw).len() + thread_ids(raw).len() <= u32::MAX
    &&& interval_events(raw).len() + thread_ids(raw).len() <= u32::MAX
}

/// Builds the data of a file from the events of its profile.
///
/// The interval events become timeline events (times measured from the
/// profile's start, `start_time_ns` nanoseconds after the Unix epoch, both
/// taken modulo 2^64); their kinds are gathered into a table ordered by
/// name, of which each event records the position. A profile with more than
/// `MAX_KINDS` kinds is refused. Events then get their nesting depth within
/// their thread, each thread a root event spanning its events, and the
/// threads are grouped for both views.
pub fn build_file_data(raw: &Vec<RawEvent>, cmd: String, pid: u32, start_time_ns: u128) -> (r: Result<
    FileData,
    String,
>)
    requires
        fits_load(raw@),
    ensures
        match r {
            Ok(fd) => is_loaded(fd, raw@, cmd@, pid, start_time_ns as u64),
            Err(msg) => msg@ == too_many_kinds_text(kind_names(interval_events(raw@)).len()),
        },
        r is Err <==> kind_names(interval_events(raw@)).len() > MAX_KINDS,
{
    let ghost kept = interval_events(raw@);
    let ghost n = kept.len();
    let base: u64 = #[verifier::truncate] (start_time_ns as u64);
    let mut symbols = Symbols::new();
    let collected = collect_timeline_events(raw, &mut symbols, base);
    let ghost t1 = symbols@;
    proof {
        lemma_collect_table_grows(Seq::empty(), raw@);
        lemma_interval_events_len(raw@);
        assert forall|j: int| 0 <= j < collected.event_kinds@.len() implies names(
            t1,
            #[trigger] collected.event_kinds@[j],
            kept[j].event_kind@,
        ) by {
            assert(is_collected_event(collected.events@[j], kept[j], t1, base));
        }
    }
    let (kinds, lookup) = build_kind_table(&collected.event_kinds, &symbols);
    proof {
        symbols.lemma_wf_no_duplicates();
        lemma_kind_list(t1, kept, collected.event_kinds@, kinds@);
    }
    if kinds.len() > MAX_KINDS {
        return Err(too_many_kinds_message(kinds.len()));
    }
    let CollectedEvents { events: collected_events, event_kinds, max_ns, event_count } = collected;
    let mut events = collected_events;
    let ghost ev0 = events@;
    proof {
        assert forall|i: int| 0 <= i < event_kinds@.len() implies lookup@[(#[trigger] event_kinds@[i]).id() as int]
            <= u16::MAX by {
            let k = event_kinds@[i];
            assert(kind_symbols(kinds@).contains(k)) by {
                assert(is_kind_table(t1, event_kinds@, kinds@));
            }
            let p = choose|p: int| 0 <= p < kind_symbols(kinds@).len() && kind_symbols(kinds@)[p] == k;
            assert(kinds@[p].kind == k);
            assert(lookup@[kinds@[p].kind.id() as int] == p);
        }
    }
    assign_kind_indices(&mut events, &event_kinds, &lookup);
    let ghost ev1 = events@;
    let mut threads = build_threads_index(&events);
    let ghost iv0 = index_view(threads@);
    let ghost th0 = threads@;
    assign_event_depths(&mut events, &mut threads);
    let ghost ev2 = events@;
    let ghost lists = index_view(threads@);
    proof {
        // One index entry per thread id of the kept events.
        crate::lanes::lemma_index_counts_threads(ev1, iv0);
        assert(ev1.map_values(|e: TimelineEvent| e.thread_id) =~= kept.map_values(|r: RawEvent| r.thread_id))
            by {
            assert forall|i: int| 0 <= i < n implies #[trigger] ev1[i].thread_id == kept[i].thread_id by {
                assert(is_collected_event(ev0[i], kept[i], t1, base));
            }
        }
        assert(crate::lanes::event_thread_ids(ev1) == thread_ids(raw@));
        assert(symbols@.len() + threads@.len() <= u32::MAX);
        assert(events@.len() + threads@.len() <= u32::MAX);
        assert forall|k: int, j: int| 0 <= k < j < threads@.len() implies threads@[k].0 < threads@[j].0 by {
            assert(iv0[k].0 == th0[k].0 && iv0[j].0 == th0[j].0);
        }
    }
    let thread_data = build_thread_data(&mut events, threads, &mut symbols);
    let thread_groups = build_thread_groups(&thread_data);
    let merged_thread_groups = build_merged_thread_groups(&events, &thread_data);
    let fd = FileData {
        event_count,
        cmd,
        pid,
        timeline: TimelineData { thread_groups, min_ns: 0, max_ns },
        events,
        merged_thread_groups,
        kinds,
        symbols,
    };
    proof {
        let ev3 = fd.events@;
        let table = fd.symbols@;
        let infos = root_infos(ev2, lists);
        crate::grouping::lemma_intern_root_labels_len(t1, infos);
        assert(table.take(t1.len() as int) =~= t1);
        lemma_kind_list_extend(t1, table, kept, kinds@);
        assert(ev3.take(n as int) == ev2);
        // The loaded events.
        assert forall|i: int| 0 <= i < n implies is_loaded_event(#[trigger] ev3[i], kept[i], table, base, kinds@) by {
            assert(ev3[i] == ev2[i]);
            assert(same_but_depth(ev2[i], ev1[i]));
            lemma_collected_extend(ev0[i], kept[i], t1, table, base);
            let k = event_kinds@[i];
            assert(kind_symbols(kinds@).contains(k)) by {
                assert(is_kind_table(t1, event_kinds@, kinds@));
            }
            let p = choose|p: int| 0 <= p < kind_symbols(kinds@).len() && kind_symbols(kinds@)[p] == k;
            assert(kinds@[p].kind == k);
            assert(ev1[i].kind_index == p);
            lemma_names_extend(t1, table, k, kept[i].event_kind@);
        }
        // The threads.
        crate::lanes::lemma_threads_index_same_tids(ev1, ev2, iv0);
        assert forall|k: int| 0 <= k < lists.len() implies #[trigger] lists[k] == thread_lists(ev2, iv0)[k] by {
            crate::lanes::lemma_thread_ids_props(ev1, iv0[k].0, ev1.len());
            crate::lanes::lemma_depth_order_same_times(ev2, ev1, iv0[k].1);
        }
        assert(lists =~= thread_lists(ev2, iv0));
        assert forall|k: int, p: int|
            0 <= k < lists.len() && 0 <= p < lists[k].1.len() implies ev3[(#[trigger] lists[k].1[p]).0 as int].depth
                == nesting_depth(ev2, lists[k].1, p) by {
            assert(crate::data::ids_in_range(ev2, lists[k].1));
            assert(ev3[lists[k].1[p].0 as int] == ev2[lists[k].1[p].0 as int]);
            crate::lanes::lemma_nesting_depth_same_times(ev2, ev1, lists[k].1, p);
        }
        assert(group_threads(fd) =~= thread_data@) by {
            assert forall|k: int| 0 <= k < thread_data@.len() implies group_threads(fd)[k] == thread_data@[k] by {
                assert((*fd.timeline.thread_groups@[k].threads)@ == seq![thread_data@[k]]);
            }
        }
        assert(has_threads(fd, raw@, n, iv0));
    }
    Ok(fd)
}

proof fn lemma_kind_list(t1: Seq<Seq<char>>, kept: Seq<RawEvent>, ek: Seq<Symbol>, kinds: Seq<KindInfo>)
    requires
        t1.no_duplicates(),
        is_kind_table(t1, ek, kinds),
        ek.len() == kept.len(),
        forall|j: int| 0 <= j < ek.len() ==> names(t1, #[trigger] ek[j], kept[j].event_kind@),
    ensures
        is_kind_list(t1, kept, kinds),
        kinds.len() == kind_names(kept).len(),
{
    let ns = kind_name_seq(t1, kinds);
    let ks = kept.map_values(|r: RawEvent| r.event_kind@);
    assert forall|i: int| 0 <= i < kinds.len() implies (#[trigger] kinds[i]).kind.id() < t1.len() by {
        let j = choose|j: int| 0 <= j < ek.len() && ek[j] == kinds[i].kind;
        assert(names(t1, ek[j], kept[j].event_kind@));
    }
    assert(ns.no_duplicates()) by {
        assert forall|a: int, b: int| 0 <= a < ns.len() && 0 <= b < ns.len() && a != b implies ns[a] != ns[b] by {
            if ns[a] == ns[b] {
                let ia = kinds[a].kind.id() as int;
                let ib = kinds[b].kind.id() as int;
                assert(t1[ia] == t1[ib]);
                kinds[a].kind.lemma_same_id(kinds[b].kind);
                if a < b {
                    assert(kinds[a].kind != kinds[b].kind);
                } else {
                    assert(kinds[b].kind != kinds[a].kind);
                }
            }
        }
    }
    assert(ns.to_set() =~= kind_names(kept)) by {
        assert forall|x: Seq<char>| ns.to_set().contains(x) implies kind_names(kept).contains(x) by {
            let i = choose|i: int| 0 <= i < ns.len() && ns[i] == x;
            let j = choose|j: int| 0 <= j < ek.len() && ek[j] == kinds[i].kind;
            assert(names(t1, ek[j], kept[j].event_kind@));
            assert(ks[j] == x);
        }
        assert forall|x: Seq<char>| kind_names(kept).contains(x) implies ns.to_set().contains(x) by {
            let j = choose|j: int| 0 <= j < ks.len() && ks[j] == x;
            assert(kind_symbols(kinds).contains(ek[j]));
            let p = choose|p: int| 0 <= p < kind_symbols(kinds).len() && kind_symbols(kinds)[p] == ek[j];
            assert(names(t1, ek[j], kept[j].event_kind@));
            assert(ns[p] == x);
        }
    }
    ns.unique_seq_to_set();
}

proof fn lemma_kind_list_extend(t: Seq<Seq<char>>, u: Seq<Seq<char>>, kept: Seq<RawEvent>, kinds: Seq<KindInfo>)
    requires
        is_kind_list(t, kept, kinds),
        t.len() <= u.len(),
        u.take(t.len() as int) == t,
    ensures
        is_kind_list(u, kept, kinds),
{
    assert forall|i: int| 0 <= i < kinds.len() implies #[trigger] kind_key(u, kinds[i].kind) == kind_key(
        t,
        kinds[i].kind,
    ) by {
        assert(u[kinds[i].kind.id() as int] == u.take(t.len() as int)[kinds[i].kind.id() as int]);
    }
    assert(kind_name_seq(u, kinds) =~= kind_name_seq(t, kinds)) by {
        assert forall|i: int| 0 <= i < kinds.len() implies kind_name_seq(u, kinds)[i] == kind_name_seq(t, kinds)[i] by {
            assert(u[kinds[i].kind.id() as int] == u.take(t.len() as int)[kinds[i].kind.id() as int]);
        }
    }
    assert forall|a: int, b: int| 0 <= a < b < kind_symbols(kinds).len() implies (kind_le(u))(
        kind_symbols(kinds)[a],
        kind_symbols(kinds)[b],
    ) by {
        assert(kind_symbols(kinds)[a] == kinds[a].kind);
        assert(kind_symbols(kinds)[b] == kinds[b].kind);
        assert(kind_key(u, kinds[a].kind) == kind_key(t, kinds[a].kind));
        assert(kind_key(u, kinds[b].kind) == kind_key(t, kinds[b].kind));
        assert((kind_le(t))(kind_symbols(kinds)[a], kind_symbols(kinds)[b]));
    }
}

} // verus!
