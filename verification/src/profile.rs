//! Loading a file from the decoded events and metadata of a measureme
//! profile.
use crate::data::{FileTab, FileUi};
use crate::load::{
    build_file_data, collect_table, event_strings, fits_load, intern_all, interval_events, is_loaded, kind_names,
    lemma_collect_table_prefix, lemma_intern_all_prefix, strs, thread_ids, too_many_kinds_text, RawEvent,
};
use crate::symbols::Symbols;
use std::collections::HashSet;
use vstd::prelude::*;
use vstd::string::StringExecFns;

verus! {

broadcast use vstd::std_specs::hash::group_hash_axioms;

/// What a profile records of the profiled process.
pub struct ProfileMetadata {
    pub cmd: String,
    pub pid: u32,
    /// When profiling started, in nanoseconds since the Unix epoch.
    pub start_time_ns: u128,
}

/// An interval event among `raw` gives its thread a place among the thread
/// ids of `raw`.
proof fn lemma_interval_thread(raw: Seq<RawEvent>, i: int)
    requires
        0 <= i < raw.len(),
        raw[i].interval is Some,
    ensures
        thread_ids(raw).contains(raw[i].thread_id),
        thread_ids(raw).len() >= 1,
    decreases raw.len(),
{
    let kept = interval_events(raw);
    let rest = interval_events(raw.drop_last());
    if i == raw.len() - 1 {
        assert(kept == rest.push(raw[i]));
        assert(kept.map_values(|r: RawEvent| r.thread_id)[rest.len() as int] == raw[i].thread_id);
    } else {
        lemma_interval_thread(raw.drop_last(), i);
        let t = raw[i].thread_id;
        let m = rest.map_values(|r: RawEvent| r.thread_id);
        let k = choose|k: int| 0 <= k < m.len() && #[trigger] m[k] == t;
        if raw.last().interval is Some {
            assert(kept == rest.push(raw.last()));
            assert(kept.map_values(|r: RawEvent| r.thread_id)[k] == t);
        } else {
            assert(kept == rest);
        }
    }
    vstd::seq_lib::seq_to_set_is_finite(kept.map_values(|r: RawEvent| r.thread_id));
    assert(thread_ids(raw).remove(raw[i].thread_id).len() + 1 == thread_ids(raw).len());
}

/// A table met while collecting the `i`-th event, an interval event, is no
/// longer than the table of the whole profile; so a profile whose table
/// reaches `u32::MAX` there does not fit.
proof fn lemma_full_table_does_not_fit(raw: Seq<RawEvent>, i: int, before: Seq<Seq<char>>, m: int)
    requires
        0 <= i < raw.len(),
        raw[i].interval is Some,
        before == collect_table(Seq::empty(), raw.take(i)),
        0 <= m <= event_strings(raw[i]).len(),
        intern_all(before, event_strings(raw[i]).take(m)).len() >= u32::MAX,
    ensures
        !fits_load(raw),
{
    assert(raw.take(i + 1).drop_last() =~= raw.take(i));
    assert(raw.take(i + 1).last() == raw[i]);
    lemma_intern_all_prefix(before, event_strings(raw[i]), m);
    lemma_collect_table_prefix(Seq::empty(), raw, i + 1);
    lemma_interval_thread(raw, i);
}

/// Whether a profile with the events `raw` fits the machine limit of a load.
///
/// The strings of the interval events are interned into a scratch table and
/// their threads gathered, as loading will do, and the counts compared with
/// the limit.
pub fn load_fits(raw: &Vec<RawEvent>) -> (r: bool)
    ensures
        r == fits_load(raw@),
{
    let limit: u64 = 0xffff_ffff;
    let mut scratch = Symbols::new();
    let mut tids: HashSet<u32> = HashSet::new();
    let mut kept: u64 = 0;
    let mut i: usize = 0;
    while i < raw.len()
        invariant
            i <= raw@.len(),
            limit == u32::MAX,
            scratch.wf(),
            scratch@ == collect_table(Seq::empty(), raw@.take(i as int)),
            tids@ == thread_ids(raw@.take(i as int)),
            kept == interval_events(raw@.take(i as int)).len(),
            kept <= i,
        decreases raw@.len() - i,
    {
        let r = &raw[i];
        proof {
            assert(raw@.take(i + 1).drop_last() =~= raw@.take(i as int));
            assert(raw@.take(i + 1).last() == raw@[i as int]);
        }
        if r.interval.is_some() {
            let ghost before = scratch@;
            let ghost es = event_strings(*r);
            let ghost na = r.additional_data@.len() as int;
            proof {
                assert(es.take(na) =~= strs(r.additional_data@));
                assert(es.take(na + 1) =~= es.take(na).push(r.event_kind@));
                assert(es.take(na + 2) =~= es);
                assert(es.take(na + 2) =~= es.take(na + 1).push(r.label@));
            }
            let mut j: usize = 0;
            while j < r.additional_data.len()
                invariant
                    i < raw@.len(),
                    *r == raw@[i as int],
                    raw@[i as int].interval is Some,
                    before == collect_table(Seq::empty(), raw@.take(i as int)),
                    j <= na,
                    na == r.additional_data@.len(),
                    es == event_strings(*r),
                    limit == u32::MAX,
                    scratch.wf(),
                    scratch@ == intern_all(before, es.take(j as int)),
                decreases na - j,
            {
                if scratch.len() as u64 >= limit {
                    proof {
                        lemma_full_table_does_not_fit(raw@, i as int, before, j as int);
                    }
                    return false;
                }
                scratch.intern(r.additional_data[j].as_str());
                proof {
                    assert(es.take(j + 1).drop_last() =~= es.take(j as int));
                    assert(es.take(j + 1).last() == r.additional_data@[j as int]@);
                }
                j = j + 1;
            }
            if scratch.len() as u64 >= limit {
                proof {
                    lemma_full_table_does_not_fit(raw@, i as int, before, na);
                }
                return false;
            }
            scratch.intern(r.event_kind.as_str());
            proof {
                assert(es.take(na + 1).drop_last() =~= es.take(na));
            }
            if scratch.len() as u64 >= limit {
                proof {
                    lemma_full_table_does_not_fit(raw@, i as int, before, na + 1);
                }
                return false;
            }
            scratch.intern(r.label.as_str());
            proof {
                assert(es.take(na + 2).drop_last() =~= es.take(na + 1));
            }
            let ghost t0 = tids@;
            tids.insert(r.thread_id);
            kept = kept + 1;
            proof {
                let k0 = interval_events(raw@.take(i as int));
                assert(interval_events(raw@.take(i + 1)) == k0.push(*r));
                let f = |x: RawEvent| x.thread_id;
                assert(k0.push(*r).map_values(f) =~= k0.map_values(f).push(r.thread_id));
                k0.map_values(f).lemma_push_to_set_commute(r.thread_id);
            }
        } else {
            proof {
                assert(interval_events(raw@.take(i + 1)) == interval_events(raw@.take(i as int)));
            }
        }
        i = i + 1;
    }
    proof {
        assert(raw@.take(raw@.len() as int) =~= raw@);
    }
    let threads = tids.len() as u64;
    let strings = scratch.len() as u64;
    threads <= limit && strings <= limit - threads && kept <= limit - threads
}

/// The message for a profile too large to load.
pub open spec fn too_large_text() -> Seq<char> {
    "Profile too large: its events and strings must number fewer than 2^32"@
}

/// `r` is what loading gives for a profile with the events `raw`, recorded
/// for the command `cmd` run as process `pid`, starting `start_time_ns`
/// nanoseconds after the Unix epoch.
pub open spec fn is_load_result(
    r: Result<FileTab, String>,
    raw: Seq<RawEvent>,
    cmd: Seq<char>,
    pid: u32,
    start_time_ns: u128,
) -> bool {
    &&& r is Ok <==> fits_load(raw) && kind_names(interval_events(raw)).len() <= crate::load::MAX_KINDS
    &&& match r {
        Ok(tab) => {
            &&& is_loaded(tab.data, raw, cmd, pid, start_time_ns as u64)
            &&& tab.ui == FileUi::initial()
            &&& tab.load_duration_ns is None
        },
        Err(msg) => if fits_load(raw) {
            msg@ == too_many_kinds_text(kind_names(interval_events(raw)).len())
        } else {
            msg@ == too_large_text()
        },
    }
}

/// Loads the data of a file from the decoded events and metadata of its
/// profile.
///
/// A profile whose strings or events cannot be numbered with 32-bit ids is
/// refused; otherwise the events are handed to `build_file_data`.
pub fn load_profiling_data(raw: &Vec<RawEvent>, metadata: ProfileMetadata) -> (r: Result<FileTab, String>)
    ensures
        is_load_result(r, raw@, metadata.cmd@, metadata.pid, metadata.start_time_ns),
{
    if !load_fits(raw) {
        let msg = String::from_str("Profile too large: its events and strings must number fewer than 2^32");
        proof {
            reveal_strlit("Profile too large: its events and strings must number fewer than 2^32");
        }
        return Err(msg);
    }
    let ProfileMetadata { cmd, pid, start_time_ns } = metadata;
    match build_file_data(raw, cmd, pid, start_time_ns) {
        Ok(file_data) => Ok(FileTab { data: file_data, ui: FileUi::default(), load_duration_ns: None }),
        Err(msg) => Err(msg),
    }
}

} // verus!
