//! The profile data model: events, threads with their duration levels
//! ("mipmaps") and shadow markers, thread groups, and a loaded file; with the
//! duration buckets and thread root spans the pipeline computes.
use crate::symbols::{Symbol, Symbols};
use intervaltree::IntervalTree;
use std::sync::Arc;
use vstd::arithmetic::power2::pow2;
use vstd::bytes::{spec_u64_from_le_bytes, spec_u64_to_le_bytes, u64_from_le_bytes};
use vstd::prelude::*;
use vstd::std_specs::bits::u64_leading_zeros;

verus! {

/// A `u64` stored as eight little-endian bytes, so that it needs no alignment.
#[derive(Debug, Clone, Copy, PartialEq, Eq, Default)]
pub struct UnalignedU64([u8; 8]);

impl View for UnalignedU64 {
    type V = Seq<u8>;

    closed spec fn view(&self) -> Seq<u8> {
        self.0@
    }
}

impl UnalignedU64 {
    /// Stores `v` as its little-endian bytes.
    pub fn new(v: u64) -> (r: Self)
        ensures
            r@ == spec_u64_to_le_bytes(v),
            r == unaligned_of(v),
    {
        let bytes: [u8; 8] = [
            (v & 0xff) as u8,
            ((v >> 8) & 0xff) as u8,
            ((v >> 16) & 0xff) as u8,
            ((v >> 24) & 0xff) as u8,
            ((v >> 32) & 0xff) as u8,
            ((v >> 40) & 0xff) as u8,
            ((v >> 48) & 0xff) as u8,
            ((v >> 56) & 0xff) as u8,
        ];
        proof {
            vstd::bytes::spec_u64_to_le_bytes_to_open(v);
            assert(bytes@ =~= spec_u64_to_le_bytes(v));
        }
        let r = UnalignedU64(bytes);
        assert(r == unaligned_of(v));
        r
    }

    /// The value the bytes hold.
    pub fn get(&self) -> (r: u64)
        ensures
            r == spec_u64_from_le_bytes(self@),
    {
        u64_from_le_bytes(self.0.as_slice())
    }
}

/// The bytes that `UnalignedU64::new` stores for `v`.
pub closed spec fn unaligned_of(v: u64) -> UnalignedU64 {
    UnalignedU64(
        [
            (v & 0xff) as u8,
            ((v >> 8) & 0xff) as u8,
            ((v >> 16) & 0xff) as u8,
            ((v >> 24) & 0xff) as u8,
            ((v >> 32) & 0xff) as u8,
            ((v >> 40) & 0xff) as u8,
            ((v >> 48) & 0xff) as u8,
            ((v >> 56) & 0xff) as u8,
        ],
    )
}

impl vstd::std_specs::convert::FromSpecImpl<u64> for UnalignedU64 {
    open spec fn obeys_from_spec() -> bool {
        true
    }

    open spec fn from_spec(v: u64) -> UnalignedU64 {
        unaligned_of(v)
    }
}

impl vstd::std_specs::convert::FromSpecImpl<UnalignedU64> for u64 {
    open spec fn obeys_from_spec() -> bool {
        true
    }

    open spec fn from_spec(v: UnalignedU64) -> u64 {
        spec_u64_from_le_bytes(v@)
    }
}

impl From<u64> for UnalignedU64 {
    fn from(v: u64) -> (r: Self)
        ensures
            r@ == spec_u64_to_le_bytes(v),
    {
        UnalignedU64::new(v)
    }
}

impl From<UnalignedU64> for u64 {
    fn from(v: UnalignedU64) -> (r: Self)
        ensures
            r == spec_u64_from_le_bytes(v@),
    {
        v.get()
    }
}

/// Reading back a stored value gives the value that was stored.
pub proof fn law_unaligned_roundtrip(v: u64)
    ensures
        spec_u64_from_le_bytes(spec_u64_to_le_bytes(v)) == v,
{
    vstd::bytes::lemma_auto_spec_u64_to_from_le_bytes();
}

/// How events are colored in the timeline.
#[derive(Debug, Clone, Copy, PartialEq, Eq, Structural, Default)]
pub enum ColorMode {
    /// One color per event kind.
    #[default]
    Kind,
    /// One color per event label.
    Event,
}

impl ColorMode {
    /// Every mode, in the order a mode picker lists them.
    pub const ALL: [ColorMode; 2] = [ColorMode::Kind, ColorMode::Event];

    /// The mode's display name.
    pub fn name(self) -> (s: &'static str)
        ensures
            s@ == (match self {
                ColorMode::Kind => "Kind"@,
                ColorMode::Event => "Event"@,
            }),
    {
        match self {
            ColorMode::Kind => "Kind",
            ColorMode::Event => "Event",
        }
    }
}

/// The index of an event in the file's event table.
#[derive(Debug, Clone, Copy, PartialEq, Eq, Structural, Hash)]
pub struct EventId(pub u32);

impl EventId {
    /// The event's position in the event table.
    pub fn index(self) -> (r: usize)
        ensures
            r == self.0,
    {
        self.0 as usize
    }
}

/// One event of the timeline.
#[derive(Debug, Clone, PartialEq)]
pub struct TimelineEvent {
    pub label: Symbol,
    pub start_ns: u64,
    pub duration_ns: u64,
    pub depth: u32,
    pub thread_id: u32,
    /// Index into `FileData::kinds` identifying the kind (and color) of the
    /// event. Stored as `u16` to keep per-event memory small.
    pub kind_index: u16,
    pub additional_data: Option<Box<[Symbol]>>,
    pub payload_integer: Option<u64>,
    pub is_thread_root: bool,
}

/// The data of one thread: its synthetic root event and its events split
/// into duration levels.
#[derive(Debug, Clone)]
pub struct ThreadData {
    pub thread_id: u32,
    pub thread_root: Option<EventId>,
    pub thread_root_mipmap: Option<ThreadGroupMipMap>,
    pub mipmaps: Vec<ThreadGroupMipMap>,
    pub max_depth: u32,
}

pub type ThreadGroupId = Arc<Vec<Arc<ThreadData>>>;

/// Threads drawn together in one lane group.
#[derive(Debug, Clone)]
pub struct ThreadGroup {
    pub threads: ThreadGroupId,
    pub max_depth: u32,
    pub is_collapsed: bool,
    pub show_thread_roots: bool,
}

/// One duration level of a thread: the events whose duration falls in the
/// level's bucket, and shadow markers for the shorter events below it.
#[derive(Debug, Clone)]
pub struct ThreadGroupMipMap {
    pub max_duration_ns: u64,
    pub events: Vec<EventId>,
    pub shadows: ThreadGroupMipMapShadows,
    pub events_tree: IntervalTree<u64, EventId>,
}

/// Shadow markers of one level, one entry per depth.
#[derive(Debug, Clone, Default)]
pub struct ThreadGroupMipMapShadows {
    pub levels: Vec<ShadowLevel>,
}

/// All shadows at a single depth, stored in an interval tree keyed by their
/// time range.
#[derive(Debug, Clone)]
pub struct ShadowLevel {
    pub events_tree: IntervalTree<u64, ()>,
}

/// The thread groups of a file and the time span they cover.
#[derive(Debug, Clone, Default)]
pub struct TimelineData {
    pub thread_groups: Vec<ThreadGroup>,
    pub min_ns: u64,
    pub max_ns: u64,
}

/// One entry of the table of distinct event kinds.
#[derive(Debug, Clone, Copy)]
pub struct KindInfo {
    pub kind: Symbol,
}

/// Everything loaded from one profiling file.
pub struct FileData {
    pub event_count: usize,
    pub cmd: String,
    pub pid: u32,
    pub timeline: TimelineData,
    pub events: Vec<TimelineEvent>,
    pub merged_thread_groups: Vec<ThreadGroup>,
    /// Compact table of distinct event kinds, ordered by name.
    pub kinds: Vec<KindInfo>,
    /// The strings of the events, interned.
    pub symbols: Symbols,
}

/// Which view of a file is shown.
#[derive(Debug, Clone, Copy, PartialEq, Eq, Structural, Default)]
pub enum ViewType {
    /// Summary statistics of the file.
    Stats,
    /// The timeline of the file's events.
    #[default]
    Timeline,
}

impl ViewType {
    /// Every view, in the order a view picker lists them.
    pub const ALL: [ViewType; 2] = [ViewType::Stats, ViewType::Timeline];

    /// The view's display name.
    pub fn name(self) -> (s: &'static str)
        ensures
            s@ == (match self {
                ViewType::Stats => "Stats"@,
                ViewType::Timeline => "Timeline"@,
            }),
    {
        match self {
            ViewType::Stats => "Stats",
            ViewType::Timeline => "Timeline",
        }
    }
}

/// How a loaded file is being looked at: the choices the user made and the
/// event under selection or under the pointer. (Zoom and scrolling are
/// kept with the view that draws the file.)
#[derive(Debug, Clone, Copy, PartialEq, Eq, Structural)]
pub struct FileUi {
    pub color_mode: ColorMode,
    pub selected_event: Option<EventId>,
    pub hovered_event: Option<EventId>,
    pub merge_threads: bool,
    pub initial_fit_done: bool,
    pub view_type: ViewType,
}

impl FileUi {
    /// The state of a freshly loaded file: colored by kind, nothing selected
    /// or hovered, threads merged, not yet fitted, showing the timeline.
    pub open spec fn initial() -> FileUi {
        FileUi {
            color_mode: ColorMode::Kind,
            selected_event: None,
            hovered_event: None,
            merge_threads: true,
            initial_fit_done: false,
            view_type: ViewType::Timeline,
        }
    }
}

impl Default for FileUi {
    fn default() -> (r: Self)
        ensures
            r == FileUi::initial(),
    {
        FileUi {
            color_mode: ColorMode::Kind,
            selected_event: None,
            hovered_event: None,
            merge_threads: true,
            initial_fit_done: false,
            view_type: ViewType::Timeline,
        }
    }
}

/// A loaded file: its data, how it is being looked at, and how long it took
/// to load.
pub struct FileTab {
    pub data: FileData,
    pub ui: FileUi,
    pub load_duration_ns: Option<u64>,
}

/// The depth at which `event` is drawn: one lane lower when its group shows
/// thread roots above the events.
pub fn display_depth(show_thread_roots: bool, event: &TimelineEvent) -> (r: u32)
    ensures
        r == if show_thread_roots && !event.is_thread_root {
            if event.depth == u32::MAX {
                u32::MAX
            } else {
                (event.depth + 1) as u32
            }
        } else {
            event.depth
        },
{
    if show_thread_roots && !event.is_thread_root {
        event.depth.saturating_add(1)
    } else {
        event.depth
    }
}

// ---------------------------------------------------------------------------
// Duration buckets
// ---------------------------------------------------------------------------

/// The exponent of the largest power of two not above `n` (0 for `n <= 1`).
pub open spec fn log2_floor(n: nat) -> nat
    decreases n,
{
    if n <= 1 {
        0
    } else {
        1 + log2_floor(n / 2)
    }
}

/// The duration level of an event: `log2_floor(max(duration, 1))`.
pub open spec fn bucket_of(duration_ns: u64) -> nat {
    log2_floor(if duration_ns == 0 { 1 } else { duration_ns as nat })
}

/// The largest duration of the level `bucket`: `2^(bucket+1) - 1`, or
/// `u64::MAX` for the top level.
pub open spec fn level_max_duration(bucket: nat) -> u64 {
    if bucket >= 63 {
        u64::MAX
    } else {
        (pow2(bucket + 1) - 1) as u64
    }
}

proof fn lemma_leading_zeros_log2(i: u64)
    requires
        i >= 1,
    ensures
        63 - u64_leading_zeros(i) == log2_floor(i as nat),
    decreases i,
{
    reveal(u64_leading_zeros);
    if i == 1 {
        assert(u64_leading_zeros(0) == 64);
    } else {
        lemma_leading_zeros_log2(i / 2);
    }
}

/// Each duration lies in its level: `2^b <= max(duration, 1) < 2^(b+1)`.
pub proof fn law_bucket_bounds(n: nat)
    requires
        n >= 1,
    ensures
        pow2(log2_floor(n)) <= n < pow2(log2_floor(n) + 1),
    decreases n,
{
    vstd::arithmetic::power2::lemma_pow2_unfold(log2_floor(n) + 1);
    if n > 1 {
        law_bucket_bounds(n / 2);
        vstd::arithmetic::power2::lemma_pow2_unfold(log2_floor(n));
    } else {
        vstd::arithmetic::power2::lemma2_to64();
    }
}

/// The duration level of an event.
pub fn duration_bucket(duration_ns: u64) -> (r: u32)
    ensures
        r == bucket_of(duration_ns),
        r < 64,
{
    let duration = if duration_ns > 1 { duration_ns } else { 1 };
    proof {
        lemma_leading_zeros_log2(duration);
        vstd::std_specs::bits::axiom_u64_leading_zeros(duration);
    }
    63u32 - duration.leading_zeros()
}

/// The largest duration of the level `bucket`.
pub fn level_max_duration_exec(bucket: u32) -> (r: u64)
    ensures
        r == level_max_duration(bucket as nat),
{
    if bucket >= 63 {
        u64::MAX
    } else {
        let shift: u64 = (bucket + 1) as u64;
        proof {
            vstd::bits::lemma_u64_pow2_no_overflow(shift as nat);
            vstd::bits::lemma_u64_shl_is_mul(1, shift);
        }
        (1u64 << shift).saturating_sub(1)
    }
}

// ---------------------------------------------------------------------------
// Thread roots
// ---------------------------------------------------------------------------

/// `a + b`, capped at `u64::MAX`.
pub open spec fn sat_add(a: u64, b: u64) -> u64 {
    if a + b > u64::MAX {
        u64::MAX
    } else {
        (a + b) as u64
    }
}

/// `a - b`, floored at 0.
pub open spec fn sat_sub(a: u64, b: u64) -> u64 {
    if a >= b {
        (a - b) as u64
    } else {
        0
    }
}

/// The time an event ends (capped at `u64::MAX`).
pub open spec fn event_end(e: TimelineEvent) -> u64 {
    sat_add(e.start_ns, e.duration_ns)
}

/// The smallest start among the listed events (`u64::MAX` for none).
pub open spec fn min_start(events: Seq<TimelineEvent>, ids: Seq<EventId>) -> u64
    decreases ids.len(),
{
    if ids.len() == 0 {
        u64::MAX
    } else {
        let rest = min_start(events, ids.drop_last());
        let s = events[ids.last().0 as int].start_ns;
        if s < rest {
            s
        } else {
            rest
        }
    }
}

/// The largest end among the listed events (0 for none).
pub open spec fn max_end(events: Seq<TimelineEvent>, ids: Seq<EventId>) -> u64
    decreases ids.len(),
{
    if ids.len() == 0 {
        0
    } else {
        let rest = max_end(events, ids.drop_last());
        let e = event_end(events[ids.last().0 as int]);
        if e > rest {
            e
        } else {
            rest
        }
    }
}

/// Every listed id names an event of the table.
pub open spec fn ids_in_range(events: Seq<TimelineEvent>, ids: Seq<EventId>) -> bool {
    forall|k: int| 0 <= k < ids.len() ==> (#[trigger] ids[k]).0 < events.len()
}

/// Information needed to build a thread root event.
#[derive(Debug)]
pub struct ThreadRootInfo {
    pub thread_id: u32,
    pub start_ns: u64,
    pub duration_ns: u64,
}

/// The span that the root of a thread covers: from the earliest start to the
/// latest end of its events; none when the earliest start is `u64::MAX`
/// (which includes a thread without events).
pub open spec fn root_info_spec(events: Seq<TimelineEvent>, thread_id: u32, ids: Seq<EventId>) -> Option<
    (u32, u64, u64),
> {
    let s = min_start(events, ids);
    if s == u64::MAX {
        None
    } else {
        Some((thread_id, s, sat_sub(max_end(events, ids), s)))
    }
}

pub(crate) fn compute_thread_root_info(events: &Vec<TimelineEvent>, thread_id: u32, event_ids: &Vec<EventId>) -> (r: Option<
    ThreadRootInfo,
>)
    requires
        ids_in_range(events@, event_ids@),
    ensures
        r matches Some(info) ==> root_info_spec(events@, thread_id, event_ids@) == Some(
            (info.thread_id, info.start_ns, info.duration_ns),
        ),
        r is None ==> root_info_spec(events@, thread_id, event_ids@) is None,
{
    let mut start_ns = u64::MAX;
    let mut end_ns = 0u64;
    let mut k: usize = 0;
    while k < event_ids.len()
        invariant
            ids_in_range(events@, event_ids@),
            k <= event_ids@.len(),
            start_ns == min_start(events@, event_ids@.take(k as int)),
            end_ns == max_end(events@, event_ids@.take(k as int)),
        decreases event_ids@.len() - k,
    {
        let event = &events[event_ids[k].index()];
        assert(event_ids@.take(k + 1).drop_last() =~= event_ids@.take(k as int));
        if event.start_ns < start_ns {
            start_ns = event.start_ns;
        }
        let end = event.start_ns.saturating_add(event.duration_ns);
        if end > end_ns {
            end_ns = end;
        }
        k = k + 1;
    }
    assert(event_ids@.take(event_ids@.len() as int) =~= event_ids@);
    if start_ns == u64::MAX {
        return None;
    }
    Some(ThreadRootInfo { thread_id, start_ns, duration_ns: end_ns.saturating_sub(start_ns) })
}

/// The synthetic event that spans a whole thread, labelled `Thread <id>`.
pub(crate) fn build_thread_root_event(info: &ThreadRootInfo, symbols: &mut Symbols) -> (e: TimelineEvent)
    requires
        old(symbols).wf(),
        old(symbols)@.len() <= u32::MAX,
    ensures
        final(symbols).wf(),
        final(symbols)@ == crate::symbols::interned(
            old(symbols)@,
            crate::text::thread_label(info.thread_id as nat),
        ),
        e.label.id() < final(symbols)@.len(),
        final(symbols)@[e.label.id() as int] == crate::text::thread_label(info.thread_id as nat),
        e.start_ns == info.start_ns,
        e.duration_ns == info.duration_ns,
        e.depth == 0,
        e.thread_id == info.thread_id,
        e.kind_index == 0,
        e.additional_data is None,
        e.payload_integer is None,
        e.is_thread_root,
{
    let label_text = crate::text::thread_label_string(info.thread_id);
    let label = symbols.intern(label_text.as_str());
    TimelineEvent {
        label,
        start_ns: info.start_ns,
        duration_ns: info.duration_ns,
        depth: 0,
        thread_id: info.thread_id,
        kind_index: 0u16,
        additional_data: None,
        payload_integer: None,
        is_thread_root: true,
    }
}

} // verus!
