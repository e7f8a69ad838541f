use lineme::data::{display_depth, duration_bucket, level_max_duration_exec, ColorMode, EventId, TimelineEvent, UnalignedU64, ViewType};
use lineme::pointer::{ClickOutcome, ClickTracker};
use lineme::sort::{bytes_le_exec, sort_triples};
use lineme::symbols::Symbols;
use lineme::text::{decimal_string, thread_label_string};
use lineme::timeline::total_ns;

fn event(symbols: &mut Symbols, start: u64, duration: u64, depth: u32, root: bool) -> TimelineEvent {
    TimelineEvent {
        label: symbols.intern("e"),
        start_ns: start,
        duration_ns: duration,
        depth,
        thread_id: 1,
        kind_index: 0,
        additional_data: None,
        payload_integer: None,
        is_thread_root: root,
    }
}

#[test]
fn intern_returns_the_same_symbol_for_the_same_string() {
    let mut symbols = Symbols::new();
    let a = symbols.intern("alpha");
    let b = symbols.intern("beta");
    let a2 = symbols.intern("alpha");
    assert_eq!(a, a2);
    assert_ne!(a, b);
    assert_eq!(symbols.len(), 2);
    assert_eq!(a.number(), 0);
    assert_eq!(b.number(), 1);
}

#[test]
fn resolve_gives_back_the_interned_string() {
    let mut symbols = Symbols::new();
    let a = symbols.intern("alpha");
    let empty = symbols.intern("");
    let b = symbols.intern("beta");
    assert_eq!(symbols.resolve(a), "alpha");
    assert_eq!(symbols.resolve(b), "beta");
    assert_eq!(symbols.resolve(empty), "");
}

#[test]
fn cloned_symbols_resolve_alike() {
    let mut symbols = Symbols::new();
    let a = symbols.intern("x");
    let b = symbols.intern("y");
    let copy = symbols.clone();
    assert_eq!(copy.len(), 2);
    assert_eq!(copy.resolve(a), "x");
    assert_eq!(copy.resolve(b), "y");
    let defaults = Symbols::default();
    assert_eq!(defaults.len(), 0);
}

#[test]
fn unaligned_u64_reads_back_what_was_stored() {
    for v in [0u64, 1, 0x0102_0304_0506_0708, u64::MAX] {
        assert_eq!(UnalignedU64::new(v).get(), v);
        let stored: UnalignedU64 = v.into();
        let back: u64 = stored.into();
        assert_eq!(back, v);
    }
    assert_eq!(UnalignedU64::default().get(), 0);
}

#[test]
fn duration_buckets_are_powers_of_two() {
    assert_eq!(duration_bucket(0), 0);
    assert_eq!(duration_bucket(1), 0);
    assert_eq!(duration_bucket(2), 1);
    assert_eq!(duration_bucket(3), 1);
    assert_eq!(duration_bucket(4), 2);
    assert_eq!(duration_bucket(1023), 9);
    assert_eq!(duration_bucket(1024), 10);
    assert_eq!(duration_bucket(u64::MAX), 63);
}

#[test]
fn every_duration_lies_within_its_bucket() {
    for d in [1u64, 2, 3, 7, 8, 1000, 123_456_789, u64::MAX / 3] {
        let b = duration_bucket(d);
        assert!(1u128 << b <= d as u128);
        assert!((d as u128) < 1u128 << (b + 1));
    }
}

#[test]
fn level_max_duration_is_one_below_the_next_power() {
    assert_eq!(level_max_duration_exec(0), 1);
    assert_eq!(level_max_duration_exec(1), 3);
    assert_eq!(level_max_duration_exec(10), 2047);
    assert_eq!(level_max_duration_exec(62), (1u64 << 63) - 1);
    assert_eq!(level_max_duration_exec(63), u64::MAX);
    assert_eq!(level_max_duration_exec(100), u64::MAX);
}

#[test]
fn display_depth_leaves_room_for_thread_roots() {
    let mut symbols = Symbols::new();
    let plain = event(&mut symbols, 0, 1, 2, false);
    let root = event(&mut symbols, 0, 1, 0, true);
    let deepest = event(&mut symbols, 0, 1, u32::MAX, false);
    assert_eq!(display_depth(true, &plain), 3);
    assert_eq!(display_depth(false, &plain), 2);
    assert_eq!(display_depth(true, &root), 0);
    assert_eq!(display_depth(true, &deepest), u32::MAX);
}

#[test]
fn event_id_index_is_its_number() {
    assert_eq!(EventId(17).index(), 17);
}

#[test]
fn mode_and_view_names() {
    assert_eq!(ColorMode::Kind.name(), "Kind");
    assert_eq!(ColorMode::Event.name(), "Event");
    assert_eq!(ColorMode::ALL, [ColorMode::Kind, ColorMode::Event]);
    assert_eq!(ColorMode::default(), ColorMode::Kind);
    assert_eq!(ViewType::Stats.name(), "Stats");
    assert_eq!(ViewType::Timeline.name(), "Timeline");
    assert_eq!(ViewType::default(), ViewType::Timeline);
}

#[test]
fn decimal_and_thread_labels() {
    assert_eq!(decimal_string(0), "0");
    assert_eq!(decimal_string(7), "7");
    assert_eq!(decimal_string(12345), "12345");
    assert_eq!(decimal_string(u64::MAX), "18446744073709551615");
    assert_eq!(thread_label_string(0), "Thread 0");
    assert_eq!(thread_label_string(42), "Thread 42");
}

#[test]
fn total_ns_is_floored_at_zero() {
    assert_eq!(total_ns(10, 25), 15);
    assert_eq!(total_ns(25, 10), 0);
    assert_eq!(total_ns(0, u64::MAX), u64::MAX);
}

#[test]
fn byte_order_is_the_order_of_str() {
    assert!(bytes_le_exec(b"abc", b"abd"));
    assert!(bytes_le_exec(b"ab", b"abc"));
    assert!(!bytes_le_exec(b"abc", b"ab"));
    assert!(bytes_le_exec(b"", b""));
    assert!(bytes_le_exec("Z".as_bytes(), "a".as_bytes()));
    assert_eq!(bytes_le_exec("é".as_bytes(), "z".as_bytes()), "é" <= "z");
}

#[test]
fn triples_sort_lexicographically() {
    let v = vec![(2, 0, 0), (1, 5, 1), (1, 2, 9), (1, 2, 3), (0, 9, 9)];
    let r = sort_triples(&v);
    assert_eq!(r, vec![(0, 9, 9), (1, 2, 3), (1, 2, 9), (1, 5, 1), (2, 0, 0)]);
}

#[test]
fn clicking_twice_quickly_zooms_and_a_third_click_selects() {
    let e = EventId(4);
    let mut clicks = ClickTracker::new();
    assert_eq!(clicks.release(Some(e), Some(e), false, 1_000), ClickOutcome::Selected(e));
    assert_eq!(clicks.release(Some(e), Some(e), false, 1_400), ClickOutcome::DoubleClicked(e));
    assert_eq!(clicks.last_click, None);
    assert_eq!(clicks.release(Some(e), Some(e), false, 1_500), ClickOutcome::Selected(e));
    // Too slow for a double click.
    assert_eq!(clicks.release(Some(e), Some(e), false, 1_901), ClickOutcome::Selected(e));
    // Another event, a drag, or a release elsewhere.
    assert_eq!(clicks.release(Some(e), Some(EventId(5)), false, 1_950), ClickOutcome::Nothing);
    assert_eq!(clicks.release(Some(e), Some(e), true, 1_960), ClickOutcome::Nothing);
    assert_eq!(clicks.release(None, Some(e), false, 1_970), ClickOutcome::Nothing);
    assert_eq!(clicks.last_click, Some((e, 1_901)));
    assert_eq!(clicks.release(Some(e), Some(e), false, 2_000), ClickOutcome::DoubleClicked(e));
}
