use lineme::data::{EventId, FileData, TimelineEvent};
use lineme::grouping::{build_merged_thread_groups, build_thread_data, build_thread_groups};
use lineme::lanes::{assign_event_depths, build_threads_index};
use lineme::load::{build_file_data, build_kind_table, collect_timeline_events, RawEvent};
use lineme::mipmap::{build_event_indices, build_thread_group_mipmaps};
use lineme::symbols::Symbols;
use lineme::timeline::{group_contains_thread, group_label, visible_event_indices_in, visible_shadows_in};
use lineme::profile::load_fits;
use std::sync::Arc;

fn raw(thread_id: u32, kind: &str, label: &str, start: u128, end: u128) -> RawEvent {
    RawEvent {
        thread_id,
        event_kind: kind.to_string(),
        label: label.to_string(),
        additional_data: Vec::new(),
        interval: Some((start, end)),
        payload_integer: None,
    }
}

fn ev(symbols: &mut Symbols, thread_id: u32, start: u64, duration: u64) -> TimelineEvent {
    TimelineEvent {
        label: symbols.intern("e"),
        start_ns: start,
        duration_ns: duration,
        depth: 0,
        thread_id,
        kind_index: 0,
        additional_data: None,
        payload_integer: None,
        is_thread_root: false,
    }
}

fn load(events: Vec<RawEvent>) -> FileData {
    match build_file_data(&events, "rustc".to_string(), 7, 1_000) {
        Ok(data) => data,
        Err(e) => panic!("load failed: {}", e),
    }
}

#[test]
fn collecting_keeps_interval_events_and_counts_all() {
    let mut symbols = Symbols::new();
    let mut with_data = raw(3, "Query", "typeck", 1_500, 1_900);
    with_data.additional_data = vec!["arg0".to_string(), "arg1".to_string()];
    let instant = RawEvent {
        thread_id: 3,
        event_kind: "Instant".to_string(),
        label: "mark".to_string(),
        additional_data: Vec::new(),
        interval: None,
        payload_integer: Some(5),
    };
    let events = vec![raw(3, "Query", "parse", 900, 1_200), instant, with_data];
    let c = collect_timeline_events(&events, &mut symbols, 1_000);
    assert_eq!(c.event_count, 3);
    assert_eq!(c.events.len(), 2);
    assert_eq!(c.event_kinds.len(), 2);
    // Start before the profile start is floored at 0.
    assert_eq!(c.events[0].start_ns, 0);
    assert_eq!(c.events[0].duration_ns, 200);
    assert_eq!(c.events[1].start_ns, 500);
    assert_eq!(c.events[1].duration_ns, 400);
    assert_eq!(c.max_ns, 900);
    assert!(c.events[0].additional_data.is_none());
    let data = c.events[1].additional_data.as_ref().expect("additional data");
    assert_eq!(data.len(), 2);
    assert_eq!(symbols.resolve(data[0]), "arg0");
    assert_eq!(symbols.resolve(data[1]), "arg1");
    assert_eq!(symbols.resolve(c.events[1].label), "typeck");
    assert_eq!(symbols.resolve(c.event_kinds[0]), "Query");
    // Strings are interned additional data first, then kind, then label.
    assert_eq!(symbols.len(), 5);
    assert_eq!(symbols.intern("Query").number(), 0);
    assert_eq!(symbols.intern("parse").number(), 1);
    assert_eq!(symbols.intern("arg0").number(), 2);
    assert_eq!(symbols.intern("typeck").number(), 4);
    assert!(!c.events[0].is_thread_root);
    assert_eq!(c.events[0].depth, 0);
    assert_eq!(c.events[0].thread_id, 3);
}

#[test]
fn times_are_taken_modulo_two_to_the_sixty_four() {
    let mut symbols = Symbols::new();
    let big = (1u128 << 64) + 50;
    let events = vec![raw(1, "k", "l", big, big + 10)];
    let c = collect_timeline_events(&events, &mut symbols, 20);
    assert_eq!(c.events[0].start_ns, 30);
    assert_eq!(c.events[0].duration_ns, 10);
}

#[test]
fn kind_table_is_ordered_by_name_without_repeats() {
    let mut symbols = Symbols::new();
    let b = symbols.intern("b");
    let a = symbols.intern("a");
    let c = symbols.intern("c");
    let _other = symbols.intern("zzz");
    let (kinds, lookup) = build_kind_table(&vec![b, a, c, a, b], &symbols);
    let names: Vec<&str> = kinds.iter().map(|k| symbols.resolve(k.kind)).collect();
    assert_eq!(names, vec!["a", "b", "c"]);
    assert_eq!(lookup.len(), 4);
    assert_eq!(lookup[a.number() as usize], 0);
    assert_eq!(lookup[b.number() as usize], 1);
    assert_eq!(lookup[c.number() as usize], 2);
}

#[test]
fn threads_index_is_ordered_by_thread_id() {
    let mut symbols = Symbols::new();
    let events = vec![ev(&mut symbols, 9, 0, 1), ev(&mut symbols, 2, 0, 1), ev(&mut symbols, 9, 5, 1)];
    let index = build_threads_index(&events);
    assert_eq!(index.len(), 2);
    assert_eq!(index[0].0, 2);
    assert_eq!(index[0].1, vec![EventId(1)]);
    assert_eq!(index[1].0, 9);
    assert_eq!(index[1].1, vec![EventId(0), EventId(2)]);
}

#[test]
fn depths_count_the_enclosing_events() {
    let mut symbols = Symbols::new();
    // parent 0..100, child 10..50, grandchild 20..30, sibling 60..70, and an
    // event starting with the parent but shorter.
    let mut events = vec![
        ev(&mut symbols, 1, 10, 40),
        ev(&mut symbols, 1, 20, 10),
        ev(&mut symbols, 1, 0, 5),
        ev(&mut symbols, 1, 60, 10),
        ev(&mut symbols, 1, 0, 100),
    ];
    let mut threads = build_threads_index(&events);
    assign_event_depths(&mut events, &mut threads);
    assert_eq!(events[4].depth, 0);
    assert_eq!(events[2].depth, 1);
    assert_eq!(events[0].depth, 1);
    assert_eq!(events[1].depth, 2);
    assert_eq!(events[3].depth, 1);
    // Visiting order: by start, longer first.
    assert_eq!(threads[0].1, vec![EventId(4), EventId(2), EventId(0), EventId(1), EventId(3)]);
}

#[test]
fn depths_follow_any_lists_of_events() {
    let mut symbols = Symbols::new();
    // Outer 0..100 with inner 10..20, plus an event 50..60 left out of the
    // first list; the lists are not a thread index.
    let mut events = vec![
        ev(&mut symbols, 1, 10, 10),
        ev(&mut symbols, 1, 50, 10),
        ev(&mut symbols, 1, 0, 100),
    ];
    events[1].depth = 7;
    let mut threads = vec![(9, vec![EventId(0), EventId(2)])];
    assign_event_depths(&mut events, &mut threads);
    assert_eq!(threads[0].1, vec![EventId(2), EventId(0)]);
    assert_eq!(events[2].depth, 0);
    assert_eq!(events[0].depth, 1);
    // Not listed: unchanged.
    assert_eq!(events[1].depth, 7);
    // A later list visiting an event again decides its depth.
    let mut threads = vec![(1, vec![EventId(0), EventId(2)]), (1, vec![EventId(0)])];
    assign_event_depths(&mut events, &mut threads);
    assert_eq!(events[0].depth, 0);
    assert_eq!(events[2].depth, 0);
    assert_eq!(threads[0].0, 1);
    assert_eq!(threads[1].1, vec![EventId(0)]);
}

#[test]
fn levels_split_events_by_duration() {
    let mut symbols = Symbols::new();
    let events = vec![ev(&mut symbols, 1, 0, 1), ev(&mut symbols, 1, 10, 9), ev(&mut symbols, 1, 30, 2)];
    let ids = vec![EventId(0), EventId(1), EventId(2)];
    let mipmaps = build_thread_group_mipmaps(&events, &ids);
    // Buckets 0, 1, 2 (empty), 3.
    assert_eq!(mipmaps.len(), 4);
    assert_eq!(mipmaps[0].events, vec![EventId(0)]);
    assert_eq!(mipmaps[1].events, vec![EventId(2)]);
    assert!(mipmaps[2].events.is_empty());
    assert_eq!(mipmaps[3].events, vec![EventId(1)]);
    assert_eq!(mipmaps[0].max_duration_ns, 1);
    assert_eq!(mipmaps[1].max_duration_ns, 3);
    assert_eq!(mipmaps[2].max_duration_ns, 7);
    assert_eq!(mipmaps[3].max_duration_ns, 15);
    // Each event is in exactly one level.
    for id in &ids {
        let count = mipmaps.iter().filter(|m| m.events.contains(id)).count();
        assert_eq!(count, 1);
    }
    assert!(build_thread_group_mipmaps(&events, &Vec::new()).is_empty());
}

#[test]
fn shadows_of_a_level_cover_shorter_events_and_stay_apart() {
    let mut symbols = Symbols::new();
    // Two short events close together and one long event.
    let events = vec![ev(&mut symbols, 1, 0, 1), ev(&mut symbols, 1, 2, 1), ev(&mut symbols, 1, 100, 16)];
    let ids = vec![EventId(0), EventId(1), EventId(2)];
    let mipmaps = build_thread_group_mipmaps(&events, &ids);
    assert_eq!(mipmaps.len(), 5);
    assert_eq!(mipmaps[0].shadows.levels.len(), 1);
    assert!(visible_shadows_in(&mipmaps[0].shadows, 0, 1000).is_empty());
    // Level 1 (max 3): the two short events, stretched to 3 ns, merge into 0..5.
    let shadows = visible_shadows_in(&mipmaps[1].shadows, 0, 1000);
    assert_eq!(shadows, vec![(0, 0, 5)]);
    // Level 4 (max 31): stretched level by level up to 31 ns.
    let shadows = visible_shadows_in(&mipmaps[4].shadows, 0, 1000);
    assert_eq!(shadows, vec![(0, 0, 31)]);
    for m in &mipmaps {
        let rows = visible_shadows_in(&m.shadows, 0, u64::MAX - 1);
        for w in rows.windows(2) {
            if w[0].0 == w[1].0 {
                assert!(w[0].1 + w[0].2 < w[1].1);
            }
        }
    }
    // Outside the window nothing shows.
    assert!(visible_shadows_in(&mipmaps[1].shadows, 10, 50).is_empty());
}

#[test]
fn shadows_reach_the_level_duration_and_stand_for_shorter_events() {
    let mut symbols = Symbols::new();
    let events = vec![
        ev(&mut symbols, 1, 0, 1),
        ev(&mut symbols, 1, 2, 1),
        ev(&mut symbols, 1, 40, 6),
        ev(&mut symbols, 1, 100, 16),
    ];
    let ids = vec![EventId(0), EventId(1), EventId(2), EventId(3)];
    let mipmaps = build_thread_group_mipmaps(&events, &ids);
    for (b, m) in mipmaps.iter().enumerate() {
        let target = m.max_duration_ns.max(1);
        for (_, start, len) in visible_shadows_in(&m.shadows, 0, 1000) {
            assert!(len >= target);
            for t in start..=start + len {
                let backed = mipmaps[..b].iter().flat_map(|lower| lower.events.iter()).any(|id| {
                    let e = &events[id.index()];
                    e.start_ns <= t && t <= e.start_ns + e.duration_ns.max(target)
                });
                assert!(backed, "level {} point {}", b, t);
            }
        }
    }
    // Level 3 (max 15): 0..5 stretched to 15 ns, and the 6 ns event at 40.
    let mut level3 = visible_shadows_in(&mipmaps[3].shadows, 0, 1000);
    level3.sort();
    assert_eq!(level3, vec![(0, 0, 15), (0, 40, 15)]);
}

#[test]
fn each_level_keeps_one_shadow_list_per_depth_reached() {
    let mut symbols = Symbols::new();
    let mut deep = ev(&mut symbols, 1, 41, 4);
    deep.depth = 1;
    // Level 0: a 1 ns event at depth 0; level 2: a 4 ns event at depth 1;
    // level 4: a 16 ns event at depth 0.
    let events = vec![ev(&mut symbols, 1, 0, 1), deep, ev(&mut symbols, 1, 100, 16)];
    let ids = vec![EventId(0), EventId(1), EventId(2)];
    let mipmaps = build_thread_group_mipmaps(&events, &ids);
    let lists: Vec<usize> = mipmaps.iter().map(|m| m.shadows.levels.len()).collect();
    assert_eq!(lists, vec![1, 1, 2, 2, 2]);
}

#[test]
fn visible_events_are_those_meeting_the_window() {
    let mut symbols = Symbols::new();
    let events = vec![ev(&mut symbols, 1, 0, 10), ev(&mut symbols, 1, 20, 5), ev(&mut symbols, 1, 40, 0)];
    let ids = vec![EventId(0), EventId(1), EventId(2)];
    let (by_start, by_end, tree) = build_event_indices(&events, &ids);
    assert!(by_start.is_empty() && by_end.is_empty());
    let mut seen = visible_event_indices_in(&tree, 5, 21);
    seen.sort_by_key(|id| id.0);
    assert_eq!(seen, vec![EventId(0), EventId(1)]);
    let mut seen = visible_event_indices_in(&tree, 10, 19);
    seen.sort_by_key(|id| id.0);
    assert!(seen.is_empty());
    // A zero-length event still takes one nanosecond.
    assert_eq!(visible_event_indices_in(&tree, 40, 40), vec![EventId(2)]);
    assert!(visible_event_indices_in(&tree, 41, 50).is_empty());
}

#[test]
fn thread_data_adds_one_root_event_per_thread() {
    let mut symbols = Symbols::new();
    let mut events = vec![ev(&mut symbols, 5, 10, 20), ev(&mut symbols, 6, 100, 50), ev(&mut symbols, 5, 0, 5)];
    let mut threads = build_threads_index(&events);
    assign_event_depths(&mut events, &mut threads);
    let data = build_thread_data(&mut events, threads, &mut symbols);
    assert_eq!(events.len(), 5);
    assert_eq!(data.len(), 2);
    assert_eq!(data[0].thread_id, 5);
    assert_eq!(data[0].thread_root, Some(EventId(3)));
    assert_eq!(data[1].thread_root, Some(EventId(4)));
    let root = &events[3];
    assert!(root.is_thread_root);
    assert_eq!(root.start_ns, 0);
    assert_eq!(root.duration_ns, 30);
    assert_eq!(symbols.resolve(root.label), "Thread 5");
    assert_eq!(symbols.resolve(events[4].label), "Thread 6");
    let root_level = data[0].thread_root_mipmap.as_ref().expect("root level");
    assert_eq!(root_level.events, vec![EventId(3)]);
    assert_eq!(visible_event_indices_in(&root_level.events_tree, 0, 100), vec![EventId(3)]);
    assert_eq!(data[0].max_depth, 0);
}

#[test]
fn per_thread_groups_hold_one_thread_each() {
    let mut symbols = Symbols::new();
    let mut events = vec![ev(&mut symbols, 5, 10, 20), ev(&mut symbols, 6, 100, 50)];
    let mut threads = build_threads_index(&events);
    assign_event_depths(&mut events, &mut threads);
    let data = build_thread_data(&mut events, threads, &mut symbols);
    let groups = build_thread_groups(&data);
    assert_eq!(groups.len(), 2);
    assert_eq!(groups[0].threads.len(), 1);
    assert!(Arc::ptr_eq(&groups[0].threads[0], &data[0]));
    assert!(!groups[0].is_collapsed && !groups[0].show_thread_roots);
    assert!(group_contains_thread(&groups[1], 6));
    assert!(!group_contains_thread(&groups[1], 5));
}

#[test]
fn merged_groups_pack_threads_whose_spans_do_not_overlap() {
    let mut symbols = Symbols::new();
    // Thread 1: 0..100 (long); thread 2: 0..10; thread 3: 20..30; thread 4: 5..25.
    let mut events = vec![
        ev(&mut symbols, 1, 0, 100),
        ev(&mut symbols, 2, 0, 10),
        ev(&mut symbols, 3, 20, 10),
        ev(&mut symbols, 4, 5, 20),
    ];
    let mut threads = build_threads_index(&events);
    assign_event_depths(&mut events, &mut threads);
    let data = build_thread_data(&mut events, threads, &mut symbols);
    let merged = build_merged_thread_groups(&events, &data);
    // Shortest first: threads 2 and 3 share a group; 4 overlaps that group's
    // range 0..30, and 1 overlaps everything.
    let ids: Vec<Vec<u32>> = merged.iter().map(|g| g.threads.iter().map(|t| t.thread_id).collect()).collect();
    assert_eq!(ids, vec![vec![1], vec![2, 3], vec![4]]);
    assert!(merged[1].show_thread_roots);
    assert_eq!(merged[1].max_depth, 1);
    assert!(!merged[0].show_thread_roots);
    assert_eq!(merged[0].max_depth, 0);
    // Every thread is in exactly one group.
    for t in &data {
        let count = merged.iter().filter(|g| g.threads.iter().any(|u| u.thread_id == t.thread_id)).count();
        assert_eq!(count, 1);
    }
    assert!(build_merged_thread_groups(&events, &Vec::new()).is_empty());
}

#[test]
fn loading_builds_the_whole_file() {
    let events = vec![
        raw(2, "Query", "outer", 1_000, 1_100),
        raw(2, "Generic", "inner", 1_010, 1_020),
        raw(1, "Query", "other", 1_050, 1_060),
    ];
    let data = load(events);
    assert_eq!(data.event_count, 3);
    assert_eq!(data.cmd, "rustc");
    assert_eq!(data.pid, 7);
    assert_eq!(data.timeline.min_ns, 0);
    assert_eq!(data.timeline.max_ns, 100);
    // Kinds ordered by name.
    let kinds: Vec<&str> = data.kinds.iter().map(|k| data.symbols.resolve(k.kind)).collect();
    assert_eq!(kinds, vec!["Generic", "Query"]);
    assert_eq!(data.events[0].kind_index, 1);
    assert_eq!(data.events[1].kind_index, 0);
    assert_eq!(data.events[1].depth, 1);
    assert_eq!(data.events[0].depth, 0);
    // Root events for threads 1 and 2, in thread order.
    assert_eq!(data.events.len(), 5);
    assert_eq!(data.symbols.resolve(data.events[3].label), "Thread 1");
    assert_eq!(data.symbols.resolve(data.events[4].label), "Thread 2");
    assert_eq!(data.timeline.thread_groups.len(), 2);
    assert_eq!(data.timeline.thread_groups[0].threads[0].thread_id, 1);
    assert_eq!(data.merged_thread_groups.len(), 2);
}

#[test]
fn too_many_kinds_are_refused() {
    let events: Vec<RawEvent> = (0..65_536u32).map(|i| raw(1, &format!("k{}", i), "l", 0, 1)).collect();
    match build_file_data(&events, String::new(), 0, 0) {
        Ok(_) => panic!("expected an error"),
        Err(e) => assert_eq!(e, "Too many distinct event kinds: 65536 (max 65535)"),
    }
}

#[test]
fn an_empty_profile_loads_empty() {
    let data = load(Vec::new());
    assert_eq!(data.event_count, 0);
    assert!(data.events.is_empty());
    assert!(data.kinds.is_empty());
    assert!(data.timeline.thread_groups.is_empty());
    assert!(data.merged_thread_groups.is_empty());
    assert_eq!(data.timeline.max_ns, 0);
}

#[test]
fn group_labels_name_single_threads() {
    let mut symbols = Symbols::new();
    let mut events = vec![ev(&mut symbols, 12, 0, 10), ev(&mut symbols, 13, 20, 10)];
    let mut threads = build_threads_index(&events);
    assign_event_depths(&mut events, &mut threads);
    let data = build_thread_data(&mut events, threads, &mut symbols);
    let groups = build_thread_groups(&data);
    assert_eq!(group_label(&groups[0]), "Thread 12");
    let merged = build_merged_thread_groups(&events, &data);
    assert_eq!(merged.len(), 1);
    assert_eq!(group_label(&merged[0]), "Merged");
}

#[test]
fn load_limits_count_strings_and_events() {
    assert!(load_fits(&vec![raw(1, "k", "l", 0, 1)]));
    let mut with_data = raw(1, "k", "l", 0, 1);
    with_data.additional_data = vec![String::new(); 3];
    assert!(load_fits(&vec![with_data, raw(2, "k", "m", 0, 1)]));
    assert!(load_fits(&Vec::new()));
}
