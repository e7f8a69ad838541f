use analyzeme::{EventPayload, ProfilingData, ProfilingDataBuilder, Timestamp};
use lineme::data::{ColorMode, EventId, FileTab as LoadedFile, FileUi, ViewType};
use lineme::file::FileLoadState;
use lineme::load::{build_file_data, RawEvent};
use lineme::profile::{load_fits, load_profiling_data, ProfileMetadata};
use lineme::settings::SettingsPage;
use lineme::workspace::{tab_label, Workspace};

fn raw(thread_id: u32, label: &str, start: u128, end: u128) -> RawEvent {
    RawEvent {
        thread_id,
        event_kind: "Query".to_string(),
        label: label.to_string(),
        additional_data: Vec::new(),
        interval: Some((start, end)),
        payload_integer: None,
    }
}

fn nanos(t: std::time::SystemTime) -> u128 {
    t.duration_since(std::time::UNIX_EPOCH).unwrap_or_default().as_nanos()
}

fn decode(data: &ProfilingData) -> (Vec<RawEvent>, ProfileMetadata) {
    let raw = data
        .iter_full()
        .map(|e| RawEvent {
            thread_id: e.thread_id,
            interval: match &e.payload {
                EventPayload::Timestamp(Timestamp::Interval { start, end }) => Some((nanos(*start), nanos(*end))),
                _ => None,
            },
            payload_integer: e.payload.integer(),
            event_kind: e.event_kind.into_owned(),
            label: e.label.into_owned(),
            additional_data: e.additional_data.into_iter().map(|s| s.into_owned()).collect(),
        })
        .collect();
    let m = data.metadata();
    let meta = ProfileMetadata { cmd: m.cmd.clone(), pid: m.process_id, start_time_ns: nanos(m.start_time) };
    (raw, meta)
}

fn loaded() -> LoadedFile {
    let events = vec![raw(1, "a", 0, 100), raw(2, "b", 10, 20), raw(3, "c", 200, 300)];
    let data = build_file_data(&events, "cmd".to_string(), 1, 0).expect("loads");
    LoadedFile { data, ui: FileUi::default(), load_duration_ns: None }
}

fn ready_ui(w: &Workspace, i: usize) -> FileUi {
    match &w.files[i].load_state {
        FileLoadState::Ready(f) => f.ui,
        _ => panic!("tab {} is not loaded", i),
    }
}

#[test]
fn opening_files_puts_each_in_front_while_loading() {
    let mut w = Workspace::new();
    w.toggle_settings();
    let a = w.start_loading_file("a.mm_profdata".to_string());
    let b = w.start_loading_file("b.mm_profdata".to_string());
    assert_eq!((a, b), (0, 1));
    assert_eq!(w.files.len(), 2);
    assert_eq!(w.active_tab, 1);
    assert!(!w.show_settings);
    assert!(matches!(w.files[0].load_state, FileLoadState::Loading));
    assert_eq!(w.files[1].path, "b.mm_profdata");
    assert_eq!(w.next_file_id, 2);
}

#[test]
fn file_ids_wrap_around() {
    let mut w = Workspace::new();
    w.next_file_id = u64::MAX;
    assert_eq!(w.start_loading_file("x".to_string()), u64::MAX);
    assert_eq!(w.next_file_id, 0);
}

#[test]
fn load_results_reach_the_tab_that_asked_for_them() {
    let mut w = Workspace::new();
    w.start_loading_file("a".to_string());
    w.start_loading_file("b".to_string());
    w.file_loaded(1, loaded(), 55);
    w.file_load_failed(0, "bad file".to_string());
    // Results for tabs that are gone are dropped.
    w.file_loaded(9, loaded(), 1);
    match &w.files[1].load_state {
        FileLoadState::Ready(f) => assert_eq!(f.load_duration_ns, Some(55)),
        _ => panic!("tab 1 should be loaded"),
    }
    match &w.files[0].load_state {
        FileLoadState::Error(e) => assert_eq!(e, "bad file"),
        _ => panic!("tab 0 should have failed"),
    }
    assert_eq!(w.files.len(), 2);
    assert!(w.files[1].stats().is_some());
    assert!(w.files[0].stats().is_none());
    assert!(w.files[0].thread_groups().is_empty());
}

#[test]
fn closing_the_last_tab_moves_the_front_back() {
    let mut w = Workspace::new();
    for name in ["a", "b", "c"] {
        w.start_loading_file(name.to_string());
    }
    assert_eq!(w.active_tab, 2);
    w.close_tab(2);
    assert_eq!(w.files.len(), 2);
    assert_eq!(w.active_tab, 1);
    w.close_tab(7);
    assert_eq!(w.files.len(), 2);
    w.select_tab(0);
    w.close_tab(1);
    assert_eq!(w.active_tab, 0);
    assert_eq!(w.files[0].path, "a");
    w.close_tab(0);
    assert!(w.files.is_empty());
    assert_eq!(w.active_tab, 0);
}

#[test]
fn selecting_a_tab_forgets_the_hovered_event() {
    let mut w = Workspace::new();
    w.start_loading_file("a".to_string());
    w.file_loaded(0, loaded(), 1);
    w.hover_event(Some(EventId(2)));
    assert_eq!(ready_ui(&w, 0).hovered_event, Some(EventId(2)));
    w.toggle_settings();
    w.select_tab(0);
    assert_eq!(ready_ui(&w, 0).hovered_event, None);
    assert!(!w.show_settings);
}

#[test]
fn view_choices_apply_to_the_loaded_tab_in_front() {
    let mut w = Workspace::new();
    w.start_loading_file("a".to_string());
    w.file_loaded(0, loaded(), 1);
    w.start_loading_file("b".to_string());
    // The tab in front is still loading: nothing to change.
    w.select_event(EventId(1));
    w.set_color_mode(ColorMode::Event);
    assert!(matches!(w.files[1].load_state, FileLoadState::Loading));
    w.select_tab(0);
    w.select_event(EventId(1));
    w.set_color_mode(ColorMode::Event);
    w.set_view_type(ViewType::Stats);
    let ui = ready_ui(&w, 0);
    assert_eq!(ui.selected_event, Some(EventId(1)));
    assert_eq!(ui.color_mode, ColorMode::Event);
    assert_eq!(ui.view_type, ViewType::Stats);
    assert!(ui.merge_threads);
}

#[test]
fn collapsing_applies_to_the_groups_shown() {
    let mut w = Workspace::new();
    w.start_loading_file("a".to_string());
    w.file_loaded(0, loaded(), 1);
    let merged = w.files[0].thread_groups().len();
    assert_eq!(merged, 2);
    w.set_all_collapsed(true);
    assert!(w.files[0].thread_groups().iter().all(|g| g.is_collapsed));
    w.toggle_group_collapsed(1);
    let states: Vec<bool> = w.files[0].thread_groups().iter().map(|g| g.is_collapsed).collect();
    assert_eq!(states, vec![true, false]);
    w.toggle_group_collapsed(5);
    // The per-thread groups were left alone.
    w.set_merge_threads(false);
    assert_eq!(w.files[0].thread_groups().len(), 3);
    assert!(w.files[0].thread_groups().iter().all(|g| !g.is_collapsed));
    w.set_all_collapsed(true);
    assert!(w.files[0].thread_groups().iter().all(|g| g.is_collapsed));
    w.set_merge_threads(true);
    let states: Vec<bool> = w.files[0].thread_groups().iter().map(|g| g.is_collapsed).collect();
    assert_eq!(states, vec![true, false]);
}

#[test]
fn registration_outcome_is_shown_on_the_settings_page() {
    let mut w = Workspace::new();
    assert_eq!(w.settings.last_action_message(), None);
    w.registration_finished(Ok(()));
    assert!(w.show_settings);
    assert_eq!(w.settings.last_action_message(), Some("Registered .mm_profdata for current user"));
    w.toggle_settings();
    assert!(!w.show_settings);
    w.registration_finished(Err("no registry".to_string()));
    assert!(w.show_settings);
    assert_eq!(w.settings.last_action_message(), Some("Registration failed: no registry"));
}

#[test]
fn settings_page_message() {
    let mut page = SettingsPage::new();
    assert_eq!(page.last_action_message(), None);
    page.set_last_action_message(Some("done".to_string()));
    assert_eq!(page.last_action_message(), Some("done"));
    page.set_last_action_message(None);
    assert_eq!(page.last_action_message(), None);
}

#[test]
fn tab_labels_mark_loading_and_failure() {
    assert_eq!(tab_label("a.mm_profdata", &FileLoadState::Loading), "a.mm_profdata (loading...)");
    assert_eq!(tab_label("a", &FileLoadState::Error("x".to_string())), "a (error)");
    assert_eq!(tab_label("a", &FileLoadState::Ready(Box::new(loaded()))), "a");
}

#[test]
fn profiles_from_analyzeme_load() {
    let mut b = ProfilingDataBuilder::new();
    b.interval("Query", "outer", 4, 100, 500, |b| {
        b.interval("Generic", "inner", 4, 200, 300, |_| {});
    });
    b.instant("Instant", "mark", 4, 250);
    b.interval("Query", "other", 9, 600, 700, |_| {});
    let data = b.into_profiling_data();
    let (raw, meta) = decode(&data);
    assert!(load_fits(&raw));
    let tab = match load_profiling_data(&raw, meta) {
        Ok(tab) => tab,
        Err(e) => panic!("load failed: {}", e),
    };
    assert_eq!(tab.load_duration_ns, None);
    assert_eq!(tab.ui, FileUi::default());
    let d = &tab.data;
    assert_eq!(d.cmd, "test cmd");
    assert_eq!(d.pid, 0);
    assert_eq!(d.event_count, 4);
    // Three interval events and one root per thread.
    assert_eq!(d.events.len(), 5);
    assert_eq!(d.timeline.max_ns, 700);
    let labels: Vec<&str> = d.events.iter().map(|e| d.symbols.resolve(e.label)).collect();
    assert_eq!(labels, vec!["inner", "outer", "other", "Thread 4", "Thread 9"]);
    assert_eq!(d.events[0].depth, 1);
    assert_eq!(d.events[1].depth, 0);
    assert_eq!(d.events[0].start_ns, 200);
    assert_eq!(d.events[0].duration_ns, 100);
    let kinds: Vec<&str> = d.kinds.iter().map(|k| d.symbols.resolve(k.kind)).collect();
    assert_eq!(kinds, vec!["Generic", "Query"]);
}
