//! The open files and the choices made among them: the decisions the viewer
//! takes on each user action and each load result.
use crate::data::FileTab as LoadedFile;
use crate::data::{ColorMode, EventId, FileUi, ViewType};
use crate::file::{groups_changed, ready_ui, shown_groups, ui_changed, with_collapsed, FileLoadState, FileTab};
use crate::settings::SettingsPage;
use vstd::prelude::*;
use vstd::string::StringExecFns;

verus! {

/// The open files, which one is in front, and the settings page.
pub struct Workspace {
    /// The tab in front (it may point past the last tab, which then shows
    /// nothing).
    pub active_tab: usize,
    pub files: Vec<FileTab>,
    pub show_settings: bool,
    pub settings: SettingsPage,
    /// The identifier the next opened file gets.
    pub next_file_id: u64,
}

/// `ui` with no event under the pointer.
pub open spec fn unhovered(ui: FileUi) -> FileUi {
    FileUi { hovered_event: None, ..ui }
}

/// `new` is `old` with the view state of the tab at `active`, if that tab is
/// loaded, given by `f`.
pub open spec fn active_ui_changed(
    old: Seq<FileTab>,
    new: Seq<FileTab>,
    active: int,
    f: spec_fn(FileUi) -> FileUi,
) -> bool {
    &&& new.len() == old.len()
    &&& forall|j: int| 0 <= j < old.len() && j != active ==> new[j] == old[j]
    &&& 0 <= active < old.len() ==> match ready_ui(old[active]) {
        Some(ui) => ui_changed(old[active], new[active], f(ui)),
        None => new[active] == old[active],
    }
}

/// The position of the first tab opened with `id` (the number of tabs when
/// there is none).
pub open spec fn position_of_id(files: Seq<FileTab>, id: u64) -> nat
    decreases files.len(),
{
    if files.len() == 0 {
        0
    } else if files[0].id == id {
        0
    } else {
        1 + position_of_id(files.drop_first(), id)
    }
}

/// `u64` addition that wraps around.
pub open spec fn wrapping_inc(n: u64) -> u64 {
    if n == u64::MAX {
        0
    } else {
        (n + 1) as u64
    }
}

/// The message shown after registering the file extension.
pub open spec fn registration_text(result: Result<(), String>) -> Seq<char> {
    match result {
        Ok(()) => "Registered .mm_profdata for current user"@,
        Err(e) => "Registration failed: "@ + e@,
    }
}

/// The label of a tab showing the file `name`.
pub open spec fn tab_label_text(name: Seq<char>, state: FileLoadState) -> Seq<char> {
    match state {
        FileLoadState::Loading => name + " (loading...)"@,
        FileLoadState::Error(_) => name + " (error)"@,
        FileLoadState::Ready(_) => name,
    }
}

/// The label of a tab showing the file `name`: the name, marked while the
/// file loads or when it failed to.
pub fn tab_label(name: &str, state: &FileLoadState) -> (s: String)
    ensures
        s@ == tab_label_text(name@, *state),
{
    let mut s = name.to_owned();
    match state {
        FileLoadState::Loading => {
            proof {
                reveal_strlit(" (loading...)");
            }
            s.append(" (loading...)");
        },
        FileLoadState::Error(_) => {
            proof {
                reveal_strlit(" (error)");
            }
            s.append(" (error)");
        },
        FileLoadState::Ready(_) => {},
    }
    s
}

proof fn lemma_position_of_id(files: Seq<FileTab>, id: u64, p: nat)
    requires
        p <= files.len(),
        forall|j: int| 0 <= j < p ==> (#[trigger] files[j]).id != id,
        p < files.len() ==> files[p as int].id == id,
    ensures
        position_of_id(files, id) == p,
    decreases p,
{
    if p > 0 {
        let rest = files.drop_first();
        assert forall|j: int| 0 <= j < p - 1 implies (#[trigger] rest[j]).id != id by {
            assert(rest[j] == files[j + 1]);
        }
        lemma_position_of_id(rest, id, (p - 1) as nat);
    }
}

impl Workspace {
    /// No file open, the settings page hidden.
    pub fn new() -> (w: Self)
        ensures
            w.active_tab == 0,
            w.files@.len() == 0,
            !w.show_settings,
            w.settings.message() is None,
            w.next_file_id == 0,
    {
        Workspace {
            active_tab: 0,
            files: Vec::new(),
            show_settings: false,
            settings: SettingsPage::new(),
            next_file_id: 0,
        }
    }

    /// The position of the first tab opened with `id` (the number of tabs
    /// when there is none).
    fn find_tab(&self, id: u64) -> (p: usize)
        ensures
            p == position_of_id(self.files@, id),
            p <= self.files@.len(),
    {
        let mut p: usize = 0;
        while p < self.files.len() && self.files[p].id != id
            invariant
                p <= self.files@.len(),
                forall|j: int| 0 <= j < p ==> (#[trigger] self.files@[j]).id != id,
            decreases self.files@.len() - p,
        {
            p = p + 1;
        }
        proof {
            lemma_position_of_id(self.files@, id, p as nat);
        }
        p
    }

    /// Gives the tab in front, if it is loaded, the view state `ui`.
    fn set_active_ui(&mut self, ui: FileUi)
        ensures
            final(self).active_tab == old(self).active_tab,
            final(self).show_settings == old(self).show_settings,
            final(self).settings == old(self).settings,
            final(self).next_file_id == old(self).next_file_id,
            final(self).files@.len() == old(self).files@.len(),
            forall|j: int|
                0 <= j < old(self).files@.len() && j != old(self).active_tab ==> final(self).files@[j]
                    == old(self).files@[j],
            old(self).active_tab < old(self).files@.len() ==> ui_changed(
                old(self).files@[old(self).active_tab as int],
                final(self).files@[old(self).active_tab as int],
                ui,
            ),
    {
        let i = self.active_tab;
        if i < self.files.len() {
            let tab = self.files.remove(i);
            let tab = tab.set_ui(ui);
            self.files.insert(i, tab);
        }
    }

    /// The view state of the tab in front, if it is loaded.
    fn active_ui(&self) -> (r: Option<FileUi>)
        ensures
            r == (if self.active_tab < self.files@.len() {
                ready_ui(self.files@[self.active_tab as int])
            } else {
                None
            }),
    {
        if self.active_tab < self.files.len() {
            match &self.files[self.active_tab].load_state {
                FileLoadState::Ready(f) => Some(f.ui),
                _ => None,
            }
        } else {
            None
        }
    }

    /// Applies `f` to the view state of the tab in front, if it is loaded.
    fn update_active_ui(&mut self, Ghost(f): Ghost<spec_fn(FileUi) -> FileUi>, new_ui: Option<FileUi>)
        requires
            match (if old(self).active_tab < old(self).files@.len() {
                ready_ui(old(self).files@[old(self).active_tab as int])
            } else {
                None
            }) {
                Some(ui) => new_ui == Some(f(ui)),
                None => new_ui is None,
            },
        ensures
            final(self).active_tab == old(self).active_tab,
            final(self).show_settings == old(self).show_settings,
            final(self).settings == old(self).settings,
            final(self).next_file_id == old(self).next_file_id,
            active_ui_changed(old(self).files@, final(self).files@, old(self).active_tab as int, f),
    {
        match new_ui {
            Some(ui) => self.set_active_ui(ui),
            None => {},
        }
    }

    /// Opens a tab for the file at `path`, in front, loading; returns the
    /// identifier that its load result will carry.
    pub fn start_loading_file(&mut self, path: String) -> (id: u64)
        requires
            old(self).files@.len() < usize::MAX,
        ensures
            id == old(self).next_file_id,
            final(self).next_file_id == wrapping_inc(old(self).next_file_id),
            final(self).files@ == old(self).files@.push(FileTab { id, path, load_state: FileLoadState::Loading }),
            final(self).active_tab == old(self).files@.len(),
            !final(self).show_settings,
            final(self).settings == old(self).settings,
            ids_fresh(old(self).files@, old(self).next_file_id) && old(self).next_file_id < u64::MAX ==> ids_fresh(
                final(self).files@,
                final(self).next_file_id,
            ) && position_of_id(final(self).files@, id) == old(self).files@.len(),
    {
        proof {
            if ids_fresh(self.files@, self.next_file_id) && self.next_file_id < u64::MAX {
                law_new_tab_gets_its_load_result(self.files@, self.next_file_id, path);
            }
        }
        let id = self.next_file_id;
        self.next_file_id = self.next_file_id.wrapping_add(1);
        self.files.push(FileTab { id, path, load_state: FileLoadState::Loading });
        self.active_tab = self.files.len() - 1;
        self.show_settings = false;
        id
    }

    /// Brings the tab at `index` to the front, hides the settings page and
    /// forgets which event was under the pointer in that tab.
    pub fn select_tab(&mut self, index: usize)
        ensures
            final(self).active_tab == index,
            !final(self).show_settings,
            final(self).settings == old(self).settings,
            final(self).next_file_id == old(self).next_file_id,
            active_ui_changed(old(self).files@, final(self).files@, index as int, |ui: FileUi| unhovered(ui)),
    {
        self.active_tab = index;
        self.show_settings = false;
        let ui = self.active_ui();
        let new_ui = match ui {
            Some(ui) => Some(FileUi { hovered_event: None, ..ui }),
            None => None,
        };
        self.update_active_ui(Ghost(|ui: FileUi| unhovered(ui)), new_ui);
    }

    /// Stores a loaded file, with how long it took to load, in the first tab
    /// opened with `id` (if that tab is still open).
    pub fn file_loaded(&mut self, id: u64, file: LoadedFile, duration_ns: u64)
        ensures
            ({
                let p = position_of_id(old(self).files@, id);
                final(self).files@ == if p < old(self).files@.len() {
                    old(self).files@.update(
                        p as int,
                        FileTab {
                            id: old(self).files@[p as int].id,
                            path: old(self).files@[p as int].path,
                            load_state: FileLoadState::Ready(
                                Box::new(LoadedFile { load_duration_ns: Some(duration_ns), ..file }),
                            ),
                        },
                    )
                } else {
                    old(self).files@
                }
            }),
            final(self).active_tab == old(self).active_tab,
            final(self).show_settings == old(self).show_settings,
            final(self).settings == old(self).settings,
            final(self).next_file_id == old(self).next_file_id,
            ids_fresh(old(self).files@, old(self).next_file_id) ==> ids_fresh(final(self).files@, final(self).next_file_id),
    {
        let p = self.find_tab(id);
        if p < self.files.len() {
            let tab = self.files.remove(p);
            let FileTab { id, path, load_state: _ } = tab;
            let LoadedFile { data, ui, load_duration_ns: _ } = file;
            let ready = LoadedFile { data, ui, load_duration_ns: Some(duration_ns) };
            self.files.insert(p, FileTab { id, path, load_state: FileLoadState::Ready(Box::new(ready)) });
        }
    }

    /// Marks the first tab opened with `id` (if that tab is still open) as
    /// failed to load, with the reason.
    pub fn file_load_failed(&mut self, id: u64, error: String)
        ensures
            ({
                let p = position_of_id(old(self).files@, id);
                final(self).files@ == if p < old(self).files@.len() {
                    old(self).files@.update(
                        p as int,
                        FileTab {
                            id: old(self).files@[p as int].id,
                            path: old(self).files@[p as int].path,
                            load_state: FileLoadState::Error(error),
                        },
                    )
                } else {
                    old(self).files@
                }
            }),
            final(self).active_tab == old(self).active_tab,
            final(self).show_settings == old(self).show_settings,
            final(self).settings == old(self).settings,
            final(self).next_file_id == old(self).next_file_id,
            ids_fresh(old(self).files@, old(self).next_file_id) ==> ids_fresh(final(self).files@, final(self).next_file_id),
    {
        let p = self.find_tab(id);
        if p < self.files.len() {
            let tab = self.files.remove(p);
            let FileTab { id, path, load_state: _ } = tab;
            self.files.insert(p, FileTab { id, path, load_state: FileLoadState::Error(error) });
        }
    }

    /// Shows `view` in the tab in front, if it is loaded.
    pub fn set_view_type(&mut self, view: ViewType)
        ensures
            final(self).active_tab == old(self).active_tab,
            final(self).show_settings == old(self).show_settings,
            final(self).settings == old(self).settings,
            final(self).next_file_id == old(self).next_file_id,
            active_ui_changed(
                old(self).files@,
                final(self).files@,
                old(self).active_tab as int,
                |ui: FileUi| FileUi { view_type: view, ..ui },
            ),
    {
        let new_ui = match self.active_ui() {
            Some(ui) => Some(FileUi { view_type: view, ..ui }),
            None => None,
        };
        self.update_active_ui(Ghost(|ui: FileUi| FileUi { view_type: view, ..ui }), new_ui);
    }

    /// Colors the tab in front by `mode`, if it is loaded.
    pub fn set_color_mode(&mut self, mode: ColorMode)
        ensures
            final(self).active_tab == old(self).active_tab,
            final(self).show_settings == old(self).show_settings,
            final(self).settings == old(self).settings,
            final(self).next_file_id == old(self).next_file_id,
            active_ui_changed(
                old(self).files@,
                final(self).files@,
                old(self).active_tab as int,
                |ui: FileUi| FileUi { color_mode: mode, ..ui },
            ),
    {
        let new_ui = match self.active_ui() {
            Some(ui) => Some(FileUi { color_mode: mode, ..ui }),
            None => None,
        };
        self.update_active_ui(Ghost(|ui: FileUi| FileUi { color_mode: mode, ..ui }), new_ui);
    }

    /// Selects `event` in the tab in front, if it is loaded.
    pub fn select_event(&mut self, event: EventId)
        ensures
            final(self).active_tab == old(self).active_tab,
            final(self).show_settings == old(self).show_settings,
            final(self).settings == old(self).settings,
            final(self).next_file_id == old(self).next_file_id,
            active_ui_changed(
                old(self).files@,
                final(self).files@,
                old(self).active_tab as int,
                |ui: FileUi| FileUi { selected_event: Some(event), ..ui },
            ),
    {
        let new_ui = match self.active_ui() {
            Some(ui) => Some(FileUi { selected_event: Some(event), ..ui }),
            None => None,
        };
        self.update_active_ui(Ghost(|ui: FileUi| FileUi { selected_event: Some(event), ..ui }), new_ui);
    }

    /// Records which event is under the pointer in the tab in front, if it
    /// is loaded.
    pub fn hover_event(&mut self, event: Option<EventId>)
        ensures
            final(self).active_tab == old(self).active_tab,
            final(self).show_settings == old(self).show_settings,
            final(self).settings == old(self).settings,
            final(self).next_file_id == old(self).next_file_id,
            active_ui_changed(
                old(self).files@,
                final(self).files@,
                old(self).active_tab as int,
                |ui: FileUi| FileUi { hovered_event: event, ..ui },
            ),
    {
        let new_ui = match self.active_ui() {
            Some(ui) => Some(FileUi { hovered_event: event, ..ui }),
            None => None,
        };
        self.update_active_ui(Ghost(|ui: FileUi| FileUi { hovered_event: event, ..ui }), new_ui);
    }

    /// Shows the tab in front with its threads merged or one per group, if
    /// it is loaded.
    pub fn set_merge_threads(&mut self, enabled: bool)
        ensures
            final(self).active_tab == old(self).active_tab,
            final(self).show_settings == old(self).show_settings,
            final(self).settings == old(self).settings,
            final(self).next_file_id == old(self).next_file_id,
            active_ui_changed(
                old(self).files@,
                final(self).files@,
                old(self).active_tab as int,
                |ui: FileUi| FileUi { merge_threads: enabled, ..ui },
            ),
    {
        let new_ui = match self.active_ui() {
            Some(ui) => Some(FileUi { merge_threads: enabled, ..ui }),
            None => None,
        };
        self.update_active_ui(Ghost(|ui: FileUi| FileUi { merge_threads: enabled, ..ui }), new_ui);
    }

    /// Closes the tab at `index` (if there is one), keeps a tab in front
    /// while any is open, and forgets which event was under the pointer in
    /// the tab now in front.
    pub fn close_tab(&mut self, index: usize)
        ensures
            ({
                let files = if index < old(self).files@.len() {
                    old(self).files@.remove(index as int)
                } else {
                    old(self).files@
                };
                let active = if index < old(self).files@.len() && old(self).active_tab >= files.len() && files.len()
                    > 0 {
                    (files.len() - 1) as usize
                } else {
                    old(self).active_tab
                };
                &&& final(self).active_tab == active
                &&& active_ui_changed(files, final(self).files@, active as int, |ui: FileUi| unhovered(ui))
            }),
            final(self).show_settings == old(self).show_settings,
            final(self).settings == old(self).settings,
            final(self).next_file_id == old(self).next_file_id,
            ids_fresh(old(self).files@, old(self).next_file_id) ==> ids_fresh(final(self).files@, final(self).next_file_id),
    {
        proof {
            if ids_fresh(self.files@, self.next_file_id) && index < self.files@.len() {
                law_closing_keeps_ids_fresh(self.files@, self.next_file_id, index as int);
            }
        }
        if index < self.files.len() {
            self.files.remove(index);
            if self.active_tab >= self.files.len() && self.files.len() > 0 {
                self.active_tab = self.files.len() - 1;
            }
        }
        let new_ui = match self.active_ui() {
            Some(ui) => Some(FileUi { hovered_event: None, ..ui }),
            None => None,
        };
        self.update_active_ui(Ghost(|ui: FileUi| unhovered(ui)), new_ui);
    }

    /// Shows the settings page, or hides it.
    pub fn toggle_settings(&mut self)
        ensures
            final(self).show_settings == !old(self).show_settings,
            final(self).active_tab == old(self).active_tab,
            final(self).files == old(self).files,
            final(self).settings == old(self).settings,
            final(self).next_file_id == old(self).next_file_id,
    {
        self.show_settings = !self.show_settings;
    }

    /// Reports the outcome of registering the file extension on the
    /// settings page, and shows that page.
    pub fn registration_finished(&mut self, result: Result<(), String>)
        ensures
            final(self).settings.message() == Some(registration_text(result)),
            final(self).show_settings,
            final(self).active_tab == old(self).active_tab,
            final(self).files == old(self).files,
            final(self).next_file_id == old(self).next_file_id,
    {
        let msg = match result {
            Ok(()) => {
                proof {
                    reveal_strlit("Registered .mm_profdata for current user");
                }
                String::from_str("Registered .mm_profdata for current user")
            },
            Err(e) => {
                let mut m = String::from_str("Registration failed: ");
                proof {
                    reveal_strlit("Registration failed: ");
                }
                m.append(e.as_str());
                m
            },
        };
        self.settings.set_last_action_message(Some(msg));
        self.show_settings = true;
    }

    /// Flips the collapse state of the group at `index` among those the tab
    /// in front shows, if it is loaded.
    pub fn toggle_group_collapsed(&mut self, index: usize)
        ensures
            final(self).active_tab == old(self).active_tab,
            final(self).show_settings == old(self).show_settings,
            final(self).settings == old(self).settings,
            final(self).next_file_id == old(self).next_file_id,
            final(self).files@.len() == old(self).files@.len(),
            forall|j: int|
                0 <= j < old(self).files@.len() && j != old(self).active_tab ==> final(self).files@[j]
                    == old(self).files@[j],
            old(self).active_tab < old(self).files@.len() ==> {
                let tab = old(self).files@[old(self).active_tab as int];
                match tab.load_state {
                    FileLoadState::Ready(f) => groups_changed(
                        tab,
                        final(self).files@[old(self).active_tab as int],
                        if index < shown_groups(*f).len() {
                            shown_groups(*f).update(
                                index as int,
                                with_collapsed(
                                    shown_groups(*f)[index as int],
                                    !shown_groups(*f)[index as int].is_collapsed,
                                ),
                            )
                        } else {
                            shown_groups(*f)
                        },
                    ),
                    _ => final(self).files@[old(self).active_tab as int] == tab,
                }
            },
    {
        let i = self.active_tab;
        if i < self.files.len() {
            let tab = self.files.remove(i);
            let tab = tab.toggle_collapsed(index);
            self.files.insert(i, tab);
        }
    }

    /// Collapses or expands every group the tab in front shows, if it is
    /// loaded.
    pub fn set_all_collapsed(&mut self, collapsed: bool)
        ensures
            final(self).active_tab == old(self).active_tab,
            final(self).show_settings == old(self).show_settings,
            final(self).settings == old(self).settings,
            final(self).next_file_id == old(self).next_file_id,
            final(self).files@.len() == old(self).files@.len(),
            forall|j: int|
                0 <= j < old(self).files@.len() && j != old(self).active_tab ==> final(self).files@[j]
                    == old(self).files@[j],
            old(self).active_tab < old(self).files@.len() ==> {
                let tab = old(self).files@[old(self).active_tab as int];
                match tab.load_state {
                    FileLoadState::Ready(f) => groups_changed(
                        tab,
                        final(self).files@[old(self).active_tab as int],
                        shown_groups(*f).map_values(|g: crate::data::ThreadGroup| with_collapsed(g, collapsed)),
                    ),
                    _ => final(self).files@[old(self).active_tab as int] == tab,
                }
            },
    {
        let i = self.active_tab;
        if i < self.files.len() {
            let tab = self.files.remove(i);
            let tab = tab.set_all_collapsed(collapsed);
            self.files.insert(i, tab);
        }
    }
}

/// The open tabs have distinct ids, all below the id the next tab gets.
pub open spec fn ids_fresh(files: Seq<FileTab>, next_id: u64) -> bool {
    &&& forall|k: int| 0 <= k < files.len() ==> (#[trigger] files[k]).id < next_id
    &&& forall|k: int, j: int| 0 <= k < j < files.len() ==> (#[trigger] files[k]).id != (#[trigger] files[j]).id
}

/// Opening a tab keeps ids fresh (until the counter would wrap), and the id
/// it gets finds it: the result of its load reaches it.
pub proof fn law_new_tab_gets_its_load_result(files: Seq<FileTab>, next_id: u64, path: String)
    requires
        ids_fresh(files, next_id),
        next_id < u64::MAX,
    ensures
        ({
            let opened = files.push(FileTab { id: next_id, path, load_state: FileLoadState::Loading });
            &&& ids_fresh(opened, wrapping_inc(next_id))
            &&& position_of_id(opened, next_id) == files.len()
        }),
{
    let opened = files.push(FileTab { id: next_id, path, load_state: FileLoadState::Loading });
    assert forall|k: int| 0 <= k < files.len() implies (#[trigger] opened[k]).id != next_id by {
        assert(opened[k] == files[k]);
    }
    lemma_position_of_id(opened, next_id, files.len());
    assert forall|k: int, j: int| 0 <= k < j < opened.len() implies (#[trigger] opened[k]).id != (
    #[trigger] opened[j]).id by {
        assert(opened[k] == files[k]);
        if j < files.len() {
            assert(opened[j] == files[j]);
        }
    }
}

/// Closing a tab keeps ids fresh, so every other tab's load result still
/// reaches it.
pub proof fn law_closing_keeps_ids_fresh(files: Seq<FileTab>, next_id: u64, index: int)
    requires
        ids_fresh(files, next_id),
        0 <= index < files.len(),
    ensures
        ids_fresh(files.remove(index), next_id),
{
    let rest = files.remove(index);
    assert forall|k: int, j: int| 0 <= k < j < rest.len() implies (#[trigger] rest[k]).id != (#[trigger] rest[j]).id by {
        let a = if k < index { k } else { k + 1 };
        let b = if j < index { j } else { j + 1 };
        assert(rest[k] == files[a]);
        assert(rest[j] == files[b]);
    }
    assert forall|k: int| 0 <= k < rest.len() implies (#[trigger] rest[k]).id < next_id by {
        let a = if k < index { k } else { k + 1 };
        assert(rest[k] == files[a]);
    }
}

} // verus!
