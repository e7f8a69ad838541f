//! An open file tab: its load state and the thread groups it shows.
use crate::data::{FileData, FileUi, ThreadGroup};
use crate::data::FileTab as LoadedFile;
use vstd::prelude::*;

verus! {

/// Where the loading of a file stands.
pub enum FileLoadState {
    Loading,
    Ready(Box<LoadedFile>),
    Error(String),
}

/// A file opened in a tab.
pub struct FileTab {
    /// The identifier the tab was opened with; it ties a load result back to
    /// its tab.
    pub id: u64,
    pub path: String,
    pub load_state: FileLoadState,
}

/// The groups a loaded file shows: the merged ones when threads are merged,
/// else one per thread.
pub open spec fn shown_groups(file: LoadedFile) -> Seq<ThreadGroup> {
    if file.ui.merge_threads {
        file.data.merged_thread_groups@
    } else {
        file.data.timeline.thread_groups@
    }
}

/// The view state of a loaded tab (none for a tab that is not loaded).
pub open spec fn ready_ui(tab: FileTab) -> Option<FileUi> {
    match tab.load_state {
        FileLoadState::Ready(f) => Some(f.ui),
        _ => None,
    }
}

/// `new` is `old` with, if it is loaded, the view state `ui`.
pub open spec fn ui_changed(old: FileTab, new: FileTab, ui: FileUi) -> bool {
    &&& new.id == old.id
    &&& new.path == old.path
    &&& match old.load_state {
        FileLoadState::Ready(a) => new.load_state matches FileLoadState::Ready(b) && b.ui == ui && b.data
            == a.data && b.load_duration_ns == a.load_duration_ns,
        _ => new.load_state == old.load_state,
    }
}

/// The data of `b` is that of `a` but for the groups it shows, which are
/// `groups`.
pub open spec fn shown_groups_changed(a: FileData, b: FileData, merged: bool, groups: Seq<ThreadGroup>) -> bool {
    &&& b.event_count == a.event_count
    &&& b.cmd == a.cmd
    &&& b.pid == a.pid
    &&& b.timeline.min_ns == a.timeline.min_ns
    &&& b.timeline.max_ns == a.timeline.max_ns
    &&& b.events == a.events
    &&& b.kinds == a.kinds
    &&& b.symbols == a.symbols
    &&& if merged {
        &&& b.merged_thread_groups@ == groups
        &&& b.timeline.thread_groups == a.timeline.thread_groups
    } else {
        &&& b.timeline.thread_groups@ == groups
        &&& b.merged_thread_groups == a.merged_thread_groups
    }
}

/// `new` is `old` with, if it is loaded, the groups it shows replaced by
/// `groups`.
pub open spec fn groups_changed(old: FileTab, new: FileTab, groups: Seq<ThreadGroup>) -> bool {
    &&& new.id == old.id
    &&& new.path == old.path
    &&& match old.load_state {
        FileLoadState::Ready(a) => new.load_state matches FileLoadState::Ready(b) && b.ui == a.ui
            && b.load_duration_ns == a.load_duration_ns && shown_groups_changed(
            a.data,
            b.data,
            a.ui.merge_threads,
            groups,
        ),
        _ => new.load_state == old.load_state,
    }
}

/// `g` with another collapse state.
pub open spec fn with_collapsed(g: ThreadGroup, collapsed: bool) -> ThreadGroup {
    ThreadGroup { is_collapsed: collapsed, ..g }
}

impl FileTab {
    /// The loaded file, once the tab is loaded.
    pub fn stats(&self) -> (r: Option<&LoadedFile>)
        ensures
            match self.load_state {
                FileLoadState::Ready(f) => r == Some(&*f),
                _ => r is None,
            },
    {
        match &self.load_state {
            FileLoadState::Ready(stats) => Some(&**stats),
            _ => None,
        }
    }

    /// The groups the tab shows: none until it is loaded.
    pub fn thread_groups(&self) -> (r: &[ThreadGroup])
        ensures
            match self.load_state {
                FileLoadState::Ready(f) => r@ == shown_groups(*f),
                _ => r@.len() == 0,
            },
    {
        match &self.load_state {
            FileLoadState::Ready(stats) => {
                if stats.ui.merge_threads {
                    stats.data.merged_thread_groups.as_slice()
                } else {
                    stats.data.timeline.thread_groups.as_slice()
                }
            },
            _ => &[],
        }
    }

    /// Gives a loaded tab the view state `ui`.
    pub fn set_ui(self, ui: FileUi) -> (r: FileTab)
        ensures
            ui_changed(self, r, ui),
    {
        let FileTab { id, path, load_state } = self;
        let load_state = match load_state {
            FileLoadState::Ready(file) => {
                let LoadedFile { data, ui: _, load_duration_ns } = *file;
                FileLoadState::Ready(Box::new(LoadedFile { data, ui, load_duration_ns }))
            },
            other => other,
        };
        FileTab { id, path, load_state }
    }

    /// Collapses or expands every group a loaded tab shows.
    pub fn set_all_collapsed(self, collapsed: bool) -> (r: FileTab)
        ensures
            match self.load_state {
                FileLoadState::Ready(f) => groups_changed(
                    self,
                    r,
                    shown_groups(*f).map_values(|g: ThreadGroup| with_collapsed(g, collapsed)),
                ),
                _ => r == self,
            },
    {
        let FileTab { id, path, load_state } = self;
        let load_state = match load_state {
            FileLoadState::Ready(file) => {
                let LoadedFile { data, ui, load_duration_ns } = *file;
                let FileData {
                    event_count,
                    cmd,
                    pid,
                    timeline,
                    events,
                    merged_thread_groups,
                    kinds,
                    symbols,
                } = data;
                let crate::data::TimelineData { thread_groups, min_ns, max_ns } = timeline;
                let (thread_groups, merged_thread_groups) = if ui.merge_threads {
                    (thread_groups, all_collapsed(merged_thread_groups, collapsed))
                } else {
                    (all_collapsed(thread_groups, collapsed), merged_thread_groups)
                };
                let data = FileData {
                    event_count,
                    cmd,
                    pid,
                    timeline: crate::data::TimelineData { thread_groups, min_ns, max_ns },
                    events,
                    merged_thread_groups,
                    kinds,
                    symbols,
                };
                FileLoadState::Ready(Box::new(LoadedFile { data, ui, load_duration_ns }))
            },
            other => other,
        };
        FileTab { id, path, load_state }
    }

    /// Flips the collapse state of the group at `index` among those a loaded
    /// tab shows (no group is changed when there is none there).
    pub fn toggle_collapsed(self, index: usize) -> (r: FileTab)
        ensures
            match self.load_state {
                FileLoadState::Ready(f) => groups_changed(
                    self,
                    r,
                    if index < shown_groups(*f).len() {
                        shown_groups(*f).update(
                            index as int,
                            with_collapsed(shown_groups(*f)[index as int], !shown_groups(*f)[index as int].is_collapsed),
                        )
                    } else {
                        shown_groups(*f)
                    },
                ),
                _ => r == self,
            },
    {
        let FileTab { id, path, load_state } = self;
        let load_state = match load_state {
            FileLoadState::Ready(file) => {
                let LoadedFile { data, ui, load_duration_ns } = *file;
                let FileData {
                    event_count,
                    cmd,
                    pid,
                    timeline,
                    events,
                    merged_thread_groups,
                    kinds,
                    symbols,
                } = data;
                let crate::data::TimelineData { thread_groups, min_ns, max_ns } = timeline;
                let (thread_groups, merged_thread_groups) = if ui.merge_threads {
                    (thread_groups, toggled(merged_thread_groups, index))
                } else {
                    (toggled(thread_groups, index), merged_thread_groups)
                };
                let data = FileData {
                    event_count,
                    cmd,
                    pid,
                    timeline: crate::data::TimelineData { thread_groups, min_ns, max_ns },
                    events,
                    merged_thread_groups,
                    kinds,
                    symbols,
                };
                FileLoadState::Ready(Box::new(LoadedFile { data, ui, load_duration_ns }))
            },
            other => other,
        };
        FileTab { id, path, load_state }
    }
}

/// A copy of a group with another collapse state (sharing its threads).
fn collapsed_copy(g: &ThreadGroup, collapsed: bool) -> (r: ThreadGroup)
    ensures
        r == with_collapsed(*g, collapsed),
{
    ThreadGroup {
        threads: crate::grouping::arc_clone(&g.threads),
        max_depth: g.max_depth,
        is_collapsed: collapsed,
        show_thread_roots: g.show_thread_roots,
    }
}

/// Every group with the given collapse state.
fn all_collapsed(groups: Vec<ThreadGroup>, collapsed: bool) -> (r: Vec<ThreadGroup>)
    ensures
        r@ == groups@.map_values(|g: ThreadGroup| with_collapsed(g, collapsed)),
{
    let mut groups = groups;
    let ghost g0 = groups@;
    let mut i: usize = 0;
    while i < groups.len()
        invariant
            i <= groups@.len(),
            groups@.len() == g0.len(),
            forall|j: int| 0 <= j < i ==> groups@[j] == with_collapsed(g0[j], collapsed),
            forall|j: int| i <= j < groups@.len() ==> groups@[j] == g0[j],
        decreases g0.len() - i,
    {
        let g = collapsed_copy(&groups[i], collapsed);
        groups.set(i, g);
        i = i + 1;
    }
    assert(groups@ =~= g0.map_values(|g: ThreadGroup| with_collapsed(g, collapsed)));
    groups
}

/// The groups with the collapse state of the one at `index` flipped.
fn toggled(groups: Vec<ThreadGroup>, index: usize) -> (r: Vec<ThreadGroup>)
    ensures
        r@ == if index < groups@.len() {
            groups@.update(index as int, with_collapsed(groups@[index as int], !groups@[index as int].is_collapsed))
        } else {
            groups@
        },
{
    let mut groups = groups;
    if index < groups.len() {
        let g = collapsed_copy(&groups[index], !groups[index].is_collapsed);
        groups.set(index, g);
    }
    groups
}

} // verus!
