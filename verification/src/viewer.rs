//! The viewer's application state and menu logic.
//!
//! The state of the flame-graph viewer — the loaded event log, per-thread
//! fold flags, the current file and a pending error message — and every
//! decision the menu makes. The surrounding program runs the event loop: it
//! shows dialogs, reads and writes files, and feeds the outcomes back in
//! through the methods here.

use vstd::prelude::*;

verus! {

use std::collections::HashMap;
use crate::event::Events;

/// What the user picked from the menu.
pub enum MenuAction {
    NoOp,
    NewFile,
    OpenFile,
    SaveFile,
    SaveFileAs,
    Exit,
    ExpandAll,
    CollapseAll,
}

/// What the surrounding program must do after a menu action is handled.
pub enum MenuDirective {
    /// Nothing left to do.
    Nothing,
    /// Show an open-file dialog, then load the chosen file.
    PickOpenFile,
    /// Save to the given path.
    SaveTo(String),
    /// Show a save-file dialog, then save to the chosen path.
    PickSaveFile,
    /// Close the application.
    CloseApp,
}

/// Whether `k` is the fold-map key of some thread id in `dom`.
pub open spec fn is_thread_key(dom: Set<u64>, k: usize) -> bool {
    exists|id: u64| #[trigger] dom.contains(id) && k == (id as usize)
}

spec fn is_prefix_key(ids: Seq<u64>, i: int, k: usize) -> bool {
    exists|j: int| 0 <= j < i && k == ((#[trigger] ids[j]) as usize)
}

/// The fold flag for key `k` is the same in `after` as in `before`.
pub open spec fn fold_key_unchanged(before: Map<usize, bool>, after: Map<usize, bool>, k: usize) -> bool {
    after.contains_key(k) == before.contains_key(k) && (before.contains_key(k) ==> after[k]
        == before[k])
}

/// Fold flags for keys of no thread in `dom` are carried over unchanged from
/// `before` to `after`.
pub open spec fn folds_unchanged_outside(
    dom: Set<u64>,
    before: Map<usize, bool>,
    after: Map<usize, bool>,
) -> bool {
    forall|k: usize| !is_thread_key(dom, k) ==> #[trigger] fold_key_unchanged(before, after, k)
}

/// The viewer's whole state.
pub struct FlameGraphApp {
    pub events: Events,
    pub folded_processes: HashMap<usize, bool>,
    pub current_file: Option<String>,
    pub show_error_dialog: Option<String>,
}

impl FlameGraphApp {
    /// A viewer showing the given log, with nothing folded, no file and no
    /// error.
    pub fn new(events: Events) -> (app: Self)
        ensures
            app.events == events,
            app.folded_processes@ == Map::<usize, bool>::empty(),
            app.current_file is None,
            app.show_error_dialog is None,
    {
        broadcast use vstd::std_specs::hash::group_hash_axioms;

        FlameGraphApp {
            events,
            folded_processes: HashMap::new(),
            current_file: None,
            show_error_dialog: None,
        }
    }

    /// Drop all data: no threads, no fold flags, no current file.
    pub fn clear_data(&mut self)
        ensures
            final(self).events.threads@ == Map::<u64, crate::event::Thread>::empty(),
            final(self).events.start_time == old(self).events.start_time,
            final(self).events.total_duration == old(self).events.total_duration,
            final(self).folded_processes@ == Map::<usize, bool>::empty(),
            final(self).current_file is None,
            final(self).show_error_dialog == old(self).show_error_dialog,
    {
        broadcast use vstd::std_specs::hash::group_hash_axioms;

        self.events.clear();
        self.folded_processes.clear();
        self.current_file = None;
    }

    /// Replace the log with one freshly loaded from `path`: fold flags are
    /// reset and the path becomes the current file.
    pub fn set_loaded(&mut self, events: Events, path: String)
        ensures
            final(self).events == events,
            final(self).folded_processes@ == Map::<usize, bool>::empty(),
            final(self).current_file matches Some(p) && p@ == path@,
            final(self).show_error_dialog == old(self).show_error_dialog,
    {
        broadcast use vstd::std_specs::hash::group_hash_axioms;

        self.events = events;
        self.folded_processes.clear();
        self.current_file = Some(path);
    }

    /// Record that the log was saved to `path`: the path becomes the current
    /// file and nothing else changes.
    pub fn saved_to(&mut self, path: String)
        ensures
            final(self).events == old(self).events,
            final(self).folded_processes == old(self).folded_processes,
            final(self).current_file matches Some(p) && p@ == path@,
            final(self).show_error_dialog == old(self).show_error_dialog,
    {
        self.current_file = Some(path);
    }

    /// Report a failure to the user; only the error dialog changes.
    pub fn set_error(&mut self, message: String)
        ensures
            final(self).events == old(self).events,
            final(self).folded_processes == old(self).folded_processes,
            final(self).current_file == old(self).current_file,
            final(self).show_error_dialog matches Some(m) && m@ == message@,
    {
        self.show_error_dialog = Some(message);
    }

    /// The user dismissed the error dialog.
    pub fn dismiss_error(&mut self)
        ensures
            final(self).events == old(self).events,
            final(self).folded_processes == old(self).folded_processes,
            final(self).current_file == old(self).current_file,
            final(self).show_error_dialog is None,
    {
        self.show_error_dialog = None;
    }

    /// Handle one menu action. State changes that need no outside help — new
    /// file, expand all, collapse all — happen here; everything that needs a
    /// dialog, a file or the window system is returned as a directive for the
    /// surrounding program.
    pub fn handle_menu_action(&mut self, action: MenuAction) -> (directive: MenuDirective)
        ensures
            match action {
                MenuAction::NoOp | MenuAction::OpenFile | MenuAction::SaveFile
                    | MenuAction::SaveFileAs | MenuAction::Exit => *final(self) == *old(self),
                _ => true,
            },
            match action {
                MenuAction::NoOp => directive is Nothing,
                MenuAction::NewFile => directive is Nothing,
                MenuAction::OpenFile => directive is PickOpenFile,
                MenuAction::SaveFile => match old(self).current_file {
                    Some(p) => directive matches MenuDirective::SaveTo(q) && q@ == p@,
                    None => directive is PickSaveFile,
                },
                MenuAction::SaveFileAs => directive is PickSaveFile,
                MenuAction::Exit => directive is CloseApp,
                MenuAction::ExpandAll => directive is Nothing,
                MenuAction::CollapseAll => directive is Nothing,
            },
            action is NewFile ==> {
                &&& final(self).events.threads@ == Map::<u64, crate::event::Thread>::empty()
                &&& final(self).events.start_time == old(self).events.start_time
                &&& final(self).events.total_duration == old(self).events.total_duration
                &&& final(self).folded_processes@ == Map::<usize, bool>::empty()
                &&& final(self).current_file is None
                &&& final(self).show_error_dialog == old(self).show_error_dialog
            },
            action is ExpandAll ==> {
                &&& final(self).folded_processes@ == Map::<usize, bool>::empty()
                &&& final(self).events == old(self).events
                &&& final(self).current_file == old(self).current_file
                &&& final(self).show_error_dialog == old(self).show_error_dialog
            },
            action is CollapseAll ==> final(self).events == old(self).events
                && final(self).current_file == old(self).current_file
                && final(self).show_error_dialog == old(self).show_error_dialog,
            action is CollapseAll ==> forall|id: u64| #[trigger]
                old(self).events.threads@.dom().contains(id)
                    ==> final(self).folded_processes@.contains_key(id as usize)
                    && final(self).folded_processes@[id as usize] == true,
            action is CollapseAll ==> folds_unchanged_outside(
                old(self).events.threads@.dom(),
                old(self).folded_processes@,
                final(self).folded_processes@,
            ),
    {
        broadcast use vstd::std_specs::hash::group_hash_axioms;

        match action {
            MenuAction::NoOp => MenuDirective::Nothing,
            MenuAction::NewFile => {
                self.clear_data();
                MenuDirective::Nothing
            },
            MenuAction::OpenFile => MenuDirective::PickOpenFile,
            MenuAction::SaveFile => {
                match &self.current_file {
                    Some(p) => {
                        let path = p.clone();
                        MenuDirective::SaveTo(path)
                    },
                    None => MenuDirective::PickSaveFile,
                }
            },
            MenuAction::SaveFileAs => MenuDirective::PickSaveFile,
            MenuAction::Exit => MenuDirective::CloseApp,
            MenuAction::ExpandAll => {
                self.folded_processes.clear();
                MenuDirective::Nothing
            },
            MenuAction::CollapseAll => {
                let ids = self.events.thread_ids();
                let ghost dom = self.events.threads@.dom();
                let mut i: usize = 0;
                while i < ids.len()
                    invariant
                        0 <= i <= ids@.len(),
                        ids@.to_set() == dom,
                        dom == self.events.threads@.dom(),
                        self.events == old(self).events,
                        self.current_file == old(self).current_file,
                        self.show_error_dialog == old(self).show_error_dialog,
                        forall|j: int|
                            0 <= j < i ==> self.folded_processes@.contains_key(
                                (#[trigger] ids@[j]) as usize,
                            ) && self.folded_processes@[ids@[j] as usize] == true,
                        forall|k: usize|
                            !is_prefix_key(ids@, i as int, k) ==> (
                            #[trigger] self.folded_processes@.contains_key(k) == old(
                                self,
                            ).folded_processes@.contains_key(k) && (old(
                                self,
                            ).folded_processes@.contains_key(k) ==> self.folded_processes@[k]
                                == old(self).folded_processes@[k])),
                    decreases ids@.len() - i,
                {
                    let id = ids[i];
                    self.folded_processes.insert(id as usize, true);
                    proof {
                        assert forall|k: usize|
                            !is_prefix_key(ids@, i + 1, k) implies (
                        #[trigger] self.folded_processes@.contains_key(k) == old(
                            self,
                        ).folded_processes@.contains_key(k) && (old(
                            self,
                        ).folded_processes@.contains_key(k) ==> self.folded_processes@[k] == old(
                            self,
                        ).folded_processes@[k])) by {
                            if k == ((id as usize)) {
                                assert(0 <= i < i + 1 && k == (ids@[i as int] as usize));
                                assert(is_prefix_key(ids@, i + 1, k));
                            } else {
                                if is_prefix_key(ids@, i as int, k) {
                                    let j = choose|j: int|
                                        0 <= j < i && k == ((#[trigger] ids@[j]) as usize);
                                    assert(is_prefix_key(ids@, i + 1, k));
                                }
                            }
                        }
                    }
                    i = i + 1;
                }
                proof {
                    assert forall|id: u64| #[trigger]
                        old(self).events.threads@.dom().contains(
                            id,
                        ) implies self.folded_processes@.contains_key(id as usize)
                        && self.folded_processes@[id as usize] == true by {
                        assert(dom.contains(id));
                        assert(ids@.contains(id));
                        let j = choose|j: int| 0 <= j < ids@.len() && ids@[j] == id;
                        assert(self.folded_processes@.contains_key(ids@[j] as usize));
                    }
                    let ghost dom0 = old(self).events.threads@.dom();
                    let ghost before0 = old(self).folded_processes@;
                    let ghost after0 = self.folded_processes@;
                    assert forall|k: usize|
                        !is_thread_key(dom0, k) implies #[trigger] fold_key_unchanged(
                        before0,
                        after0,
                        k,
                    ) by {
                        assert(i == ids@.len());
                        if is_prefix_key(ids@, ids@.len() as int, k) {
                            let j = choose|j: int|
                                0 <= j < ids@.len() && k == ((#[trigger] ids@[j]) as usize);
                            assert(ids@.contains(ids@[j]));
                            assert(dom.contains(ids@[j]));
                            assert(is_thread_key(dom0, k));
                            assert(false);
                        }
                        assert(!is_prefix_key(ids@, i as int, k));
                        assert(self.folded_processes@.contains_key(k) == old(
                            self,
                        ).folded_processes@.contains_key(k));
                        assert(fold_key_unchanged(before0, after0, k));
                    }
                    assert(folds_unchanged_outside(dom0, before0, after0));
                }
                MenuDirective::Nothing
            },
        }
    }
}

} // verus!
