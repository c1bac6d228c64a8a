//! The extraction itself: which folders to make and which entries to copy
//! where. The extractor decides; whoever drives it touches the disk and tells
//! it how that went.

use crate::archive::{is_index, ArchiveIndex, EntryView};
use crate::error::{ErrorView, IliasError};
use crate::excel::team_views;
use crate::path::{match_submission_path, stays_inside, submission_match, SubmissionPathView};
use crate::submission::{folder_name_of, summary_of, IliasTeam, TeamView};
use crate::IliasConfiguration;
use std::collections::HashMap;
use vstd::prelude::*;
use vstd::std_specs::iter::IteratorSpec;

verus! {

broadcast use vstd::std_specs::hash::group_hash_axioms;

/// What was found where a team's folder should be.
#[derive(Debug, Clone, Copy, PartialEq, Eq, Structural)]
pub enum FolderState {
    /// Nothing is there.
    Missing,
    /// A directory is there.
    Directory,
    /// Something else is there.
    Occupied,
}

/// What the driver reports back to the extractor.
#[derive(Debug, Clone, PartialEq, Eq)]
pub enum ExtractEvent {
    /// Nothing has happened yet.
    Started,
    /// The answer to `ProbeFolder`.
    Probed(FolderState),
    /// The last action was carried out.
    Completed,
    /// `CopyEntry` was told not to overwrite, and its destination exists.
    DestinationExists,
    /// The last action failed; the text says how.
    Failed(String),
}

/// The mathematical content of an [`ExtractEvent`].
pub enum EventView {
    Started,
    Probed(FolderState),
    Completed,
    DestinationExists,
    Failed(Seq<char>),
}

impl View for ExtractEvent {
    type V = EventView;

    open spec fn view(&self) -> EventView {
        match *self {
            ExtractEvent::Started => EventView::Started,
            ExtractEvent::Probed(state) => EventView::Probed(state),
            ExtractEvent::Completed => EventView::Completed,
            ExtractEvent::DestinationExists => EventView::DestinationExists,
            ExtractEvent::Failed(what) => EventView::Failed(what@),
        }
    }
}

/// What the extractor asks its driver to do next. Folders and files are named
/// relative to the output root.
#[derive(Debug, Clone, PartialEq, Eq)]
pub enum ExtractAction {
    /// Look what is at `folder` and report `Probed`.
    ProbeFolder { team_id: i32, folder: String },
    /// Create the directory `folder` with all its parents.
    CreateFolder { team_id: i32, folder: String },
    /// Write `text` to `file_name` in `folder`, replacing what is there.
    WriteSummary { team_id: i32, folder: String, file_name: String, text: String },
    /// Copy the bytes of archive entry number `entry`, found at `source`, to
    /// `file_name` in `folder`. With `overwrite` the file is created or cut
    /// to nothing first; without, it must not exist yet.
    CopyEntry {
        team_id: i32,
        entry: usize,
        source: String,
        folder: String,
        file_name: String,
        overwrite: bool,
    },
    /// Everything is done.
    Finished,
    /// The run is given up for this reason.
    Abort(IliasError),
}

/// The mathematical content of an [`ExtractAction`].
pub enum ActionView {
    ProbeFolder { team_id: int, folder: Seq<char> },
    CreateFolder { team_id: int, folder: Seq<char> },
    WriteSummary { team_id: int, folder: Seq<char>, file_name: Seq<char>, text: Seq<char> },
    CopyEntry {
        team_id: int,
        entry: int,
        source: Seq<char>,
        folder: Seq<char>,
        file_name: Seq<char>,
        overwrite: bool,
    },
    Finished,
    Abort(ErrorView),
}

impl View for ExtractAction {
    type V = ActionView;

    open spec fn view(&self) -> ActionView {
        match *self {
            ExtractAction::ProbeFolder { team_id, folder } => ActionView::ProbeFolder {
                team_id: team_id as int,
                folder: folder@,
            },
            ExtractAction::CreateFolder { team_id, folder } => ActionView::CreateFolder {
                team_id: team_id as int,
                folder: folder@,
            },
            ExtractAction::WriteSummary {
                team_id,
                folder,
                file_name,
                text,
            } => ActionView::WriteSummary {
                team_id: team_id as int,
                folder: folder@,
                file_name: file_name@,
                text: text@,
            },
            ExtractAction::CopyEntry {
                team_id,
                entry,
                source,
                folder,
                file_name,
                overwrite,
            } => ActionView::CopyEntry {
                team_id: team_id as int,
                entry: entry as int,
                source: source@,
                folder: folder@,
                file_name: file_name@,
                overwrite,
            },
            ExtractAction::Finished => ActionView::Finished,
            ExtractAction::Abort(e) => ActionView::Abort(e@),
        }
    }
}

/// Where a run stands.
#[derive(Debug, Clone, Copy, PartialEq, Eq, Structural)]
pub enum Stage {
    /// Nothing has been asked yet.
    Ready,
    /// `ProbeFolder` is out for the team at the current position.
    Probing,
    /// `CreateFolder` is out for the team at the current position.
    Creating,
    /// `WriteSummary` is out for the team at the current position.
    Summarizing,
    /// `CopyEntry` is out for the index entry at the current position.
    Copying,
    /// The run has finished or was given up.
    Closed,
}

/// The name of the summary file in a team folder.
pub open spec fn summary_file_name() -> Seq<char> {
    "summary.md"@
}

/// The name under which a matched entry is stored: stem, dot, extension. The
/// subfolder that the entry came from plays no part.
pub open spec fn file_name_of(matched: SubmissionPathView) -> Seq<char> {
    matched.stem + seq!['.'] + matched.extension
}

/// A file in a folder, written with a slash.
pub open spec fn file_in(folder: Seq<char>, file_name: Seq<char>) -> Seq<char> {
    folder + seq!['/'] + file_name
}

/// The mathematical content of an [`IliasExtractor`].
pub struct ExtractorView {
    /// The teams of the spreadsheet, by id.
    pub teams: Map<int, TeamView>,
    /// The team ids in the order in which their folders are made.
    pub order: Seq<int>,
    /// The index of the archive, in the order in which it is walked.
    pub entries: Seq<EntryView>,
    /// The folders that are in place so far, by team id.
    pub folders: Map<int, Seq<char>>,
    /// Where the run stands.
    pub stage: Stage,
    /// The team or entry that the pending action is about.
    pub position: int,
    /// The folder of the pending action, or the file that it copies to.
    pub pending: Seq<char>,
}

impl ExtractorView {
    /// The same run, closed.
    pub open spec fn closed(self) -> ExtractorView {
        ExtractorView { stage: Stage::Closed, ..self }
    }

    /// The team that the pending action is about.
    pub open spec fn team_id(self) -> int {
        self.order[self.position]
    }

    /// Whether two states belong to one run: same teams, same order, same
    /// index.
    pub open spec fn same_run(self, other: ExtractorView) -> bool {
        &&& self.teams == other.teams
        &&& self.order == other.order
        &&& self.entries == other.entries
    }

    /// Whether exactly the first `upto` teams have their folder.
    pub open spec fn settled(self, upto: int) -> bool {
        forall|id: int| #[trigger]
            self.folders.contains_key(id) <==> exists|i: int|
                0 <= i < upto && #[trigger] self.order[i] == id
    }

    /// What holds of every extractor between two steps: each team has its
    /// place in the order, every folder in place belongs to a team and bears
    /// the name that the team's members give it, and the stage agrees with
    /// how far the folders have come. While folders are made, the teams
    /// before the current one have theirs and no others; an entry is copied
    /// only when every team has its folder, and the pending file is where
    /// the entry goes.
    pub open spec fn consistent(self) -> bool {
        &&& is_index(self.entries)
        &&& self.order.no_duplicates()
        &&& forall|i: int|
            0 <= i < self.order.len() ==> self.teams.contains_key(#[trigger] self.order[i])
        &&& forall|id: int| #[trigger]
            self.folders.contains_key(id) ==> self.teams.contains_key(id) && folder_name_of(
                self.teams[id].members,
            ) == Ok::<Seq<char>, ErrorView>(self.folders[id])
        &&& match self.stage {
            Stage::Ready => self.settled(0),
            Stage::Probing | Stage::Creating | Stage::Summarizing => {
                &&& 0 <= self.position < self.order.len()
                &&& self.settled(self.position)
                &&& folder_name_of(self.teams[self.team_id()].members) == Ok::<
                    Seq<char>,
                    ErrorView,
                >(self.pending)
            },
            Stage::Copying => {
                &&& 0 <= self.position < self.entries.len()
                &&& self.settled(self.order.len() as int)
                &&& submission_match(self.entries[self.position].path) matches Ok(Some(matched))
                    && self.folders.contains_key(matched.team_id) && self.pending == file_in(
                    self.folders[matched.team_id],
                    file_name_of(matched),
                )
            },
            Stage::Closed => true,
        }
    }

    /// Turns to the index entries from position `from` on: entries that do
    /// not match the submission pattern are passed over, the first that does
    /// is copied into the folder of its team, and the run finishes when no
    /// entry is left. A match for a team without folder ends the run.
    pub open spec fn enter_entry(self, from: int, overwrite: bool) -> (ExtractorView, ActionView)
        decreases self.entries.len() - from,
    {
        if from < 0 || from >= self.entries.len() {
            (self.closed(), ActionView::Finished)
        } else {
            let entry = self.entries[from];
            match submission_match(entry.path) {
                Err(e) => (self.closed(), ActionView::Abort(e)),
                Ok(None) => self.enter_entry(from + 1, overwrite),
                Ok(Some(matched)) => if self.folders.contains_key(matched.team_id) {
                    let folder = self.folders[matched.team_id];
                    let file_name = file_name_of(matched);
                    (
                        ExtractorView {
                            stage: Stage::Copying,
                            position: from,
                            pending: file_in(folder, file_name),
                            ..self
                        },
                        ActionView::CopyEntry {
                            team_id: matched.team_id,
                            entry: entry.index,
                            source: entry.path,
                            folder,
                            file_name,
                            overwrite,
                        },
                    )
                } else {
                    (self.closed(), ActionView::Abort(ErrorView::UnknownTeam(matched.team_id)))
                },
            }
        }
    }

    /// Turns to the team at position `at`: its folder is named and probed.
    /// After the last team the entries are next.
    pub open spec fn enter_team(self, at: int, overwrite: bool) -> (ExtractorView, ActionView) {
        if at < 0 || at >= self.order.len() {
            self.enter_entry(0, overwrite)
        } else {
            match folder_name_of(self.teams[self.order[at]].members) {
                Err(e) => (self.closed(), ActionView::Abort(e)),
                Ok(folder) => (
                    ExtractorView { stage: Stage::Probing, position: at, pending: folder, ..self },
                    ActionView::ProbeFolder { team_id: self.order[at], folder },
                ),
            }
        }
    }

    /// The current team's folder is in place for good: it is entered in the
    /// folder map, and the next team is turned to.
    pub open spec fn settle(self, overwrite: bool) -> (ExtractorView, ActionView) {
        ExtractorView {
            folders: self.folders.insert(self.team_id(), self.pending),
            ..self
        }.enter_team(self.position + 1, overwrite)
    }

    /// The current team's folder exists: its summary is written if summaries
    /// are wanted.
    pub open spec fn folder_ready(self, summary: bool, overwrite: bool) -> (
        ExtractorView,
        ActionView,
    ) {
        if summary {
            (
                ExtractorView { stage: Stage::Summarizing, ..self },
                ActionView::WriteSummary {
                    team_id: self.team_id(),
                    folder: self.pending,
                    file_name: summary_file_name(),
                    text: summary_of(self.teams[self.team_id()]),
                },
            )
        } else {
            self.settle(overwrite)
        }
    }

    /// One step of a run: the state after `event`, and what to do next.
    ///
    /// Folders come first, team by team: the folder is probed; one that is
    /// occupied by something else ends the run, a missing one is created;
    /// then the summary is written if wanted. Entries come after the last
    /// team, one copy at a time. A failure that is reported ends the run, and
    /// so does an event that answers nothing that was asked.
    pub open spec fn step(self, summary: bool, overwrite: bool, event: EventView) -> (
        ExtractorView,
        ActionView,
    ) {
        match self.stage {
            Stage::Ready => match event {
                EventView::Started => self.enter_team(0, overwrite),
                _ => (self.closed(), ActionView::Abort(ErrorView::UnexpectedEvent)),
            },
            Stage::Probing => match event {
                EventView::Probed(FolderState::Occupied) => (
                    self.closed(),
                    ActionView::Abort(ErrorView::TargetConflict(self.pending)),
                ),
                EventView::Probed(FolderState::Missing) => (
                    ExtractorView { stage: Stage::Creating, ..self },
                    ActionView::CreateFolder { team_id: self.team_id(), folder: self.pending },
                ),
                EventView::Probed(FolderState::Directory) => self.folder_ready(summary, overwrite),
                EventView::Failed(what) => (self.closed(), ActionView::Abort(ErrorView::Io(what))),
                _ => (self.closed(), ActionView::Abort(ErrorView::UnexpectedEvent)),
            },
            Stage::Creating => match event {
                EventView::Completed => self.folder_ready(summary, overwrite),
                EventView::Failed(what) => (self.closed(), ActionView::Abort(ErrorView::Io(what))),
                _ => (self.closed(), ActionView::Abort(ErrorView::UnexpectedEvent)),
            },
            Stage::Summarizing => match event {
                EventView::Completed => self.settle(overwrite),
                EventView::Failed(what) => (self.closed(), ActionView::Abort(ErrorView::Io(what))),
                _ => (self.closed(), ActionView::Abort(ErrorView::UnexpectedEvent)),
            },
            Stage::Copying => match event {
                EventView::Completed => self.enter_entry(self.position + 1, overwrite),
                EventView::DestinationExists => if overwrite {
                    (self.closed(), ActionView::Abort(ErrorView::UnexpectedEvent))
                } else {
                    (self.closed(), ActionView::Abort(ErrorView::AlreadyExists(self.pending)))
                },
                EventView::Failed(what) => (self.closed(), ActionView::Abort(ErrorView::Io(what))),
                _ => (self.closed(), ActionView::Abort(ErrorView::UnexpectedEvent)),
            },
            Stage::Closed => (self.closed(), ActionView::Abort(ErrorView::UnexpectedEvent)),
        }
    }
}

/// Whatever the walk through the entries comes to, it leaves a consistent
/// state, and what it copies is a matching entry of the index that goes to
/// the folder of its own team.
pub proof fn lemma_enter_entry(state: ExtractorView, from: int, overwrite: bool)
    requires
        state.closed().consistent(),
        state.settled(state.order.len() as int),
    ensures
        state.enter_entry(from, overwrite).0.consistent(),
        state.enter_entry(from, overwrite).1 matches ActionView::CopyEntry {
            team_id,
            entry,
            source,
            folder,
            file_name,
            overwrite: replace,
        } ==> {
            let next = state.enter_entry(from, overwrite).0;
            &&& next.stage == Stage::Copying
            &&& from <= next.position < state.entries.len()
            &&& state.entries[next.position] == (EntryView { path: source, index: entry })
            &&& stays_inside(source)
            &&& submission_match(source) matches Ok(Some(matched)) && matched.team_id == team_id
                && file_name == file_name_of(matched)
            &&& state.teams.contains_key(team_id)
            &&& folder_name_of(state.teams[team_id].members) == Ok::<Seq<char>, ErrorView>(folder)
            &&& replace == overwrite
        },
        state.enter_entry(from, overwrite).0.same_run(state),
        state.enter_entry(from, overwrite).0.folders == state.folders,
        !(state.enter_entry(from, overwrite).1 is ProbeFolder),
        !(state.enter_entry(from, overwrite).1 is CreateFolder),
        !(state.enter_entry(from, overwrite).1 is WriteSummary),
    decreases state.entries.len() - from,
{
    let next = state.enter_entry(from, overwrite).0;
    if 0 <= from < state.entries.len() {
        match submission_match(state.entries[from].path) {
            Ok(None) => {
                lemma_enter_entry(state, from + 1, overwrite);
            },
            _ => {
                lemma_same_run_same_folders(state.closed(), next);
            },
        }
    }
}

/// Two states of one run that agree on the folders in place agree on what is
/// settled and on whether the folders bear the right names.
proof fn lemma_same_run_same_folders(first: ExtractorView, second: ExtractorView)
    requires
        first.teams == second.teams,
        first.order == second.order,
        first.entries == second.entries,
        first.folders == second.folders,
    ensures
        forall|upto: int| first.settled(upto) == second.settled(upto),
        first.closed().consistent() == second.closed().consistent(),
{
    assert forall|upto: int| first.settled(upto) == second.settled(upto) by {
        if first.settled(upto) {
            assert forall|id: int| #[trigger]
                second.folders.contains_key(id) <==> exists|i: int|
                    0 <= i < upto && #[trigger] second.order[i] == id by {
                assert(first.folders.contains_key(id) <==> exists|i: int|
                    0 <= i < upto && #[trigger] first.order[i] == id);
            }
        }
        if second.settled(upto) {
            assert forall|id: int| #[trigger]
                first.folders.contains_key(id) <==> exists|i: int|
                    0 <= i < upto && #[trigger] first.order[i] == id by {
                assert(second.folders.contains_key(id) <==> exists|i: int|
                    0 <= i < upto && #[trigger] second.order[i] == id);
            }
        }
    }
    if first.closed().consistent() {
        assert forall|id: int| #[trigger]
            second.folders.contains_key(id) implies second.teams.contains_key(id)
            && folder_name_of(second.teams[id].members) == Ok::<Seq<char>, ErrorView>(
            second.folders[id],
        ) by {
            assert(first.closed().folders.contains_key(id));
        }
        assert(second.closed().consistent());
    }
    if second.closed().consistent() {
        assert forall|id: int| #[trigger]
            first.folders.contains_key(id) implies first.teams.contains_key(id) && folder_name_of(
            first.teams[id].members,
        ) == Ok::<Seq<char>, ErrorView>(first.folders[id]) by {
            assert(second.closed().folders.contains_key(id));
        }
        assert(first.closed().consistent());
    }
}

/// Turning to a team leaves a consistent state, if the teams before it have
/// their folders and no others have.
pub proof fn lemma_enter_team(state: ExtractorView, at: int, overwrite: bool)
    requires
        state.closed().consistent(),
        0 <= at <= state.order.len(),
        state.settled(at),
    ensures
        state.enter_team(at, overwrite).0.consistent(),
        state.enter_team(at, overwrite).0.same_run(state),
        state.enter_team(at, overwrite).0.folders == state.folders,
        state.enter_team(at, overwrite).1 is CopyEntry ==> state.settled(
            state.order.len() as int,
        ),
{
    if at >= state.order.len() {
        lemma_enter_entry(state, 0, overwrite);
    } else {
        lemma_same_run_same_folders(state.closed(), state.enter_team(at, overwrite).0);
    }
}

/// Entering the current team's folder in the map settles one team more.
pub proof fn lemma_settle(state: ExtractorView, overwrite: bool)
    requires
        state.consistent(),
        state.stage == Stage::Probing || state.stage == Stage::Creating || state.stage
            == Stage::Summarizing,
    ensures
        ({
            let next = ExtractorView {
                folders: state.folders.insert(state.team_id(), state.pending),
                ..state
            };
            &&& next.closed().consistent()
            &&& next.settled(state.position + 1)
        }),
        !state.folders.contains_key(state.team_id()),
        state.settle(overwrite).0.consistent(),
        state.settle(overwrite).0.same_run(state),
        state.folders.submap_of(state.settle(overwrite).0.folders),
{
    if state.folders.contains_key(state.team_id()) {
        let i = choose|i: int| 0 <= i < state.position && #[trigger] state.order[i] == state.team_id();
        assert(state.order[i] == state.order[state.position]);
    }
    let next = ExtractorView {
        folders: state.folders.insert(state.team_id(), state.pending),
        ..state
    };
    assert forall|id: int| #[trigger]
        next.folders.contains_key(id) <==> exists|i: int|
            0 <= i < state.position + 1 && #[trigger] next.order[i] == id by {
        if next.folders.contains_key(id) {
            if id == state.team_id() {
                assert(next.order[state.position] == id);
            } else {
                assert(state.folders.contains_key(id));
                let i = choose|i: int| 0 <= i < state.position && #[trigger] state.order[i] == id;
                assert(next.order[i] == id);
            }
        }
        if exists|i: int| 0 <= i < state.position + 1 && #[trigger] next.order[i] == id {
            let i = choose|i: int| 0 <= i < state.position + 1 && #[trigger] next.order[i] == id;
            if i < state.position {
                assert(state.order[i] == id);
                assert(state.folders.contains_key(id));
            }
        }
    }
    lemma_enter_team(next, state.position + 1, overwrite);
}

/// A step takes a consistent state to a consistent state of the same run, and
/// takes no folder away.
pub proof fn lemma_step_keeps_consistent(
    state: ExtractorView,
    summary: bool,
    overwrite: bool,
    event: EventView,
)
    requires
        state.consistent(),
    ensures
        state.step(summary, overwrite, event).0.consistent(),
        state.step(summary, overwrite, event).0.same_run(state),
        state.folders.submap_of(state.step(summary, overwrite, event).0.folders),
{
    match state.stage {
        Stage::Ready => {
            lemma_enter_team(state, 0, overwrite);
        },
        Stage::Probing | Stage::Creating | Stage::Summarizing => {
            lemma_settle(state, overwrite);
        },
        Stage::Copying => {
            lemma_enter_entry(state, state.position + 1, overwrite);
        },
        Stage::Closed => {},
    }
}

/// Folders come before files: when a step asks for a copy, every team of the
/// spreadsheet has its folder in place, and the copy goes from an entry of the
/// index that stays inside the archive and matches the submission pattern
/// into the folder of the team that the entry names, under stem and
/// extension alone, with the overwrite policy of the run.
pub proof fn lemma_copy_comes_after_folders(
    state: ExtractorView,
    summary: bool,
    overwrite: bool,
    event: EventView,
)
    requires
        state.consistent(),
    ensures
        state.step(summary, overwrite, event).1 matches ActionView::CopyEntry {
            team_id,
            entry,
            source,
            folder,
            file_name,
            overwrite: replace,
        } ==> {
            let next = state.step(summary, overwrite, event).0;
            &&& forall|i: int|
                0 <= i < state.order.len() ==> next.folders.contains_key(#[trigger] state.order[i])
            &&& forall|id: int| #[trigger]
                state.teams.contains_key(id) && state.order.contains(id)
                    ==> next.folders.contains_key(id)
            &&& 0 <= next.position < state.entries.len()
            &&& state.entries[next.position] == (EntryView { path: source, index: entry })
            &&& stays_inside(source)
            &&& submission_match(source) matches Ok(Some(matched)) && matched.team_id == team_id
                && file_name == file_name_of(matched)
            &&& state.teams.contains_key(team_id)
            &&& folder_name_of(state.teams[team_id].members) == Ok::<Seq<char>, ErrorView>(folder)
            &&& replace == overwrite
        },
{
    let (next, action) = state.step(summary, overwrite, event);
    lemma_step_keeps_consistent(state, summary, overwrite, event);
    if action is CopyEntry {
        match state.stage {
            Stage::Ready => {
                lemma_enter_team(state, 0, overwrite);
                lemma_enter_entry(state, 0, overwrite);
            },
            Stage::Probing | Stage::Creating | Stage::Summarizing => {
                lemma_settle(state, overwrite);
                let settled = ExtractorView {
                    folders: state.folders.insert(state.team_id(), state.pending),
                    ..state
                };
                lemma_enter_team(settled, state.position + 1, overwrite);
                lemma_enter_entry(settled, 0, overwrite);
                lemma_same_run_same_folders(settled, settled.closed());
            },
            Stage::Copying => {
                lemma_enter_entry(state, state.position + 1, overwrite);
            },
            Stage::Closed => {},
        }
        assert(next.stage == Stage::Copying);
        assert(next.settled(next.order.len() as int));
        assert forall|i: int| 0 <= i < state.order.len() implies next.folders.contains_key(
            #[trigger] state.order[i],
        ) by {
            assert(next.order[i] == state.order[i]);
        }
        assert forall|id: int| #[trigger]
            state.teams.contains_key(id) && state.order.contains(id)
                implies next.folders.contains_key(id) by {
            let i = choose|i: int| 0 <= i < state.order.len() && state.order[i] == id;
            assert(next.order[i] == id);
        }
    }
}

/// With overwriting off, a copy that finds its destination in place ends the
/// run, and the error names that destination.
pub proof fn lemma_existing_destination_ends_run(
    state: ExtractorView,
    summary: bool,
    event: EventView,
)
    requires
        state.consistent(),
    ensures
        state.step(summary, false, event).1 matches ActionView::CopyEntry {
            folder,
            file_name,
            overwrite,
            ..
        } ==> {
            let next = state.step(summary, false, event).0;
            &&& !overwrite
            &&& next.step(summary, false, EventView::DestinationExists) == (
                next.closed(),
                ActionView::Abort(ErrorView::AlreadyExists(file_in(folder, file_name))),
            )
        },
{
    lemma_copy_comes_after_folders(state, summary, false, event);
    let (next, action) = state.step(summary, false, event);
    if action is CopyEntry {
        match state.stage {
            Stage::Ready => {
                lemma_copy_sets_destination(state, 0);
            },
            Stage::Probing | Stage::Creating | Stage::Summarizing => {
                let settled = ExtractorView {
                    folders: state.folders.insert(state.team_id(), state.pending),
                    ..state
                };
                lemma_copy_sets_destination(settled, 0);
            },
            Stage::Copying => {
                lemma_copy_sets_destination(state, state.position + 1);
            },
            Stage::Closed => {},
        }
    }
}

/// A copy leaves its destination as the pending file.
proof fn lemma_copy_sets_destination(state: ExtractorView, from: int)
    ensures
        state.enter_entry(from, false).1 matches ActionView::CopyEntry {
            folder,
            file_name,
            ..
        } ==> state.enter_entry(from, false).0.stage == Stage::Copying && state.enter_entry(
            from,
            false,
        ).0.pending == file_in(folder, file_name),
    decreases state.entries.len() - from,
{
    if 0 <= from < state.entries.len() {
        lemma_copy_sets_destination(state, from + 1);
    }
}

/// What comes next does not depend on the stage that is left behind.
pub proof fn lemma_stage_is_left_behind(first: ExtractorView, second: ExtractorView, overwrite: bool)
    requires
        first.closed() == second.closed(),
    ensures
        forall|from: int| first.enter_entry(from, overwrite) == second.enter_entry(from, overwrite),
        forall|at: int| first.enter_team(at, overwrite) == second.enter_team(at, overwrite),
        first.settle(overwrite) == second.settle(overwrite),
        forall|summary: bool|
            first.folder_ready(summary, overwrite) == second.folder_ready(summary, overwrite),
{
    assert(first.teams == second.teams && first.order == second.order && first.entries
        == second.entries && first.folders == second.folders && first.position == second.position
        && first.pending == second.pending) by {
        assert(first.closed().teams == second.closed().teams);
        assert(first.closed().order == second.closed().order);
        assert(first.closed().entries == second.closed().entries);
        assert(first.closed().folders == second.closed().folders);
        assert(first.closed().position == second.closed().position);
        assert(first.closed().pending == second.closed().pending);
    }
    assert forall|from: int|
        first.enter_entry(from, overwrite) == second.enter_entry(from, overwrite) by {
        lemma_entries_ignore_stage(first, second, from, overwrite);
    }
    let first_settled = ExtractorView {
        folders: first.folders.insert(first.team_id(), first.pending),
        ..first
    };
    let second_settled = ExtractorView {
        folders: second.folders.insert(second.team_id(), second.pending),
        ..second
    };
    assert(first_settled.closed() == second_settled.closed());
    assert forall|from: int|
        first_settled.enter_entry(from, overwrite) == second_settled.enter_entry(
            from,
            overwrite,
        ) by {
        lemma_entries_ignore_stage(first_settled, second_settled, from, overwrite);
    }
}

proof fn lemma_entries_ignore_stage(
    first: ExtractorView,
    second: ExtractorView,
    from: int,
    overwrite: bool,
)
    requires
        first.closed() == second.closed(),
    ensures
        first.enter_entry(from, overwrite) == second.enter_entry(from, overwrite),
    decreases first.entries.len() - from,
{
    assert(first.entries == second.closed().entries);
    assert(first.folders == second.closed().folders);
    if 0 <= from < first.entries.len() {
        lemma_entries_ignore_stage(first, second, from + 1, overwrite);
    }
}

/// The team ids of a list, as numbers.
pub open spec fn order_views(order: Seq<i32>) -> Seq<int> {
    Seq::new(order.len(), |i: int| order[i] as int)
}

/// The contents of a map of folders, by team id.
pub open spec fn folder_views(folders: Map<i32, String>) -> Map<int, Seq<char>> {
    Map::new(
        |id: int| i32::MIN <= id <= i32::MAX && folders.contains_key(id as i32),
        |id: int| folders[id as i32]@,
    )
}

/// Extracts the zip archive
///
/// The extractor holds what the spreadsheet and the archive's index say and
/// decides, step by step, what is done next. It never touches the disk.
#[derive(Debug)]
pub struct IliasExtractor {
    /// Contents from the Excel spreadsheet
    teams: HashMap<i32, IliasTeam>,
    /// The team ids, in the order in which the folders are made
    order: Vec<i32>,
    /// An index of the archive mapping all paths to zip indices
    archive_index: ArchiveIndex,
    /// Target folders for each team
    folders: HashMap<i32, String>,
    stage: Stage,
    position: usize,
    pending: String,
}

impl View for IliasExtractor {
    type V = ExtractorView;

    closed spec fn view(&self) -> ExtractorView {
        ExtractorView {
            teams: team_views(self.teams@),
            order: order_views(self.order@),
            entries: self.archive_index@,
            folders: folder_views(self.folders@),
            stage: self.stage,
            position: self.position as int,
            pending: self.pending@,
        }
    }
}

fn team_order(teams: &HashMap<i32, IliasTeam>) -> (order: Vec<i32>)
    ensures
        order@.no_duplicates(),
        order@.to_set() == teams@.dom(),
{
    let mut order: Vec<i32> = Vec::new();
    let ghost all: Seq<i32> = teams.keys().remaining().unref();
    for key in it: teams.keys()
        invariant
            it.seq().unref() == all,
            order@ == all.subrange(0, it.index() as int),
    {
        assert(all.subrange(0, it.index() + 1) == all.subrange(0, it.index() as int).push(*key));
        order.push(*key);
    }
    assert(order@ == all);
    order
}

impl IliasExtractor {
    #[verifier::type_invariant]
    spec fn well_formed(self) -> bool {
        self@.consistent()
    }

    /// Creates a new extractor instance
    ///
    /// The teams get their folders in the order in which the map hands out
    /// its keys.
    pub fn new(teams: HashMap<i32, IliasTeam>, archive_index: ArchiveIndex) -> (extractor:
        IliasExtractor)
        ensures
            extractor@.teams == team_views(teams@),
            extractor@.entries == archive_index@,
            extractor@.folders == Map::<int, Seq<char>>::empty(),
            extractor@.stage == Stage::Ready,
            extractor@.order.to_set() == team_views(teams@).dom(),
            extractor@.consistent(),
    {
        let order = team_order(&teams);
        let _ = archive_index.len();
        let folders: HashMap<i32, String> = HashMap::new();
        proof {
            let ids = order_views(order@);
            assert(folder_views(folders@) =~= Map::<int, Seq<char>>::empty());
            assert forall|i: int, j: int| 0 <= i < ids.len() && 0 <= j < ids.len() && i != j implies ids[i]
                != ids[j] by {
                assert(order@[i] != order@[j]);
            }
            assert forall|i: int| 0 <= i < ids.len() implies team_views(teams@).contains_key(
                #[trigger] ids[i],
            ) by {
                assert(order@.to_set().contains(order@[i]));
            }
            assert forall|id: int| ids.to_set().contains(id) == team_views(teams@).dom().contains(
                id,
            ) by {
                if ids.to_set().contains(id) {
                    let i = choose|i: int| 0 <= i < ids.len() && ids[i] == id;
                    assert(order@.to_set().contains(order@[i]));
                }
                if team_views(teams@).dom().contains(id) {
                    assert(order@.to_set().contains(id as i32));
                    let i = choose|i: int| 0 <= i < order@.len() && order@[i] == id as i32;
                    assert(ids[i] == id);
                }
            }
            assert(ids.to_set() =~= team_views(teams@).dom());
        }
        IliasExtractor {
            teams,
            order,
            archive_index,
            folders,
            stage: Stage::Ready,
            position: 0,
            pending: String::new(),
        }
    }

    fn enter_entry(&mut self, from: usize, overwrite: bool) -> (action: ExtractAction)
        requires
            old(self).stage == Stage::Closed,
            old(self)@.settled(old(self)@.order.len() as int),
        ensures
            (final(self)@, action@) == old(self)@.enter_entry(from as int, overwrite),
    {
        proof {
            use_type_invariant(&*self);
        }
        let ghost before = self@;
        let n: usize = self.archive_index.len();
        let mut i: usize = from;
        while i < n
            invariant
                n == before.entries.len(),
                self@ == before,
                before == old(self)@,
                before.stage == Stage::Closed,
                before.consistent(),
                before.settled(before.order.len() as int),
                from <= i,
                before.enter_entry(i as int, overwrite) == before.enter_entry(
                    from as int,
                    overwrite,
                ),
            decreases n - i,
        {
            let entry = match self.archive_index.entry(i) {
                Some(entry) => entry,
                None => vstd::pervasive::unreached(),
            };
            let entry_number = entry.index;
            let source = entry.path.clone();
            assert(before.entries[i as int] == (EntryView {
                path: source@,
                index: entry_number as int,
            }));
            match match_submission_path(source.as_str()) {
                Err(e) => {
                    assert(self@.closed() == self@);
                    return ExtractAction::Abort(e);
                },
                Ok(None) => {},
                Ok(Some(matched)) => {
                    assert(before.folders.contains_key(matched.team_id as int)
                        == self.folders@.contains_key(matched.team_id));
                    let folder = match self.folders.get(&matched.team_id) {
                        Some(folder) => folder.clone(),
                        None => {
                            assert(self@.closed() == self@);
                            return ExtractAction::Abort(IliasError::UnknownTeam(matched.team_id));
                        },
                    };
                    let mut file_name = matched.stem.clone();
                    file_name.append(".");
                    file_name.append(matched.extension.as_str());
                    let mut destination = folder.clone();
                    destination.append("/");
                    destination.append(file_name.as_str());
                    proof {
                        reveal_strlit(".");
                        reveal_strlit("/");
                        assert("."@ =~= seq!['.']);
                        assert("/"@ =~= seq!['/']);
                        lemma_enter_entry(before, i as int, overwrite);
                    }
                    self.position = i;
                    self.pending = destination;
                    proof {
                        lemma_same_run_same_folders(before, self@);
                    }
                    self.stage = Stage::Copying;
                    return ExtractAction::CopyEntry {
                        team_id: matched.team_id,
                        entry: entry_number,
                        source,
                        folder,
                        file_name,
                        overwrite,
                    };
                },
            }
            i += 1;
        }
        assert(self@.closed() == self@);
        ExtractAction::Finished
    }

    fn enter_team(&mut self, at: usize, overwrite: bool) -> (action: ExtractAction)
        requires
            old(self).stage == Stage::Closed,
            at <= old(self)@.order.len(),
            old(self)@.settled(at as int),
        ensures
            (final(self)@, action@) == old(self)@.enter_team(at as int, overwrite),
    {
        proof {
            use_type_invariant(&*self);
        }
        let ghost before = self@;
        if at >= self.order.len() {
            return self.enter_entry(0, overwrite);
        }
        let team_id = self.order[at];
        assert(before.order[at as int] == team_id);
        assert(before.teams.contains_key(before.order[at as int]));
        let named = match self.teams.get(&team_id) {
            Some(team) => team.folder_name(),
            None => vstd::pervasive::unreached(),
        };
        match named {
            Err(e) => {
                assert(self@.closed() == self@);
                ExtractAction::Abort(e)
            },
            Ok(folder) => {
                proof {
                    lemma_enter_team(before, at as int, overwrite);
                }
                self.position = at;
                self.pending = folder.clone();
                proof {
                    lemma_same_run_same_folders(before, self@);
                }
                self.stage = Stage::Probing;
                ExtractAction::ProbeFolder { team_id, folder }
            },
        }
    }

    fn settle(&mut self, overwrite: bool) -> (action: ExtractAction)
        requires
            old(self).stage == Stage::Closed,
            (ExtractorView { stage: Stage::Summarizing, ..old(self)@ }).consistent(),
        ensures
            (final(self)@, action@) == old(self)@.settle(overwrite),
    {
        let ghost before = self@;
        let ghost waiting = ExtractorView { stage: Stage::Summarizing, ..before };
        proof {
            lemma_settle(waiting, overwrite);
        }
        assert(0 <= waiting.position < waiting.order.len());
        let _ = self.order.len();
        let team_id = self.order[self.position];
        let next = self.position + 1;
        let folder = self.pending.clone();
        let mut folders: HashMap<i32, String> = HashMap::new();
        proof {
            assert(folder_views(folders@) =~= Map::<int, Seq<char>>::empty());
        }
        core::mem::swap(&mut self.folders, &mut folders);
        let ghost had = folders@;
        folders.insert(team_id, folder);
        proof {
            assert(folder_views(folders@) =~= before.folders.insert(
                team_id as int,
                before.pending,
            ));
            let next = ExtractorView {
                folders: before.folders.insert(before.team_id(), before.pending),
                ..before
            };
            lemma_same_run_same_folders(
                ExtractorView {
                    folders: waiting.folders.insert(waiting.team_id(), waiting.pending),
                    ..waiting
                },
                next,
            );
        }
        self.folders = folders;
        self.enter_team(next, overwrite)
    }

    fn folder_ready(&mut self, summary: bool, overwrite: bool) -> (action: ExtractAction)
        requires
            old(self).stage == Stage::Closed,
            (ExtractorView { stage: Stage::Summarizing, ..old(self)@ }).consistent(),
        ensures
            (final(self)@, action@) == old(self)@.folder_ready(summary, overwrite),
    {
        if !summary {
            return self.settle(overwrite);
        }
        let ghost waiting = ExtractorView { stage: Stage::Summarizing, ..self@ };
        assert(0 <= waiting.position < waiting.order.len());
        let team_id = self.order[self.position];
        assert(self@.teams.contains_key(self@.order[self.position as int]));
        let text = match self.teams.get(&team_id) {
            Some(team) => team.generate_summary(),
            None => vstd::pervasive::unreached(),
        };
        let folder = self.pending.clone();
        self.stage = Stage::Summarizing;
        ExtractAction::WriteSummary { team_id, folder, file_name: "summary.md".to_owned(), text }
    }

    /// Performs the action
    ///
    /// Takes the run one step further: `event` tells how the last action
    /// went, the result is what to do next. The first call reports `Started`.
    pub fn extract(&mut self, configuration: &IliasConfiguration, event: ExtractEvent) -> (action:
        ExtractAction)
        ensures
            old(self)@.consistent(),
            final(self)@.consistent(),
            (final(self)@, action@) == old(self)@.step(
                configuration.summary,
                configuration.overwrite,
                event@,
            ),
    {
        proof {
            use_type_invariant(&*self);
            lemma_step_keeps_consistent(
                self@,
                configuration.summary,
                configuration.overwrite,
                event@,
            );
        }
        let ghost before = self@;
        let stage = self.stage;
        let summary = configuration.summary;
        let overwrite = configuration.overwrite;
        self.stage = Stage::Closed;
        assert(self@ == before.closed());
        proof {
            lemma_stage_is_left_behind(before, self@, overwrite);
        }
        match stage {
            Stage::Ready => match event {
                ExtractEvent::Started => self.enter_team(0, overwrite),
                _ => ExtractAction::Abort(IliasError::UnexpectedEvent),
            },
            Stage::Probing => match event {
                ExtractEvent::Probed(FolderState::Occupied) => ExtractAction::Abort(
                    IliasError::TargetConflict(self.pending.clone()),
                ),
                ExtractEvent::Probed(FolderState::Missing) => {
                    let team_id = self.order[self.position];
                    let folder = self.pending.clone();
                    self.stage = Stage::Creating;
                    ExtractAction::CreateFolder { team_id, folder }
                },
                ExtractEvent::Probed(FolderState::Directory) => self.folder_ready(
                    summary,
                    overwrite,
                ),
                ExtractEvent::Failed(what) => ExtractAction::Abort(IliasError::Io(what)),
                _ => ExtractAction::Abort(IliasError::UnexpectedEvent),
            },
            Stage::Creating => match event {
                ExtractEvent::Completed => self.folder_ready(summary, overwrite),
                ExtractEvent::Failed(what) => ExtractAction::Abort(IliasError::Io(what)),
                _ => ExtractAction::Abort(IliasError::UnexpectedEvent),
            },
            Stage::Summarizing => match event {
                ExtractEvent::Completed => self.settle(overwrite),
                ExtractEvent::Failed(what) => ExtractAction::Abort(IliasError::Io(what)),
                _ => ExtractAction::Abort(IliasError::UnexpectedEvent),
            },
            Stage::Copying => match event {
                ExtractEvent::Completed => {
                    assert(0 <= before.position < before.entries.len());
                    let _ = self.archive_index.len();
                    let next = self.position + 1;
                    self.enter_entry(next, overwrite)
                },
                ExtractEvent::DestinationExists => if overwrite {
                    ExtractAction::Abort(IliasError::UnexpectedEvent)
                } else {
                    ExtractAction::Abort(IliasError::AlreadyExists(self.pending.clone()))
                },
                ExtractEvent::Failed(what) => ExtractAction::Abort(IliasError::Io(what)),
                _ => ExtractAction::Abort(IliasError::UnexpectedEvent),
            },
            Stage::Closed => ExtractAction::Abort(IliasError::UnexpectedEvent),
        }
    }
}

} // verus!
