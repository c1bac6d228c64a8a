//! Whole runs, on paper: an extractor driven against a disk that never
//! fails. Nothing here runs; it says what a run leaves behind, and that a
//! second run changes nothing.

use crate::error::ErrorView;
use crate::extractor::{
    file_in, file_name_of, summary_file_name, ActionView, EventView, ExtractorView, FolderState,
    Stage,
};
use crate::path::submission_match;
use crate::submission::{folder_name_of, summary_of};
use vstd::prelude::*;

verus! {

/// What a file holds: a text that was written, or the bytes of an archive
/// entry, named by the entry's number.
pub enum FileView {
    Text(Seq<char>),
    Entry(int),
}

/// One change to the disk.
pub enum ChangeView {
    /// This folder is there afterwards.
    Folder(Seq<char>),
    /// This file holds this afterwards.
    File(Seq<char>, FileView),
}

/// The output folder: the folders in it and the files in it, by their paths
/// below the output root.
pub struct DiskView {
    pub folders: Set<Seq<char>>,
    pub files: Map<Seq<char>, FileView>,
}

impl DiskView {
    /// The disk after one change.
    pub open spec fn changed(self, change: ChangeView) -> DiskView {
        match change {
            ChangeView::Folder(folder) => DiskView { folders: self.folders.insert(folder), ..self },
            ChangeView::File(file, content) => DiskView {
                files: self.files.insert(file, content),
                ..self
            },
        }
    }

    /// The disk after a list of changes, made in order.
    pub open spec fn changed_by(self, changes: Seq<ChangeView>) -> DiskView
        decreases changes.len(),
    {
        if changes.len() == 0 {
            self
        } else {
            self.changed(changes[0]).changed_by(changes.drop_first())
        }
    }

    /// What is found at a folder's place.
    pub open spec fn probe(self, folder: Seq<char>) -> FolderState {
        if self.folders.contains(folder) {
            FolderState::Directory
        } else if self.files.contains_key(folder) {
            FolderState::Occupied
        } else {
            FolderState::Missing
        }
    }

    /// What carrying out an action does to the disk, and what is reported
    /// back, when nothing fails.
    pub open spec fn carry_out(self, action: ActionView) -> (DiskView, EventView) {
        match action {
            ActionView::ProbeFolder { folder, .. } => (self, EventView::Probed(self.probe(folder))),
            ActionView::CreateFolder { folder, .. } => (
                self.changed(ChangeView::Folder(folder)),
                EventView::Completed,
            ),
            ActionView::WriteSummary { folder, file_name, text, .. } => (
                self.changed(ChangeView::File(file_in(folder, file_name), FileView::Text(text))),
                EventView::Completed,
            ),
            ActionView::CopyEntry { entry, folder, file_name, overwrite, .. } => {
                if !overwrite && self.files.contains_key(file_in(folder, file_name)) {
                    (self, EventView::DestinationExists)
                } else {
                    (
                        self.changed(
                            ChangeView::File(file_in(folder, file_name), FileView::Entry(entry)),
                        ),
                        EventView::Completed,
                    )
                }
            },
            ActionView::Finished => (self, EventView::Completed),
            ActionView::Abort(_) => (self, EventView::Completed),
        }
    }
}

/// Carries out `action` and every action that follows, at most `steps` of
/// them: the disk that is left, and how the run ended if it did.
pub open spec fn drive(
    state: ExtractorView,
    action: ActionView,
    summary: bool,
    overwrite: bool,
    disk: DiskView,
    steps: nat,
) -> (DiskView, Option<Result<(), ErrorView>>)
    decreases steps,
{
    match action {
        ActionView::Finished => (disk, Some(Ok(()))),
        ActionView::Abort(e) => (disk, Some(Err(e))),
        _ => if steps == 0 {
            (disk, None)
        } else {
            let (after, event) = disk.carry_out(action);
            let (next, then) = state.step(summary, overwrite, event);
            drive(next, then, summary, overwrite, after, (steps - 1) as nat)
        },
    }
}

/// A whole run of at most `steps` actions from a fresh extractor.
pub open spec fn run(
    state: ExtractorView,
    summary: bool,
    overwrite: bool,
    disk: DiskView,
    steps: nat,
) -> (DiskView, Option<Result<(), ErrorView>>) {
    let (next, action) = state.step(summary, overwrite, EventView::Started);
    drive(next, action, summary, overwrite, disk, steps)
}

/// The copies that are due from index position `from` on, in order, or the
/// error that the walk through the index ends in.
pub open spec fn copies_from(state: ExtractorView, from: int) -> Result<Seq<ChangeView>, ErrorView>
    decreases state.entries.len() - from,
{
    if from < 0 || from >= state.entries.len() {
        Ok(Seq::empty())
    } else {
        let entry = state.entries[from];
        match submission_match(entry.path) {
            Err(e) => Err(e),
            Ok(None) => copies_from(state, from + 1),
            Ok(Some(matched)) => if state.folders.contains_key(matched.team_id) {
                match copies_from(state, from + 1) {
                    Err(e) => Err(e),
                    Ok(rest) => Ok(
                        seq![
                            ChangeView::File(
                                file_in(state.folders[matched.team_id], file_name_of(matched)),
                                FileView::Entry(entry.index),
                            ),
                        ] + rest,
                    ),
                }
            } else {
                Err(ErrorView::UnknownTeam(matched.team_id))
            },
        }
    }
}

/// Everything that is due from team position `at` on: for each team its
/// folder and, if wanted, its summary; then the copies.
pub open spec fn changes_from(state: ExtractorView, at: int, summary: bool) -> Result<
    Seq<ChangeView>,
    ErrorView,
>
    decreases state.order.len() - at,
{
    if at < 0 || at >= state.order.len() {
        copies_from(state, 0)
    } else {
        let team_id = state.order[at];
        match folder_name_of(state.teams[team_id].members) {
            Err(e) => Err(e),
            Ok(folder) => {
                let own = if summary {
                    seq![
                        ChangeView::Folder(folder),
                        ChangeView::File(
                            file_in(folder, summary_file_name()),
                            FileView::Text(summary_of(state.teams[team_id])),
                        ),
                    ]
                } else {
                    seq![ChangeView::Folder(folder)]
                };
                match changes_from(
                    ExtractorView { folders: state.folders.insert(team_id, folder), ..state },
                    at + 1,
                    summary,
                ) {
                    Err(e) => Err(e),
                    Ok(rest) => Ok(own + rest),
                }
            },
        }
    }
}

/// What is still due while `state` waits for its pending action.
pub open spec fn due(state: ExtractorView, summary: bool) -> Result<Seq<ChangeView>, ErrorView> {
    match state.stage {
        Stage::Ready => changes_from(state, 0, summary),
        Stage::Probing | Stage::Creating | Stage::Summarizing => changes_from(
            state,
            state.position,
            summary,
        ),
        Stage::Copying => copies_from(state, state.position),
        Stage::Closed => Ok(Seq::empty()),
    }
}

/// Whether `action` is what `state` waits for.
pub open spec fn awaits(state: ExtractorView, action: ActionView, overwrite: bool) -> bool {
    match state.stage {
        Stage::Ready => false,
        Stage::Probing => action == (ActionView::ProbeFolder {
            team_id: state.team_id(),
            folder: state.pending,
        }),
        Stage::Creating => action == (ActionView::CreateFolder {
            team_id: state.team_id(),
            folder: state.pending,
        }),
        Stage::Summarizing => action == (ActionView::WriteSummary {
            team_id: state.team_id(),
            folder: state.pending,
            file_name: summary_file_name(),
            text: summary_of(state.teams[state.team_id()]),
        }),
        Stage::Copying => {
            let entry = state.entries[state.position];
            &&& submission_match(entry.path) matches Ok(Some(matched))
                && state.folders.contains_key(matched.team_id) && action
                == (ActionView::CopyEntry {
                team_id: matched.team_id,
                entry: entry.index,
                source: entry.path,
                folder: state.folders[matched.team_id],
                file_name: file_name_of(matched),
                overwrite,
            })
        },
        Stage::Closed => action is Finished || action is Abort,
    }
}

/// What is due depends on the teams, the index and the folders in place, not
/// on where the run stands.
proof fn lemma_copies_of_same_run(first: ExtractorView, second: ExtractorView, from: int)
    requires
        first.same_run(second),
        first.folders == second.folders,
    ensures
        copies_from(first, from) == copies_from(second, from),
    decreases first.entries.len() - from,
{
    if 0 <= from < first.entries.len() {
        lemma_copies_of_same_run(first, second, from + 1);
    }
}

proof fn lemma_changes_of_same_run(
    first: ExtractorView,
    second: ExtractorView,
    at: int,
    summary: bool,
)
    requires
        first.same_run(second),
        first.folders == second.folders,
    ensures
        changes_from(first, at, summary) == changes_from(second, at, summary),
    decreases first.order.len() - at,
{
    if 0 <= at < first.order.len() {
        let team_id = first.order[at];
        match folder_name_of(first.teams[team_id].members) {
            Ok(folder) => {
                lemma_changes_of_same_run(
                    ExtractorView { folders: first.folders.insert(team_id, folder), ..first },
                    ExtractorView { folders: second.folders.insert(team_id, folder), ..second },
                    at + 1,
                    summary,
                );
            },
            Err(_) => {},
        }
    } else {
        lemma_copies_of_same_run(first, second, 0);
    }
}

/// The walk through the index asks for the first copy that is due, finishes
/// if none is, and gives up where the copies cannot be told.
proof fn lemma_enter_entry_is_due(state: ExtractorView, from: int, overwrite: bool)
    requires
        0 <= from,
    ensures
        ({
            let (next, action) = state.enter_entry(from, overwrite);
            &&& awaits(next, action, overwrite)
            &&& action is Abort ==> copies_from(state, from) is Err
            &&& action is Finished ==> copies_from(state, from) == Ok::<
                Seq<ChangeView>,
                ErrorView,
            >(Seq::empty())
            &&& !(action is Abort) && !(action is Finished) ==> next.stage == Stage::Copying
                && copies_from(next, next.position) == copies_from(state, from)
        }),
    decreases state.entries.len() - from,
{
    let (next, action) = state.enter_entry(from, overwrite);
    if from < state.entries.len() {
        match submission_match(state.entries[from].path) {
            Ok(None) => {
                lemma_enter_entry_is_due(state, from + 1, overwrite);
            },
            Ok(Some(matched)) => {
                if state.folders.contains_key(matched.team_id) {
                    lemma_copies_of_same_run(next, state, from);
                }
            },
            Err(_) => {},
        }
    }
}

/// Turning to a team asks for what is due first from that team on.
proof fn lemma_enter_team_is_due(state: ExtractorView, at: int, summary: bool, overwrite: bool)
    requires
        0 <= at,
    ensures
        ({
            let (next, action) = state.enter_team(at, overwrite);
            &&& awaits(next, action, overwrite)
            &&& action is Abort ==> changes_from(state, at, summary) is Err
            &&& !(action is Abort) ==> due(next, summary) == changes_from(state, at, summary)
        }),
{
    let (next, action) = state.enter_team(at, overwrite);
    if at >= state.order.len() {
        lemma_enter_entry_is_due(state, 0, overwrite);
    } else {
        if folder_name_of(state.teams[state.order[at]].members) is Ok {
            lemma_changes_of_same_run(next, state, at, summary);
        }
    }
}

/// The first of a list of changes is made first.
pub proof fn lemma_changed_by_front(disk: DiskView, first: ChangeView, rest: Seq<ChangeView>)
    ensures
        disk.changed_by(seq![first] + rest) == disk.changed(first).changed_by(rest),
{
    assert((seq![first] + rest).drop_first() == rest);
    assert((seq![first] + rest)[0] == first);
}

/// The changes that the team at the current position is due itself: its
/// folder, and its summary if summaries are wanted.
pub open spec fn own_changes(state: ExtractorView, summary: bool) -> Seq<ChangeView> {
    let folder = ChangeView::Folder(state.pending);
    if summary {
        seq![
            folder,
            ChangeView::File(
                file_in(state.pending, summary_file_name()),
                FileView::Text(summary_of(state.teams[state.team_id()])),
            ),
        ]
    } else {
        seq![folder]
    }
}

/// The state once the current team's folder has been entered in the map.
pub open spec fn with_folder(state: ExtractorView) -> ExtractorView {
    ExtractorView { folders: state.folders.insert(state.team_id(), state.pending), ..state }
}

/// While a team's folder is in the making, what is due is the team's own
/// changes and then whatever is due from the next team on.
proof fn lemma_due_in_folder_stage(state: ExtractorView, summary: bool)
    requires
        state.consistent(),
        state.stage == Stage::Probing || state.stage == Stage::Creating || state.stage
            == Stage::Summarizing,
    ensures
        due(state, summary) == match changes_from(
            with_folder(state),
            state.position + 1,
            summary,
        ) {
            Err(e) => Err::<Seq<ChangeView>, ErrorView>(e),
            Ok(rest) => Ok(own_changes(state, summary) + rest),
        },
{
}

/// Settling a team asks for what is due first from the next team on.
proof fn lemma_settle_is_due(state: ExtractorView, summary: bool, overwrite: bool)
    requires
        state.consistent(),
        state.stage == Stage::Probing || state.stage == Stage::Creating || state.stage
            == Stage::Summarizing,
    ensures
        ({
            let (next, action) = state.settle(overwrite);
            &&& next.consistent()
            &&& awaits(next, action, overwrite)
            &&& next.stage != Stage::Summarizing
            &&& !(action is Abort) ==> due(next, summary) == changes_from(
                with_folder(state),
                state.position + 1,
                summary,
            )
        }),
{
    crate::extractor::lemma_settle(state, overwrite);
    lemma_enter_team_is_due(with_folder(state), state.position + 1, summary, overwrite);
    lemma_enter_team_stage(with_folder(state), state.position + 1, overwrite);
}

/// Turning to a team or to the entries never asks for a summary.
proof fn lemma_enter_team_stage(state: ExtractorView, at: int, overwrite: bool)
    ensures
        state.enter_team(at, overwrite).0.stage != Stage::Summarizing,
        state.enter_team(at, overwrite).0.stage != Stage::Creating,
{
    lemma_enter_entry_stage(state, 0, overwrite);
}

proof fn lemma_enter_entry_stage(state: ExtractorView, from: int, overwrite: bool)
    ensures
        state.enter_entry(from, overwrite).0.stage == Stage::Copying || state.enter_entry(
            from,
            overwrite,
        ).0.stage == Stage::Closed,
    decreases state.entries.len() - from,
{
    if 0 <= from < state.entries.len() {
        lemma_enter_entry_stage(state, from + 1, overwrite);
    }
}

/// What one action and the step after it do to what is due: the action makes
/// the first of the due changes, or none, and the rest stays due.
pub open spec fn step_keeps_due(
    state: ExtractorView,
    action: ActionView,
    summary: bool,
    overwrite: bool,
    disk: DiskView,
) -> bool {
    let (after, event) = disk.carry_out(action);
    let (next, then) = state.step(summary, overwrite, event);
    &&& next.consistent()
    &&& awaits(next, then, overwrite)
    &&& next.stage == Stage::Summarizing ==> summary && after.folders.contains(next.pending)
    &&& !(then is Abort) && due(next, summary) is Ok ==> due(state, summary) is Ok
        && disk.changed_by(due(state, summary)->Ok_0) == after.changed_by(
        due(next, summary)->Ok_0,
    )
}

proof fn lemma_probe_keeps_due(
    state: ExtractorView,
    action: ActionView,
    summary: bool,
    overwrite: bool,
    disk: DiskView,
)
    requires
        state.consistent(),
        state.stage == Stage::Probing,
        awaits(state, action, overwrite),
    ensures
        step_keeps_due(state, action, summary, overwrite, disk),
{
    let (after, event) = disk.carry_out(action);
    let (next, then) = state.step(summary, overwrite, event);
    crate::extractor::lemma_step_keeps_consistent(state, summary, overwrite, event);
    lemma_due_in_folder_stage(state, summary);
    let found = disk.probe(state.pending);
    if found == FolderState::Missing {
        lemma_changes_of_same_run(next, state, state.position, summary);
    } else if found == FolderState::Directory {
        assert(disk.changed(ChangeView::Folder(state.pending)).folders =~= disk.folders);
        assert(disk.changed(ChangeView::Folder(state.pending)) == disk);
        if summary {
            lemma_changes_of_same_run(next, state, state.position, summary);
        } else {
            lemma_settle_is_due(state, summary, overwrite);
            let rest = changes_from(with_folder(state), state.position + 1, summary);
            if !(then is Abort) && rest is Ok {
                lemma_changed_by_front(disk, ChangeView::Folder(state.pending), rest->Ok_0);
            }
        }
    }
}

proof fn lemma_create_keeps_due(
    state: ExtractorView,
    action: ActionView,
    summary: bool,
    overwrite: bool,
    disk: DiskView,
)
    requires
        state.consistent(),
        state.stage == Stage::Creating,
        awaits(state, action, overwrite),
    ensures
        step_keeps_due(state, action, summary, overwrite, disk),
{
    let (after, event) = disk.carry_out(action);
    let (next, then) = state.step(summary, overwrite, event);
    crate::extractor::lemma_step_keeps_consistent(state, summary, overwrite, event);
    lemma_due_in_folder_stage(state, summary);
    let folder = ChangeView::Folder(state.pending);
    assert(after == disk.changed(folder));
    assert(after.changed(folder).folders =~= after.folders);
    assert(after.changed(folder) == after);
    let rest = changes_from(with_folder(state), state.position + 1, summary);
    if summary {
        lemma_changes_of_same_run(next, state, state.position, summary);
        if rest is Ok {
            let text = ChangeView::File(
                file_in(state.pending, summary_file_name()),
                FileView::Text(summary_of(state.teams[state.team_id()])),
            );
            assert(own_changes(state, summary) + rest->Ok_0 == seq![folder] + (seq![text]
                + rest->Ok_0));
            lemma_changed_by_front(disk, folder, seq![text] + rest->Ok_0);
            lemma_changed_by_front(after, folder, seq![text] + rest->Ok_0);
        }
    } else {
        lemma_settle_is_due(state, summary, overwrite);
        if !(then is Abort) && rest is Ok {
            lemma_changed_by_front(disk, folder, rest->Ok_0);
        }
    }
}

proof fn lemma_summary_keeps_due(
    state: ExtractorView,
    action: ActionView,
    summary: bool,
    overwrite: bool,
    disk: DiskView,
)
    requires
        state.consistent(),
        state.stage == Stage::Summarizing,
        awaits(state, action, overwrite),
        disk.folders.contains(state.pending),
        summary,
    ensures
        step_keeps_due(state, action, summary, overwrite, disk),
{
    let (after, event) = disk.carry_out(action);
    let (next, then) = state.step(summary, overwrite, event);
    crate::extractor::lemma_step_keeps_consistent(state, summary, overwrite, event);
    lemma_due_in_folder_stage(state, summary);
    lemma_settle_is_due(state, summary, overwrite);
    let folder = ChangeView::Folder(state.pending);
    let text = ChangeView::File(
        file_in(state.pending, summary_file_name()),
        FileView::Text(summary_of(state.teams[state.team_id()])),
    );
    assert(disk.changed(folder).folders =~= disk.folders);
    assert(disk.changed(folder) == disk);
    assert(after == disk.changed(text));
    let rest = changes_from(with_folder(state), state.position + 1, summary);
    if !(then is Abort) && rest is Ok {
        assert(own_changes(state, summary) + rest->Ok_0 == seq![folder] + (seq![text]
            + rest->Ok_0));
        lemma_changed_by_front(disk, folder, seq![text] + rest->Ok_0);
        lemma_changed_by_front(disk, text, rest->Ok_0);
    }
}

proof fn lemma_copy_keeps_due(
    state: ExtractorView,
    action: ActionView,
    summary: bool,
    overwrite: bool,
    disk: DiskView,
)
    requires
        state.consistent(),
        state.stage == Stage::Copying,
        awaits(state, action, overwrite),
    ensures
        step_keeps_due(state, action, summary, overwrite, disk),
{
    let (after, event) = disk.carry_out(action);
    let (next, then) = state.step(summary, overwrite, event);
    crate::extractor::lemma_step_keeps_consistent(state, summary, overwrite, event);
    let entry = state.entries[state.position];
    let matched = submission_match(entry.path)->Ok_0->0;
    let target = file_in(state.folders[matched.team_id], file_name_of(matched));
    let copy = ChangeView::File(target, FileView::Entry(entry.index));
    if !overwrite && disk.files.contains_key(target) {
    } else {
        lemma_enter_entry_is_due(state, state.position + 1, overwrite);
        lemma_enter_entry_stage(state, state.position + 1, overwrite);
        let rest = copies_from(state, state.position + 1);
        if !(then is Abort) && rest is Ok {
            lemma_changed_by_front(disk, copy, rest->Ok_0);
        }
    }
}

/// A run that finishes has had nothing in its way, and it leaves the disk
/// with exactly the changes that were due, made in order.
pub proof fn lemma_drive_makes_what_is_due(
    state: ExtractorView,
    action: ActionView,
    summary: bool,
    overwrite: bool,
    disk: DiskView,
    steps: nat,
)
    requires
        state.consistent(),
        awaits(state, action, overwrite),
        state.stage == Stage::Summarizing ==> disk.folders.contains(state.pending) && summary,
        drive(state, action, summary, overwrite, disk, steps).1 == Some(Ok::<(), ErrorView>(())),
    ensures
        due(state, summary) is Ok,
        drive(state, action, summary, overwrite, disk, steps).0 == disk.changed_by(
            due(state, summary)->Ok_0,
        ),
    decreases steps,
{
    if state.stage == Stage::Closed {
    } else {
        let (after, event) = disk.carry_out(action);
        let (next, then) = state.step(summary, overwrite, event);
        match state.stage {
            Stage::Probing => lemma_probe_keeps_due(state, action, summary, overwrite, disk),
            Stage::Creating => lemma_create_keeps_due(state, action, summary, overwrite, disk),
            Stage::Summarizing => lemma_summary_keeps_due(state, action, summary, overwrite, disk),
            _ => lemma_copy_keeps_due(state, action, summary, overwrite, disk),
        }
        assert(step_keeps_due(state, action, summary, overwrite, disk));
        lemma_drive_makes_what_is_due(next, then, summary, overwrite, after, (steps - 1) as nat);
    }
}

/// A whole run that finishes leaves the disk with the changes that are due
/// from the first team on: every folder, every summary, every copy, in order.
pub proof fn lemma_run_makes_what_is_due(
    state: ExtractorView,
    summary: bool,
    overwrite: bool,
    disk: DiskView,
    steps: nat,
)
    requires
        state.consistent(),
        state.stage == Stage::Ready,
        run(state, summary, overwrite, disk, steps).1 == Some(Ok::<(), ErrorView>(())),
    ensures
        changes_from(state, 0, summary) is Ok,
        run(state, summary, overwrite, disk, steps).0 == disk.changed_by(
            changes_from(state, 0, summary)->Ok_0,
        ),
{
    let (next, action) = state.step(summary, overwrite, EventView::Started);
    crate::extractor::lemma_step_keeps_consistent(state, summary, overwrite, EventView::Started);
    lemma_enter_team_is_due(state, 0, summary, overwrite);
    lemma_enter_team_stage(state, 0, overwrite);
    lemma_drive_makes_what_is_due(next, action, summary, overwrite, disk, steps);
}

/// An empty output folder.
pub open spec fn empty_disk() -> DiskView {
    DiskView { folders: Set::empty(), files: Map::empty() }
}

/// One disk laid over another: the folders of both, and the files of both,
/// with those of `over` on top.
pub open spec fn laid_over(under: DiskView, over: DiskView) -> DiskView {
    DiskView {
        folders: under.folders.union(over.folders),
        files: under.files.union_prefer_right(over.files),
    }
}

/// Changing a disk is laying over it what the changes make of an empty disk.
pub proof fn lemma_changes_lie_over(disk: DiskView, changes: Seq<ChangeView>)
    ensures
        disk.changed_by(changes) == laid_over(disk, empty_disk().changed_by(changes)),
    decreases changes.len(),
{
    if changes.len() == 0 {
        let made = laid_over(disk, empty_disk());
        assert(made.folders =~= disk.folders);
        assert(made.files =~= disk.files);
    } else {
        let first = changes[0];
        let rest = changes.drop_first();
        lemma_changes_lie_over(disk.changed(first), rest);
        lemma_changes_lie_over(empty_disk().changed(first), rest);
        let top = empty_disk().changed_by(rest);
        let one = laid_over(disk.changed(first), top);
        let other = laid_over(disk, laid_over(empty_disk().changed(first), top));
        assert(one.folders =~= other.folders);
        assert(one.files =~= other.files);
    }
}

/// Making the same changes a second time changes nothing.
pub proof fn lemma_same_changes_twice(disk: DiskView, changes: Seq<ChangeView>)
    ensures
        disk.changed_by(changes).changed_by(changes) == disk.changed_by(changes),
{
    lemma_changes_lie_over(disk, changes);
    lemma_changes_lie_over(disk.changed_by(changes), changes);
    let top = empty_disk().changed_by(changes);
    let once = laid_over(disk, top);
    let twice = laid_over(once, top);
    assert(twice.folders =~= once.folders);
    assert(twice.files =~= once.files);
}

/// Whether everything that the changes make is on the disk already: every
/// folder that they create and every file that they write.
pub open spec fn in_place(disk: DiskView, changes: Seq<ChangeView>) -> bool {
    forall|i: int|
        0 <= i < changes.len() ==> match #[trigger] changes[i] {
            ChangeView::Folder(folder) => disk.folders.contains(folder),
            ChangeView::File(file, _) => disk.files.contains_key(file),
        }
}

/// Where the first copy among the changes goes.
pub open spec fn first_copy(changes: Seq<ChangeView>) -> Option<Seq<char>>
    decreases changes.len(),
{
    if changes.len() == 0 {
        None
    } else {
        match changes[0] {
            ChangeView::File(file, FileView::Entry(_)) => Some(file),
            _ => first_copy(changes.drop_first()),
        }
    }
}

/// How a run ends on a disk where everything is in place already: with
/// overwriting on it finishes; with overwriting off it stops at the first
/// copy, if there is one, because the destination exists.
pub open spec fn outcome_in_place(overwrite: bool, changes: Seq<ChangeView>) -> Result<
    (),
    ErrorView,
> {
    match first_copy(changes) {
        Some(file) => if overwrite {
            Ok(())
        } else {
            Err(ErrorView::AlreadyExists(file))
        },
        None => Ok(()),
    }
}

/// After the changes are made, everything that they make is in place.
pub proof fn lemma_changes_are_in_place(disk: DiskView, changes: Seq<ChangeView>)
    ensures
        in_place(disk.changed_by(changes), changes),
    decreases changes.len(),
{
    if changes.len() > 0 {
        let first = changes[0];
        let rest = changes.drop_first();
        lemma_changes_are_in_place(disk.changed(first), rest);
        lemma_changes_lie_over(disk.changed(first), rest);
        let made = disk.changed_by(changes);
        assert forall|i: int| 0 <= i < changes.len() implies match #[trigger] changes[i] {
            ChangeView::Folder(folder) => made.folders.contains(folder),
            ChangeView::File(file, _) => made.files.contains_key(file),
        } by {
            if i > 0 {
                assert(changes[i] == rest[i - 1]);
            }
        }
    }
}

proof fn lemma_in_place_stays(disk: DiskView, change: ChangeView, changes: Seq<ChangeView>)
    requires
        in_place(disk, changes),
    ensures
        in_place(disk.changed(change), changes),
{
    assert forall|i: int| 0 <= i < changes.len() implies match #[trigger] changes[i] {
        ChangeView::Folder(folder) => disk.changed(change).folders.contains(folder),
        ChangeView::File(file, _) => disk.changed(change).files.contains_key(file),
    } by {
        let c = changes[i];
    }
}

proof fn lemma_in_place_of_rest(disk: DiskView, front: Seq<ChangeView>, rest: Seq<ChangeView>)
    requires
        in_place(disk, front + rest),
    ensures
        in_place(disk, rest),
        in_place(disk, front),
{
    assert forall|i: int| 0 <= i < rest.len() implies match #[trigger] rest[i] {
        ChangeView::Folder(folder) => disk.folders.contains(folder),
        ChangeView::File(file, _) => disk.files.contains_key(file),
    } by {
        assert((front + rest)[front.len() + i] == rest[i]);
    }
    assert forall|i: int| 0 <= i < front.len() implies match #[trigger] front[i] {
        ChangeView::Folder(folder) => disk.folders.contains(folder),
        ChangeView::File(file, _) => disk.files.contains_key(file),
    } by {
        assert((front + rest)[i] == front[i]);
    }
}

/// A team's own changes hold no copy.
proof fn lemma_first_copy_after_own(state: ExtractorView, summary: bool, rest: Seq<ChangeView>)
    ensures
        first_copy(own_changes(state, summary) + rest) == first_copy(rest),
{
    let own = own_changes(state, summary);
    let all = own + rest;
    if summary {
        assert(all.drop_first().drop_first() == rest);
        assert(all[0] == own[0]);
        assert(all.drop_first()[0] == own[1]);
        assert(first_copy(all) == first_copy(all.drop_first()));
    } else {
        assert(all.drop_first() == rest);
        assert(all[0] == own[0]);
    }
}

/// A run that has ended stays as it is however many more steps it is given.
proof fn lemma_more_steps(
    state: ExtractorView,
    action: ActionView,
    summary: bool,
    overwrite: bool,
    disk: DiskView,
    steps: nat,
    more: nat,
)
    requires
        drive(state, action, summary, overwrite, disk, steps).1 is Some,
        more >= steps,
    ensures
        drive(state, action, summary, overwrite, disk, more) == drive(
            state,
            action,
            summary,
            overwrite,
            disk,
            steps,
        ),
    decreases steps,
{
    if action is Finished || action is Abort {
    } else {
        let (after, event) = disk.carry_out(action);
        let (next, then) = state.step(summary, overwrite, event);
        lemma_more_steps(
            next,
            then,
            summary,
            overwrite,
            after,
            (steps - 1) as nat,
            (more - 1) as nat,
        );
    }
}

/// A run that has not ended takes its next step.
proof fn lemma_drive_goes_on(
    state: ExtractorView,
    action: ActionView,
    summary: bool,
    overwrite: bool,
    disk: DiskView,
    steps: nat,
)
    requires
        !(action is Finished),
        !(action is Abort),
        drive(state, action, summary, overwrite, disk, steps).1 is Some,
    ensures
        steps > 0,
        ({
            let (after, event) = disk.carry_out(action);
            let (next, then) = state.step(summary, overwrite, event);
            drive(state, action, summary, overwrite, disk, steps) == drive(
                next,
                then,
                summary,
                overwrite,
                after,
                (steps - 1) as nat,
            )
        }),
{
}

/// A run that finished on one disk, made again on a disk where everything is
/// in place, ends within as many steps: it finishes, or with overwriting off
/// it stops at its first copy.
proof fn lemma_drive_again(
    state: ExtractorView,
    action: ActionView,
    summary: bool,
    overwrite: bool,
    first: DiskView,
    second: DiskView,
    steps: nat,
)
    requires
        state.consistent(),
        awaits(state, action, overwrite),
        state.stage == Stage::Summarizing ==> first.folders.contains(state.pending) && summary,
        drive(state, action, summary, overwrite, first, steps).1 == Some(Ok::<(), ErrorView>(())),
        due(state, summary) is Ok,
        in_place(second, due(state, summary)->Ok_0),
    ensures
        drive(state, action, summary, overwrite, second, steps).1 == Some(
            outcome_in_place(overwrite, due(state, summary)->Ok_0),
        ),
    decreases steps, 1nat,
{
    match state.stage {
        Stage::Ready => {},
        Stage::Closed => {
            assert(first_copy(Seq::<ChangeView>::empty()) is None);
        },
        Stage::Probing => {
            lemma_probe_again(state, action, summary, overwrite, first, second, steps);
        },
        Stage::Creating | Stage::Summarizing => {
            lemma_folder_again(state, action, summary, overwrite, first, second, steps);
        },
        Stage::Copying => {
            lemma_copy_again(state, action, summary, overwrite, first, second, steps);
        },
    }
}

proof fn lemma_probe_again(
    state: ExtractorView,
    action: ActionView,
    summary: bool,
    overwrite: bool,
    first: DiskView,
    second: DiskView,
    steps: nat,
)
    requires
        state.consistent(),
        state.stage == Stage::Probing,
        awaits(state, action, overwrite),
        drive(state, action, summary, overwrite, first, steps).1 == Some(Ok::<(), ErrorView>(())),
        due(state, summary) is Ok,
        in_place(second, due(state, summary)->Ok_0),
    ensures
        drive(state, action, summary, overwrite, second, steps).1 == Some(
            outcome_in_place(overwrite, due(state, summary)->Ok_0),
        ),
    decreases steps, 0nat,
{
    let changes = due(state, summary)->Ok_0;
    lemma_due_in_folder_stage(state, summary);
    let rest = changes_from(with_folder(state), state.position + 1, summary)->Ok_0;
    assert(changes == own_changes(state, summary) + rest);
    assert(changes[0] == ChangeView::Folder(state.pending));
    assert(second.folders.contains(state.pending));
    lemma_first_copy_after_own(state, summary, rest);
    lemma_drive_goes_on(state, action, summary, overwrite, first, steps);
    let ready = EventView::Probed(FolderState::Directory);
    let (next, then) = state.step(summary, overwrite, ready);
    crate::extractor::lemma_step_keeps_consistent(state, summary, overwrite, ready);
    // on the second disk the folder is found at once
    assert(second.carry_out(action) == (second, ready));
    assert(drive(state, action, summary, overwrite, second, steps) == drive(
        next,
        then,
        summary,
        overwrite,
        second,
        (steps - 1) as nat,
    ));
    lemma_probe_keeps_due(state, action, summary, overwrite, second);
    let found = first.probe(state.pending);
    if found == FolderState::Directory {
        assert(first.carry_out(action) == (first, ready));
        lemma_after_folder_again(
            state,
            next,
            then,
            summary,
            overwrite,
            first,
            second,
            (steps - 1) as nat,
        );
    } else if found == FolderState::Missing {
        let creating = ExtractorView { stage: Stage::Creating, ..state };
        let create = ActionView::CreateFolder { team_id: state.team_id(), folder: state.pending };
        let after = first.changed(ChangeView::Folder(state.pending));
        assert(first.carry_out(action) == (first, EventView::Probed(FolderState::Missing)));
        assert(state.step(summary, overwrite, EventView::Probed(FolderState::Missing)) == (
            creating,
            create,
        ));
        lemma_drive_goes_on(creating, create, summary, overwrite, first, (steps - 1) as nat);
        assert(first.carry_out(create) == (after, EventView::Completed));
        crate::extractor::lemma_stage_is_left_behind(creating, state, overwrite);
        assert(creating.step(summary, overwrite, EventView::Completed) == (next, then)) by {
            assert(creating.folder_ready(summary, overwrite) == state.folder_ready(
                summary,
                overwrite,
            ));
        }
        lemma_after_folder_again(
            state,
            next,
            then,
            summary,
            overwrite,
            after,
            second,
            (steps - 2) as nat,
        );
        lemma_more_steps(
            next,
            then,
            summary,
            overwrite,
            second,
            (steps - 2) as nat,
            (steps - 1) as nat,
        );
    } else {
        assert(first.carry_out(action) == (first, EventView::Probed(FolderState::Occupied)));
    }
}

/// The two runs go on alike once the folder of the current team is there.
proof fn lemma_after_folder_again(
    state: ExtractorView,
    next: ExtractorView,
    then: ActionView,
    summary: bool,
    overwrite: bool,
    first: DiskView,
    second: DiskView,
    steps: nat,
)
    requires
        state.consistent(),
        state.stage == Stage::Probing || state.stage == Stage::Creating || state.stage
            == Stage::Summarizing,
        next.consistent(),
        awaits(next, then, overwrite),
        (next, then) == state.folder_ready(summary, overwrite) || (next, then) == state.settle(
            overwrite,
        ),
        next.stage == Stage::Summarizing ==> first.folders.contains(next.pending) && summary,
        drive(next, then, summary, overwrite, first, steps).1 == Some(Ok::<(), ErrorView>(())),
        due(state, summary) is Ok,
        in_place(second, due(state, summary)->Ok_0),
    ensures
        drive(next, then, summary, overwrite, second, steps).1 == Some(
            outcome_in_place(overwrite, due(state, summary)->Ok_0),
        ),
    decreases steps, 2nat,
{
    lemma_due_in_folder_stage(state, summary);
    let rest = changes_from(with_folder(state), state.position + 1, summary)->Ok_0;
    lemma_first_copy_after_own(state, summary, rest);
    lemma_next_in_place(state, next, then, summary, overwrite, second);
    lemma_settle_is_due(state, summary, overwrite);
    if summary && (next, then) == state.folder_ready(summary, overwrite) {
        lemma_changes_of_same_run(next, state, state.position, summary);
        assert(due(next, summary) == due(state, summary));
    } else {
        assert(due(next, summary) == Ok::<Seq<ChangeView>, ErrorView>(rest));
    }
    lemma_drive_again(next, then, summary, overwrite, first, second, steps);
}

proof fn lemma_folder_again(
    state: ExtractorView,
    action: ActionView,
    summary: bool,
    overwrite: bool,
    first: DiskView,
    second: DiskView,
    steps: nat,
)
    requires
        state.consistent(),
        state.stage == Stage::Creating || state.stage == Stage::Summarizing,
        awaits(state, action, overwrite),
        state.stage == Stage::Summarizing ==> first.folders.contains(state.pending) && summary,
        drive(state, action, summary, overwrite, first, steps).1 == Some(Ok::<(), ErrorView>(())),
        due(state, summary) is Ok,
        in_place(second, due(state, summary)->Ok_0),
    ensures
        drive(state, action, summary, overwrite, second, steps).1 == Some(
            outcome_in_place(overwrite, due(state, summary)->Ok_0),
        ),
    decreases steps, 0nat,
{
    let changes = due(state, summary)->Ok_0;
    lemma_drive_goes_on(state, action, summary, overwrite, first, steps);
    let (after_first, event) = first.carry_out(action);
    let (after_second, same_event) = second.carry_out(action);
    assert(event == EventView::Completed && same_event == EventView::Completed);
    let (next, then) = state.step(summary, overwrite, event);
    crate::extractor::lemma_step_keeps_consistent(state, summary, overwrite, event);
    if state.stage == Stage::Creating {
        lemma_create_keeps_due(state, action, summary, overwrite, first);
        lemma_in_place_stays(second, ChangeView::Folder(state.pending), changes);
    } else {
        lemma_summary_keeps_due(state, action, summary, overwrite, first);
        lemma_in_place_stays(
            second,
            ChangeView::File(
                file_in(state.pending, summary_file_name()),
                FileView::Text(summary_of(state.teams[state.team_id()])),
            ),
            changes,
        );
    }
    lemma_after_folder_again(
        state,
        next,
        then,
        summary,
        overwrite,
        after_first,
        after_second,
        (steps - 1) as nat,
    );
}

proof fn lemma_copy_again(
    state: ExtractorView,
    action: ActionView,
    summary: bool,
    overwrite: bool,
    first: DiskView,
    second: DiskView,
    steps: nat,
)
    requires
        state.consistent(),
        state.stage == Stage::Copying,
        awaits(state, action, overwrite),
        drive(state, action, summary, overwrite, first, steps).1 == Some(Ok::<(), ErrorView>(())),
        due(state, summary) is Ok,
        in_place(second, due(state, summary)->Ok_0),
    ensures
        drive(state, action, summary, overwrite, second, steps).1 == Some(
            outcome_in_place(overwrite, due(state, summary)->Ok_0),
        ),
    decreases steps, 0nat,
{
    let changes = due(state, summary)->Ok_0;
    let entry = state.entries[state.position];
    let copy = ChangeView::File(state.pending, FileView::Entry(entry.index));
    lemma_enter_entry_is_due(state, state.position + 1, overwrite);
    lemma_enter_entry_stage(state, state.position + 1, overwrite);
    let rest = copies_from(state, state.position + 1)->Ok_0;
    assert(changes == seq![copy] + rest);
    assert(changes[0] == copy);
    assert(first_copy(changes) == Some(state.pending));
    assert(second.files.contains_key(state.pending));
    lemma_drive_goes_on(state, action, summary, overwrite, first, steps);
    if overwrite {
        let (next, then) = state.step(summary, overwrite, EventView::Completed);
        crate::extractor::lemma_step_keeps_consistent(
            state,
            summary,
            overwrite,
            EventView::Completed,
        );
        assert(first.carry_out(action) == (first.changed(copy), EventView::Completed));
        assert(second.carry_out(action) == (second.changed(copy), EventView::Completed));
        lemma_copy_keeps_due(state, action, summary, overwrite, first);
        lemma_in_place_stays(second, copy, changes);
        lemma_in_place_of_rest(second.changed(copy), seq![copy], rest);
        if then is Finished {
        } else {
            assert(due(next, summary) == Ok::<Seq<ChangeView>, ErrorView>(rest));
        }
        lemma_drive_again(
            next,
            then,
            summary,
            overwrite,
            first.changed(copy),
            second.changed(copy),
            (steps - 1) as nat,
        );
        assert(drive(state, action, summary, overwrite, second, steps) == drive(
            next,
            then,
            summary,
            overwrite,
            second.changed(copy),
            (steps - 1) as nat,
        ));
        assert(outcome_in_place(overwrite, changes) == Ok::<(), ErrorView>(()));
        assert(outcome_in_place(overwrite, due(next, summary)->Ok_0) == Ok::<(), ErrorView>(()));
    } else {
        assert(second.carry_out(action) == (second, EventView::DestinationExists));
        let (next, then) = state.step(summary, overwrite, EventView::DestinationExists);
        assert(then == ActionView::Abort(ErrorView::AlreadyExists(state.pending)));
        assert(drive(state, action, summary, overwrite, second, steps) == drive(
            next,
            then,
            summary,
            overwrite,
            second,
            (steps - 1) as nat,
        ));
    }
}

/// What is due after a step in the making of a folder is the end of what was
/// due before it, so it is in place where that was.
proof fn lemma_next_in_place(
    state: ExtractorView,
    next: ExtractorView,
    then: ActionView,
    summary: bool,
    overwrite: bool,
    disk: DiskView,
)
    requires
        state.consistent(),
        state.stage == Stage::Probing || state.stage == Stage::Creating || state.stage
            == Stage::Summarizing,
        due(state, summary) is Ok,
        in_place(disk, due(state, summary)->Ok_0),
        !(then is Abort),
        (next, then) == state.folder_ready(summary, overwrite) || (next, then) == state.settle(
            overwrite,
        ),
    ensures
        due(next, summary) is Ok,
        in_place(disk, due(next, summary)->Ok_0),
{
    lemma_due_in_folder_stage(state, summary);
    let rest = changes_from(with_folder(state), state.position + 1, summary)->Ok_0;
    lemma_in_place_of_rest(disk, own_changes(state, summary), rest);
    lemma_settle_is_due(state, summary, overwrite);
    if summary && (next, then) == state.folder_ready(summary, overwrite) {
        lemma_changes_of_same_run(next, state, state.position, summary);
    }
}

/// Running twice with overwriting on gives what running once gives: a second
/// run of the same extraction into the output of the first finishes as the
/// first did, and leaves every folder and every file as the first run left
/// it.
pub proof fn lemma_second_run_changes_nothing(
    state: ExtractorView,
    summary: bool,
    disk: DiskView,
    steps: nat,
)
    requires
        state.consistent(),
        state.stage == Stage::Ready,
        run(state, summary, true, disk, steps).1 == Some(Ok::<(), ErrorView>(())),
    ensures
        run(state, summary, true, run(state, summary, true, disk, steps).0, steps) == (
            run(state, summary, true, disk, steps).0,
            Some(Ok::<(), ErrorView>(())),
        ),
{
    let once = run(state, summary, true, disk, steps).0;
    let changes = changes_from(state, 0, summary)->Ok_0;
    lemma_run_makes_what_is_due(state, summary, true, disk, steps);
    lemma_changes_are_in_place(disk, changes);
    let (next, action) = state.step(summary, true, EventView::Started);
    crate::extractor::lemma_step_keeps_consistent(state, summary, true, EventView::Started);
    lemma_enter_team_is_due(state, 0, summary, true);
    lemma_enter_team_stage(state, 0, true);
    lemma_drive_again(next, action, summary, true, disk, once, steps);
    lemma_run_makes_what_is_due(state, summary, true, once, steps);
    lemma_same_changes_twice(disk, changes);
}

/// Running twice with overwriting off stops the second run: if the first run
/// finished and copied anything, the second ends at its first copy, because
/// the destination exists.
pub proof fn lemma_second_run_finds_files_in_place(
    state: ExtractorView,
    summary: bool,
    disk: DiskView,
    steps: nat,
)
    requires
        state.consistent(),
        state.stage == Stage::Ready,
        run(state, summary, false, disk, steps).1 == Some(Ok::<(), ErrorView>(())),
    ensures
        changes_from(state, 0, summary) is Ok,
        first_copy(changes_from(state, 0, summary)->Ok_0) matches Some(file) ==> run(
            state,
            summary,
            false,
            run(state, summary, false, disk, steps).0,
            steps,
        ).1 == Some(Err::<(), ErrorView>(ErrorView::AlreadyExists(file))),
{
    let once = run(state, summary, false, disk, steps).0;
    let changes = changes_from(state, 0, summary)->Ok_0;
    lemma_run_makes_what_is_due(state, summary, false, disk, steps);
    lemma_changes_are_in_place(disk, changes);
    let (next, action) = state.step(summary, false, EventView::Started);
    crate::extractor::lemma_step_keeps_consistent(state, summary, false, EventView::Started);
    lemma_enter_team_is_due(state, 0, summary, false);
    lemma_enter_team_stage(state, 0, false);
    lemma_drive_again(next, action, summary, false, disk, once, steps);
}

} // verus!
