//! The spreadsheet of an export: its rows, and the teams that they describe.

use crate::error::{ErrorView, Field, IliasError};
use crate::submission::{
    submission_views, IliasStudent, IliasSubmission, IliasTeam, StudentView, SubmissionView,
    TeamView,
};
use crate::text::texts;
use crate::timestamp::{parsed_timestamp, Timestamp, TIMESTAMP_PATTERN};
use std::collections::HashMap;
use vstd::prelude::*;

verus! {

broadcast use vstd::std_specs::hash::group_hash_axioms;

/// What a cell of the spreadsheet holds, as far as a row depends on it.
#[derive(Debug, Clone, PartialEq, Eq)]
pub enum Cell {
    /// A string.
    Text(String),
    /// A number, cut off at the decimal point.
    Number(i32),
    /// Nothing, or a value of another kind.
    Other,
}

/// The mathematical content of a [`Cell`].
pub enum CellView {
    Text(Seq<char>),
    Number(int),
    Other,
}

impl View for Cell {
    type V = CellView;

    open spec fn view(&self) -> CellView {
        match *self {
            Cell::Text(text) => CellView::Text(text@),
            Cell::Number(number) => CellView::Number(number as int),
            Cell::Other => CellView::Other,
        }
    }
}

/// The contents of a row of cells.
pub open spec fn cell_views(cells: Seq<Cell>) -> Seq<CellView> {
    Seq::new(cells.len(), |i: int| cells[i]@)
}

/// The contents of a sheet, row by row.
pub open spec fn sheet_views(sheet: Seq<Vec<Cell>>) -> Seq<Seq<CellView>> {
    Seq::new(sheet.len(), |i: int| cell_views(sheet[i]@))
}

/// A row in the Excel spreadsheet
#[derive(Debug, Clone, PartialEq, Eq)]
pub struct IliasRow {
    pub surname: String,
    pub name: String,
    pub login_name: String,
    pub timestamp: Timestamp,
    pub team_id: i32,
    pub files: Vec<String>,
}

/// The mathematical content of an [`IliasRow`].
pub struct RowView {
    pub surname: Seq<char>,
    pub name: Seq<char>,
    pub login_name: Seq<char>,
    pub timestamp: Timestamp,
    pub team_id: int,
    pub files: Seq<Seq<char>>,
}

impl View for IliasRow {
    type V = RowView;

    open spec fn view(&self) -> RowView {
        RowView {
            surname: self.surname@,
            name: self.name@,
            login_name: self.login_name@,
            timestamp: self.timestamp,
            team_id: self.team_id as int,
            files: texts(self.files@),
        }
    }
}

/// The contents of a list of rows.
pub open spec fn row_views(rows: Seq<IliasRow>) -> Seq<RowView> {
    Seq::new(rows.len(), |i: int| rows[i]@)
}

/// The text in a column of a row, if the row reaches that far and the cell
/// holds a string that is not empty.
pub open spec fn text_at(cells: Seq<CellView>, column: int) -> Option<Seq<char>> {
    if 0 <= column < cells.len() {
        match cells[column] {
            CellView::Text(text) => if text.len() > 0 {
                Some(text)
            } else {
                None
            },
            _ => None,
        }
    } else {
        None
    }
}

/// The team id in the fifth column, if the cell holds a number that is not
/// negative.
pub open spec fn team_id_of(cells: Seq<CellView>) -> Option<int> {
    if 4 < cells.len() {
        match cells[4] {
            CellView::Number(number) => if number >= 0 {
                Some(number)
            } else {
                None
            },
            _ => None,
        }
    } else {
        None
    }
}

/// The file names among the first `upto` cells: every text from the sixth
/// column on that is not empty, in column order.
pub open spec fn files_upto(cells: Seq<CellView>, upto: int) -> Seq<Seq<char>>
    decreases upto,
{
    if upto <= 5 {
        Seq::empty()
    } else {
        match text_at(cells, upto - 1) {
            Some(file) => files_upto(cells, upto - 1).push(file),
            None => files_upto(cells, upto - 1),
        }
    }
}

/// The record that a row of cells makes, once its timestamp text has been
/// read: `timestamp` is the outcome of that reading. The first of surname,
/// name, login name and timestamp that is missing is reported, then a
/// timestamp that could not be read, then a missing team id.
pub open spec fn row_of(cells: Seq<CellView>, timestamp: Option<Timestamp>) -> Result<
    RowView,
    ErrorView,
> {
    if text_at(cells, 0) is None {
        Err(ErrorView::MissingField(Field::Surname))
    } else if text_at(cells, 1) is None {
        Err(ErrorView::MissingField(Field::Name))
    } else if text_at(cells, 2) is None {
        Err(ErrorView::MissingField(Field::LoginName))
    } else if text_at(cells, 3) is None {
        Err(ErrorView::MissingField(Field::Timestamp))
    } else if timestamp is None {
        Err(ErrorView::MalformedTimestamp)
    } else if team_id_of(cells) is None {
        Err(ErrorView::MissingTeamId)
    } else {
        Ok(
            RowView {
                surname: text_at(cells, 0)->0,
                name: text_at(cells, 1)->0,
                login_name: text_at(cells, 2)->0,
                timestamp: timestamp->0,
                team_id: team_id_of(cells)->0,
                files: files_upto(cells, cells.len() as int),
            },
        )
    }
}

/// What reading the timestamp column of a row gives.
pub open spec fn timestamp_of(cells: Seq<CellView>) -> Option<Timestamp> {
    match text_at(cells, 3) {
        Some(text) => parsed_timestamp(text, TIMESTAMP_PATTERN@),
        None => None,
    }
}

/// The record that a row of cells makes.
pub open spec fn parsed_row(cells: Seq<CellView>) -> Result<RowView, ErrorView> {
    row_of(cells, timestamp_of(cells))
}

/// The records of the first `upto` rows of a sheet, or the error of the first
/// row that makes none. The first row is the header and makes no record.
pub open spec fn records_upto(sheet: Seq<Seq<CellView>>, upto: int) -> Result<
    Seq<RowView>,
    ErrorView,
>
    decreases upto,
{
    if upto <= 1 {
        Ok(Seq::empty())
    } else {
        match records_upto(sheet, upto - 1) {
            Err(e) => Err(e),
            Ok(records) => match parsed_row(sheet[upto - 1]) {
                Ok(row) => Ok(records.push(row)),
                Err(e) => Err(e),
            },
        }
    }
}

/// The records of a sheet: one per row after the header, or the error of the
/// first row that makes none.
pub open spec fn parsed_sheet(sheet: Seq<Seq<CellView>>) -> Result<Seq<RowView>, ErrorView> {
    records_upto(sheet, sheet.len() as int)
}

fn cell_text(cells: &Vec<Cell>, column: usize) -> (text: Option<&str>)
    ensures
        match text {
            Some(t) => text_at(cell_views(cells@), column as int) == Some(t@),
            None => text_at(cell_views(cells@), column as int) is None,
        },
{
    if column >= cells.len() {
        return None;
    }
    assert(cell_views(cells@)[column as int] == cells@[column as int]@);
    match &cells[column] {
        Cell::Text(text) => if text.as_str().unicode_len() > 0 {
            Some(text.as_str())
        } else {
            None
        },
        _ => None,
    }
}

fn cell_team_id(cells: &Vec<Cell>) -> (id: Option<i32>)
    ensures
        match id {
            Some(n) => team_id_of(cell_views(cells@)) == Some(n as int),
            None => team_id_of(cell_views(cells@)) is None,
        },
{
    if cells.len() <= 4 {
        return None;
    }
    assert(cell_views(cells@)[4] == cells@[4]@);
    match &cells[4] {
        Cell::Number(number) => if *number >= 0 {
            Some(*number)
        } else {
            None
        },
        _ => None,
    }
}

fn cell_files(cells: &Vec<Cell>) -> (files: Vec<String>)
    ensures
        texts(files@) == files_upto(cell_views(cells@), cells.len() as int),
{
    let mut files: Vec<String> = Vec::new();
    let mut i: usize = 5;
    if cells.len() <= 5 {
        assert(texts(files@) == Seq::<Seq<char>>::empty());
        return files;
    }
    assert(texts(files@) == Seq::<Seq<char>>::empty());
    while i < cells.len()
        invariant
            5 <= i <= cells.len(),
            texts(files@) == files_upto(cell_views(cells@), i as int),
        decreases cells.len() - i,
    {
        let ghost before = texts(files@);
        match cell_text(cells, i) {
            Some(file) => {
                let owned = file.to_owned();
                files.push(owned);
                assert(texts(files@) == before.push(file@));
            },
            None => {},
        }
        i += 1;
    }
    files
}

/// The team member that a row names.
pub open spec fn student_of(row: RowView) -> StudentView {
    StudentView { surname: row.surname, name: row.name, login_name: row.login_name }
}

/// The submissions that a row lists: one per file, each with the row's
/// timestamp.
pub open spec fn submissions_of(row: RowView) -> Seq<SubmissionView> {
    Seq::new(
        row.files.len(),
        |i: int| SubmissionView { timestamp: row.timestamp, file_name: row.files[i] },
    )
}

/// The team that a single row founds.
pub open spec fn team_of_row(row: RowView) -> TeamView {
    TeamView { id: row.team_id, submissions: submissions_of(row), members: seq![student_of(row)] }
}

/// Puts a row together from its cells and the outcome of reading its
/// timestamp text.
pub fn assemble_row(cells: &Vec<Cell>, timestamp: Option<Timestamp>) -> (made: Result<
    IliasRow,
    IliasError,
>)
    ensures
        match made {
            Ok(row) => row_of(cell_views(cells@), timestamp) == Ok::<RowView, ErrorView>(row@),
            Err(e) => row_of(cell_views(cells@), timestamp) == Err::<RowView, ErrorView>(e@),
        },
{
    let surname = match cell_text(cells, 0) {
        Some(text) => text,
        None => {
            return Err(IliasError::MissingField(Field::Surname));
        },
    };
    let name = match cell_text(cells, 1) {
        Some(text) => text,
        None => {
            return Err(IliasError::MissingField(Field::Name));
        },
    };
    let login_name = match cell_text(cells, 2) {
        Some(text) => text,
        None => {
            return Err(IliasError::MissingField(Field::LoginName));
        },
    };
    if cell_text(cells, 3).is_none() {
        return Err(IliasError::MissingField(Field::Timestamp));
    }
    let timestamp = match timestamp {
        Some(timestamp) => timestamp,
        None => {
            return Err(IliasError::MalformedTimestamp);
        },
    };
    let team_id = match cell_team_id(cells) {
        Some(id) => id,
        None => {
            return Err(IliasError::MissingTeamId);
        },
    };
    Ok(
        IliasRow {
            surname: surname.to_owned(),
            name: name.to_owned(),
            login_name: login_name.to_owned(),
            timestamp,
            team_id,
            files: cell_files(cells),
        },
    )
}

/// Reads one row of the spreadsheet.
pub fn parse_row(cells: &Vec<Cell>) -> (made: Result<IliasRow, IliasError>)
    ensures
        match made {
            Ok(row) => parsed_row(cell_views(cells@)) == Ok::<RowView, ErrorView>(row@),
            Err(e) => parsed_row(cell_views(cells@)) == Err::<RowView, ErrorView>(e@),
        },
{
    let timestamp = match cell_text(cells, 3) {
        Some(text) => Timestamp::parse(text),
        None => None,
    };
    assemble_row(cells, timestamp)
}

impl IliasRow {
    /// The team member that the row names.
    pub fn student(&self) -> (student: IliasStudent)
        ensures
            student@ == student_of(self@),
    {
        IliasStudent {
            surname: self.surname.clone(),
            name: self.name.clone(),
            login_name: self.login_name.clone(),
        }
    }

    /// The submissions that the row lists.
    pub fn submissions(&self) -> (submissions: Vec<IliasSubmission>)
        ensures
            submission_views(submissions@) == submissions_of(self@),
    {
        let mut submissions: Vec<IliasSubmission> = Vec::new();
        let mut i: usize = 0;
        while i < self.files.len()
            invariant
                i <= self.files.len(),
                submissions@.len() == i,
                forall|k: int|
                    0 <= k < i ==> (#[trigger] submissions@[k])@ == (SubmissionView {
                        timestamp: self.timestamp,
                        file_name: self.files@[k]@,
                    }),
            decreases self.files.len() - i,
        {
            submissions.push(
                IliasSubmission { timestamp: self.timestamp, file_name: self.files[i].clone() },
            );
            i += 1;
        }
        assert(submission_views(submissions@) =~= submissions_of(self@));
        submissions
    }

    /// The team that the row founds: its one member, and its submissions.
    pub fn team(&self) -> (team: IliasTeam)
        ensures
            team@ == team_of_row(self@),
    {
        let mut members: Vec<IliasStudent> = Vec::new();
        members.push(self.student());
        let team = IliasTeam { id: self.team_id, submissions: self.submissions(), members };
        assert(team@.members =~= seq![student_of(self@)]);
        team
    }
}

/// Membership of a row in the team `id`, as a predicate.
pub open spec fn in_team(id: int) -> spec_fn(RowView) -> bool {
    |row: RowView| row.team_id == id
}

/// The rows of team `id`, in the order of the sheet.
pub open spec fn rows_of_team(rows: Seq<RowView>, id: int) -> Seq<RowView> {
    rows.filter(in_team(id))
}

/// The team `id` as the rows describe it: one member per row of the team, and
/// the submissions of these rows one after the other, all in row order.
/// Nothing is merged: a row that comes twice counts twice.
pub open spec fn team_of(rows: Seq<RowView>, id: int) -> TeamView {
    let own = rows_of_team(rows, id);
    TeamView {
        id,
        submissions: own.map_values(|row: RowView| submissions_of(row)).flatten(),
        members: own.map_values(|row: RowView| student_of(row)),
    }
}

/// Whether some row belongs to team `id`.
pub open spec fn has_team(rows: Seq<RowView>, id: int) -> bool {
    exists|i: int| 0 <= i < rows.len() && (#[trigger] rows[i]).team_id == id
}

/// The teams that the rows describe, by team id.
pub open spec fn teams_of(rows: Seq<RowView>) -> Map<int, TeamView> {
    Map::new(|id: int| has_team(rows, id), |id: int| team_of(rows, id))
}

/// The contents of a map of teams, by team id.
pub open spec fn team_views(teams: Map<i32, IliasTeam>) -> Map<int, TeamView> {
    Map::new(
        |id: int| i32::MIN <= id <= i32::MAX && teams.contains_key(id as i32),
        |id: int| teams[id as i32]@,
    )
}

/// What one more row does to a team: it joins with its member and its
/// submissions if it names the team, and changes nothing otherwise.
pub proof fn lemma_team_of_push(rows: Seq<RowView>, row: RowView, id: int)
    ensures
        team_of(rows.push(row), id) == if row.team_id == id {
            TeamView {
                id,
                submissions: team_of(rows, id).submissions + submissions_of(row),
                members: team_of(rows, id).members.push(student_of(row)),
            }
        } else {
            team_of(rows, id)
        },
        has_team(rows.push(row), id) <==> has_team(rows, id) || row.team_id == id,
        !has_team(rows, id) ==> team_of(rows, id) == (TeamView {
            id,
            submissions: Seq::empty(),
            members: Seq::empty(),
        }),
{
    let own = rows_of_team(rows, id);
    rows.lemma_filter_push(row, in_team(id));
    if row.team_id == id {
        let grown = own.push(row);
        assert(grown.map_values(|r: RowView| student_of(r)) =~= own.map_values(
            |r: RowView| student_of(r),
        ).push(student_of(row)));
        assert(grown.map_values(|r: RowView| submissions_of(r)) =~= own.map_values(
            |r: RowView| submissions_of(r),
        ).push(submissions_of(row)));
        own.map_values(|r: RowView| submissions_of(r)).lemma_flatten_push(submissions_of(row));
    }
    if has_team(rows, id) {
        let i = choose|i: int| 0 <= i < rows.len() && (#[trigger] rows[i]).team_id == id;
        assert(rows.push(row)[i].team_id == id);
    }
    if row.team_id == id {
        assert(rows.push(row)[rows.len() as int].team_id == id);
    }
    if has_team(rows.push(row), id) {
        let i = choose|i: int|
            0 <= i < rows.push(row).len() && (#[trigger] rows.push(row)[i]).team_id == id;
        if i < rows.len() {
            assert(rows[i].team_id == id);
        }
    }
    if !has_team(rows, id) {
        if own.len() > 0 {
            rows.lemma_filter_pred(in_team(id), 0);
            assert(own.contains(own[0]));
            rows.lemma_filter_contains_rev(in_team(id), own[0]);
            let i = choose|i: int| 0 <= i < rows.len() && rows[i] == own[0];
            assert(rows[i].team_id == id);
        }
        assert(own.map_values(|r: RowView| student_of(r)) =~= Seq::empty());
        assert(own.map_values(|r: RowView| submissions_of(r)) =~= Seq::empty());
    }
}

/// Every row ends up in the team that it names, and only there: the team of
/// its id exists, carries that id, and has exactly one member for each row
/// that names it. No team is without members.
pub proof fn lemma_every_row_has_its_team(rows: Seq<RowView>, i: int)
    requires
        0 <= i < rows.len(),
    ensures
        teams_of(rows).contains_key(rows[i].team_id),
        teams_of(rows)[rows[i].team_id].id == rows[i].team_id,
        teams_of(rows)[rows[i].team_id].members.len() == rows_of_team(
            rows,
            rows[i].team_id,
        ).len(),
        rows_of_team(rows, rows[i].team_id).contains(rows[i]),
        forall|id: int| #[trigger]
            teams_of(rows).contains_key(id) ==> teams_of(rows)[id].id == id && teams_of(
                rows,
            )[id].members == rows_of_team(rows, id).map_values(|row: RowView| student_of(row))
                && teams_of(rows)[id].members.len() >= 1,
{
    assert(has_team(rows, rows[i].team_id));
    rows.lemma_filter_contains(in_team(rows[i].team_id), i);
    assert forall|id: int| #[trigger] teams_of(rows).contains_key(id) implies teams_of(
        rows,
    )[id].members.len() >= 1 by {
        let k = choose|k: int| 0 <= k < rows.len() && (#[trigger] rows[k]).team_id == id;
        rows.lemma_filter_contains(in_team(id), k);
    }
}

/// The Excel file in our archive which contains details about
/// all submissions and teams
#[derive(Debug, Clone, PartialEq, Eq)]
pub struct IliasMetadataFile {
    /// All rows in the spreadsheet
    records: Vec<IliasRow>,
}

impl View for IliasMetadataFile {
    type V = Seq<RowView>;

    closed spec fn view(&self) -> Seq<RowView> {
        row_views(self.records@)
    }
}

impl IliasMetadataFile {
    /// Reads a sheet: the first row is the header, every further row makes a
    /// record. One row that makes none fails the whole file.
    pub fn new(sheet: &Vec<Vec<Cell>>) -> (read: Result<IliasMetadataFile, IliasError>)
        ensures
            match read {
                Ok(file) => parsed_sheet(sheet_views(sheet@)) == Ok::<Seq<RowView>, ErrorView>(
                    file@,
                ),
                Err(e) => parsed_sheet(sheet_views(sheet@)) == Err::<Seq<RowView>, ErrorView>(e@),
            },
    {
        let mut records: Vec<IliasRow> = Vec::new();
        let mut i: usize = 1;
        if sheet.len() <= 1 {
            assert(row_views(records@) == Seq::<RowView>::empty());
            return Ok(IliasMetadataFile { records });
        }
        assert(row_views(records@) == Seq::<RowView>::empty());
        while i < sheet.len()
            invariant
                1 <= i <= sheet.len(),
                records_upto(sheet_views(sheet@), i as int) == Ok::<Seq<RowView>, ErrorView>(
                    row_views(records@),
                ),
            decreases sheet.len() - i,
        {
            let ghost before = row_views(records@);
            assert(sheet_views(sheet@)[i as int] == cell_views(sheet@[i as int]@));
            match parse_row(&sheet[i]) {
                Ok(row) => {
                    records.push(row);
                    assert(row_views(records@) == before.push(row@));
                },
                Err(e) => {
                    proof {
                        lemma_records_fail_early(sheet_views(sheet@), i + 1);
                    }
                    return Err(e);
                },
            }
            i += 1;
        }
        Ok(IliasMetadataFile { records })
    }

    /// A file with these records.
    pub fn from_records(records: Vec<IliasRow>) -> (file: IliasMetadataFile)
        ensures
            file@ == row_views(records@),
    {
        IliasMetadataFile { records }
    }

    /// The records of the file, in row order.
    pub fn records(&self) -> (records: &Vec<IliasRow>)
        ensures
            row_views(records@) == self@,
    {
        &self.records
    }

    /// Gathers the rows into teams. The first row of a team founds it with one
    /// member and the row's submissions; every later row of the team adds one
    /// member and its own submissions.
    pub fn into_teams(self) -> (teams: HashMap<i32, IliasTeam>)
        ensures
            team_views(teams@) == teams_of(self@),
    {
        let mut teams: HashMap<i32, IliasTeam> = HashMap::new();
        let mut k: usize = 0;
        let ghost all = row_views(self.records@);
        proof {
            assert(all.subrange(0, 0) == Seq::<RowView>::empty());
            assert(team_views(teams@) =~= teams_of(all.subrange(0, 0)));
        }
        while k < self.records.len()
            invariant
                k <= self.records.len(),
                all == row_views(self.records@),
                team_views(teams@) == teams_of(all.subrange(0, k as int)),
            decreases self.records.len() - k,
        {
            let record = &self.records[k];
            let ghost seen = all.subrange(0, k as int);
            let ghost before = teams@;
            proof {
                assert(all.subrange(0, k + 1) == seen.push(record@));
                assert forall|id: int| true implies #[trigger] teams_of(seen.push(record@)).dom().contains(id)
                    == (has_team(seen, id) || record@.team_id == id) by {
                    lemma_team_of_push(seen, record@, id);
                }
                lemma_team_of_push(seen, record@, record.team_id as int);
                assert(team_views(before).contains_key(record.team_id as int) == has_team(
                    seen,
                    record.team_id as int,
                ));
            }
            if !teams.contains_key(&record.team_id) {
                // Team is not hashed yet, create it from this row with one member already present
                let team = record.team();
                assert(team@.members =~= Seq::<StudentView>::empty().push(student_of(record@)));
                assert(team@.submissions =~= Seq::<SubmissionView>::empty() + submissions_of(
                    record@,
                ));
                teams.insert(record.team_id, team);
            } else {
                // Team already exists, add the member and what the row lists
                let mut team = teams.remove(&record.team_id).unwrap();
                let ghost old_team = team@;
                assert(old_team == team_views(before)[record.team_id as int]);
                team.members.push(record.student());
                let mut listed = record.submissions();
                let ghost listed_before = team.submissions@;
                let ghost listed_new = listed@;
                team.submissions.append(&mut listed);
                assert(team.submissions@ == listed_before + listed_new);
                assert(team@.members =~= old_team.members.push(student_of(record@)));
                assert(team@.submissions =~= old_team.submissions + submissions_of(record@));
                teams.insert(record.team_id, team);
            }
            proof {
                let now = team_views(teams@);
                let want = teams_of(seen.push(record@));
                assert forall|id: int| now.dom().contains(id) == want.dom().contains(id) by {
                    if id != record.team_id as int && i32::MIN <= id <= i32::MAX {
                        assert(teams@.contains_key(id as i32) == before.contains_key(id as i32));
                        assert(team_views(before).dom().contains(id) == before.contains_key(
                            id as i32,
                        ));
                    }
                    if !(i32::MIN <= id <= i32::MAX) {
                        assert(!team_views(before).dom().contains(id));
                    }
                }
                assert forall|id: int| now.dom().contains(id) implies now[id] == want[id] by {
                    lemma_team_of_push(seen, record@, id);
                    if id != record.team_id as int {
                        assert(teams@[id as i32] == before[id as i32]);
                        assert(team_views(before)[id] == before[id as i32]@);
                    }
                }
                assert(now =~= want);
            }
            k += 1;
        }
        assert(all.subrange(0, self.records.len() as int) == all);
        teams
    }
}

/// Once a row makes no record, the sheet reports that row's error, whatever
/// follows.
proof fn lemma_records_fail_early(sheet: Seq<Seq<CellView>>, k: int)
    requires
        1 <= k <= sheet.len(),
        records_upto(sheet, k) is Err,
    ensures
        parsed_sheet(sheet) == records_upto(sheet, k),
    decreases sheet.len() - k,
{
    if k < sheet.len() {
        lemma_records_fail_early(sheet, k + 1);
    }
}

} // verus!
