use ilias_extract::error::{Field, IliasError};
use ilias_extract::excel::{assemble_row, parse_row, Cell, IliasMetadataFile, IliasRow};
use ilias_extract::submission::{IliasStudent, IliasSubmission};
use ilias_extract::timestamp::Timestamp;

fn text(value: &str) -> Cell {
    Cell::Text(value.to_string())
}

fn moment() -> Timestamp {
    Timestamp::new(2024, 1, 1, 10, 0, 0).unwrap()
}

fn cells(login: &str, team: i32, files: &[&str]) -> Vec<Cell> {
    let mut row =
        vec![text("Doe"), text("Jane"), text(login), text("2024-01-01 10:00:00"), Cell::Number(team)];
    for file in files {
        row.push(text(file));
    }
    row
}

fn header() -> Vec<Cell> {
    vec![text("Surname"), text("Name"), text("Login"), text("Date"), text("Team")]
}

fn record(login: &str, team_id: i32, files: &[&str]) -> IliasRow {
    IliasRow {
        surname: "Doe".to_string(),
        name: "Jane".to_string(),
        login_name: login.to_string(),
        timestamp: moment(),
        team_id,
        files: files.iter().map(|file| file.to_string()).collect(),
    }
}

#[test]
fn timestamp_is_read_and_printed() {
    let parsed = Timestamp::parse("2024-01-01 10:00:00").unwrap();
    assert_eq!(parsed.render(), "2024-01-01 10:00:00");
    assert_eq!(parsed, moment());
}

#[test]
fn timestamp_fields_are_taken_from_the_text() {
    let parsed = Timestamp::parse("1999-12-31 23:59:58").unwrap();
    assert_eq!(Some(parsed), Timestamp::new(1999, 12, 31, 23, 59, 58));
    assert!(Some(parsed) != Timestamp::new(1999, 12, 31, 23, 58, 59));
    assert_eq!(parsed.render(), "1999-12-31 23:59:58");
}

#[test]
fn timestamp_that_is_no_date_is_refused() {
    assert_eq!(Timestamp::parse("yesterday"), None);
    assert_eq!(Timestamp::parse(""), None);
    assert_eq!(Timestamp::parse("2024-02-30 10:00:00"), None);
    assert_eq!(Timestamp::parse("2024-01-01 24:00:00"), None);
    assert_eq!(Timestamp::parse("2024-01-01"), None);
    assert_eq!(Timestamp::parse("2024-01-01 10:00:00 trailing"), None);
}

#[test]
fn timestamp_new_follows_the_calendar() {
    assert!(Timestamp::new(2024, 2, 29, 0, 0, 0).is_some());
    assert!(Timestamp::new(2023, 2, 29, 0, 0, 0).is_none());
    assert!(Timestamp::new(2024, 13, 1, 0, 0, 0).is_none());
    assert!(Timestamp::new(2024, 0, 1, 0, 0, 0).is_none());
    assert!(Timestamp::new(2024, 1, 1, 24, 0, 0).is_none());
    assert!(Timestamp::new(2024, 1, 1, 0, 60, 0).is_none());
    assert!(Timestamp::new(2024, 1, 1, 0, 0, 60).is_none());
    assert_eq!(Timestamp::new(5, 6, 7, 8, 9, 1).unwrap().render(), "0005-06-07 08:09:01");
}

#[test]
fn leap_second_survives() {
    let parsed = Timestamp::parse("2015-06-30 23:59:60").unwrap();
    assert_eq!(parsed.render(), "2015-06-30 23:59:60");
}

#[test]
fn row_is_read_from_its_cells() {
    assert_eq!(parse_row(&cells("jd@x", 1, &["hw.pdf"])), Ok(record("jd@x", 1, &["hw.pdf"])));
}

#[test]
fn row_skips_cells_that_name_no_file() {
    let mut row = cells("jd@x", 3, &[]);
    row.push(Cell::Other);
    row.push(text("a.pdf"));
    row.push(text(""));
    row.push(Cell::Number(9));
    row.push(text("b.txt"));
    row.push(Cell::Other);
    assert_eq!(parse_row(&row), Ok(record("jd@x", 3, &["a.pdf", "b.txt"])));
}

#[test]
fn row_without_files_is_fine() {
    assert_eq!(parse_row(&cells("jd@x", 0, &[])), Ok(record("jd@x", 0, &[])));
}

#[test]
fn row_reports_the_first_missing_field() {
    let mut row = cells("jd@x", 1, &["hw.pdf"]);
    row[0] = Cell::Other;
    row[2] = Cell::Other;
    assert_eq!(parse_row(&row), Err(IliasError::MissingField(Field::Surname)));
    row[0] = text("Doe");
    row[1] = Cell::Number(5);
    assert_eq!(parse_row(&row), Err(IliasError::MissingField(Field::Name)));
    row[1] = text("Jane");
    assert_eq!(parse_row(&row), Err(IliasError::MissingField(Field::LoginName)));
    row[2] = text("");
    assert_eq!(parse_row(&row), Err(IliasError::MissingField(Field::LoginName)));
    row[2] = text("jd@x");
    row[3] = Cell::Other;
    row[4] = Cell::Other;
    assert_eq!(parse_row(&row), Err(IliasError::MissingField(Field::Timestamp)));
}

#[test]
fn row_reports_a_malformed_timestamp() {
    let mut row = cells("jd@x", 1, &["hw.pdf"]);
    row[3] = text("01.01.2024 10:00");
    assert_eq!(parse_row(&row), Err(IliasError::MalformedTimestamp));
    row[4] = Cell::Other;
    assert_eq!(parse_row(&row), Err(IliasError::MalformedTimestamp));
}

#[test]
fn row_reports_a_missing_team_id() {
    let mut row = cells("jd@x", 1, &["hw.pdf"]);
    row[4] = text("1");
    assert_eq!(parse_row(&row), Err(IliasError::MissingTeamId));
    row[4] = Cell::Other;
    assert_eq!(parse_row(&row), Err(IliasError::MissingTeamId));
    row[4] = Cell::Number(-1);
    assert_eq!(parse_row(&row), Err(IliasError::MissingTeamId));
}

#[test]
fn short_rows_miss_what_they_do_not_reach() {
    assert_eq!(parse_row(&Vec::new()), Err(IliasError::MissingField(Field::Surname)));
    assert_eq!(parse_row(&vec![text("Doe")]), Err(IliasError::MissingField(Field::Name)));
    assert_eq!(
        parse_row(&vec![text("Doe"), text("Jane"), text("jd@x")]),
        Err(IliasError::MissingField(Field::Timestamp))
    );
    assert_eq!(
        parse_row(&vec![text("Doe"), text("Jane"), text("jd@x"), text("2024-01-01 10:00:00")]),
        Err(IliasError::MissingTeamId)
    );
}

#[test]
fn assemble_row_takes_the_timestamp_as_given() {
    let row = cells("jd@x", 1, &["hw.pdf"]);
    let other = Timestamp::new(2000, 2, 3, 4, 5, 6).unwrap();
    let made = assemble_row(&row, Some(other)).unwrap();
    assert_eq!(made.timestamp, other);
    assert_eq!(made.files, vec!["hw.pdf"]);
    assert_eq!(assemble_row(&row, None), Err(IliasError::MalformedTimestamp));
}

#[test]
fn row_gives_student_submissions_and_team() {
    let row = record("jd@x", 4, &["a.pdf", "b.pdf"]);
    let student = IliasStudent {
        surname: "Doe".to_string(),
        name: "Jane".to_string(),
        login_name: "jd@x".to_string(),
    };
    let submissions = vec![
        IliasSubmission { timestamp: moment(), file_name: "a.pdf".to_string() },
        IliasSubmission { timestamp: moment(), file_name: "b.pdf".to_string() },
    ];
    assert_eq!(row.student(), student);
    assert_eq!(row.submissions(), submissions);
    let team = row.team();
    assert_eq!(team.id, 4);
    assert_eq!(team.members, vec![student]);
    assert_eq!(team.submissions, submissions);
}

#[test]
fn sheet_skips_the_header() {
    let sheet = vec![header(), cells("a@x", 1, &["a.pdf"]), cells("b@x", 2, &[])];
    let file = IliasMetadataFile::new(&sheet).unwrap();
    assert_eq!(file.records(), &vec![record("a@x", 1, &["a.pdf"]), record("b@x", 2, &[])]);
}

#[test]
fn sheet_header_is_not_read() {
    let sheet = vec![vec![Cell::Other], cells("a@x", 1, &[])];
    assert_eq!(IliasMetadataFile::new(&sheet).unwrap().records().len(), 1);
    assert_eq!(IliasMetadataFile::new(&vec![vec![Cell::Other]]).unwrap().records().len(), 0);
    assert_eq!(IliasMetadataFile::new(&Vec::new()).unwrap().records().len(), 0);
}

#[test]
fn one_bad_row_fails_the_sheet() {
    let mut bad = cells("b@x", 2, &[]);
    bad[3] = text("soon");
    let mut worse = cells("c@x", 3, &[]);
    worse[0] = Cell::Other;
    let sheet = vec![header(), cells("a@x", 1, &[]), bad, worse];
    assert_eq!(IliasMetadataFile::new(&sheet), Err(IliasError::MalformedTimestamp));
}

#[test]
fn rows_of_one_team_make_one_team() {
    let file = IliasMetadataFile::from_records(vec![
        record("a@x", 1, &["a.pdf"]),
        record("b@x", 2, &["b.pdf", "c.pdf"]),
        record("c@x", 1, &["d.pdf"]),
        record("d@x", 1, &[]),
    ]);
    let teams = file.into_teams();
    assert_eq!(teams.len(), 2);
    let first = &teams[&1];
    assert_eq!(first.id, 1);
    let logins: Vec<&str> = first.members.iter().map(|m| m.login_name.as_str()).collect();
    assert_eq!(logins, vec!["a@x", "c@x", "d@x"]);
    let files: Vec<&str> = first.submissions.iter().map(|s| s.file_name.as_str()).collect();
    assert_eq!(files, vec!["a.pdf", "d.pdf"]);
    let second = &teams[&2];
    assert_eq!(second.id, 2);
    assert_eq!(second.members.len(), 1);
    let files: Vec<&str> = second.submissions.iter().map(|s| s.file_name.as_str()).collect();
    assert_eq!(files, vec!["b.pdf", "c.pdf"]);
}

#[test]
fn repeated_rows_are_not_merged() {
    let file = IliasMetadataFile::from_records(vec![
        record("a@x", 7, &["a.pdf"]),
        record("a@x", 7, &["a.pdf"]),
    ]);
    let teams = file.into_teams();
    assert_eq!(teams.len(), 1);
    assert_eq!(teams[&7].members.len(), 2);
    assert_eq!(teams[&7].submissions.len(), 2);
}

#[test]
fn no_rows_make_no_teams() {
    assert!(IliasMetadataFile::from_records(Vec::new()).into_teams().is_empty());
}
