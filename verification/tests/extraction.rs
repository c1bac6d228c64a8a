use ilias_extract::archive::{scan_archive, ArchiveIndex};
use ilias_extract::error::IliasError;
use ilias_extract::excel::{Cell, IliasMetadataFile};
use ilias_extract::extractor::{ExtractAction, ExtractEvent, FolderState, IliasExtractor};
use ilias_extract::submission::IliasTeam;
use ilias_extract::IliasConfiguration;
use std::collections::{BTreeMap, BTreeSet, HashMap};

/// A disk that lives in memory.
#[derive(Debug, Default, Clone, PartialEq)]
struct Disk {
    folders: BTreeSet<String>,
    files: BTreeMap<String, Vec<u8>>,
    log: Vec<String>,
}

fn configuration(summary: bool, overwrite: bool) -> IliasConfiguration {
    IliasConfiguration {
        input: "in.zip".to_string(),
        output: "out".to_string(),
        summary,
        overwrite,
        purge: false,
        verbose: false,
    }
}

fn text(value: &str) -> Cell {
    Cell::Text(value.to_string())
}

fn row(login: &str, team: i32, files: &[&str]) -> Vec<Cell> {
    let mut cells =
        vec![text("Doe"), text("Jane"), text(login), text("2024-01-01 10:00:00"), Cell::Number(team)];
    for file in files {
        cells.push(text(file));
    }
    cells
}

fn teams_of(rows: Vec<Vec<Cell>>) -> HashMap<i32, IliasTeam> {
    let mut sheet = vec![vec![text("header")]];
    sheet.extend(rows);
    IliasMetadataFile::new(&sheet).unwrap().into_teams()
}

fn index_of(paths: &[&str]) -> ArchiveIndex {
    let mut index = ArchiveIndex::new();
    for (number, path) in paths.iter().enumerate() {
        index.insert(path.to_string(), number).unwrap();
    }
    index
}

/// Drives an extractor against the disk, with `contents` as the bytes of the
/// archive entries.
fn run(
    extractor: &mut IliasExtractor,
    configuration: &IliasConfiguration,
    contents: &[&[u8]],
    disk: &mut Disk,
) -> Result<(), IliasError> {
    let mut event = ExtractEvent::Started;
    loop {
        match extractor.extract(configuration, event) {
            ExtractAction::ProbeFolder { folder, .. } => {
                disk.log.push(format!("probe {}", folder));
                event = ExtractEvent::Probed(if disk.folders.contains(&folder) {
                    FolderState::Directory
                } else if disk.files.contains_key(&folder) {
                    FolderState::Occupied
                } else {
                    FolderState::Missing
                });
            }
            ExtractAction::CreateFolder { folder, .. } => {
                disk.log.push(format!("create {}", folder));
                disk.folders.insert(folder);
                event = ExtractEvent::Completed;
            }
            ExtractAction::WriteSummary { folder, file_name, text, .. } => {
                disk.log.push(format!("summary {}/{}", folder, file_name));
                disk.files.insert(format!("{}/{}", folder, file_name), text.into_bytes());
                event = ExtractEvent::Completed;
            }
            ExtractAction::CopyEntry { entry, source, folder, file_name, overwrite, .. } => {
                let target = format!("{}/{}", folder, file_name);
                disk.log.push(format!("copy {} to {}", source, target));
                assert!(disk.folders.contains(&folder), "no folder for {}", target);
                if !overwrite && disk.files.contains_key(&target) {
                    event = ExtractEvent::DestinationExists;
                } else {
                    disk.files.insert(target, contents[entry].to_vec());
                    event = ExtractEvent::Completed;
                }
            }
            ExtractAction::Finished => return Ok(()),
            ExtractAction::Abort(error) => return Err(error),
        }
    }
}

#[test]
fn end_to_end_with_summary() {
    let names = vec!["C/data.xlsx".to_string(), "C/Abgaben/Team 1/s1/hw.pdf".to_string()];
    let contents: Vec<&[u8]> = vec![b"sheet", b"homework"];
    let scan = scan_archive(&names).unwrap();
    assert_eq!(scan.metadata, 0);
    let teams = teams_of(vec![row("s1@x", 1, &["hw.pdf"])]);
    let mut extractor = IliasExtractor::new(teams, scan.index);
    let mut disk = Disk::default();
    assert_eq!(run(&mut extractor, &configuration(true, false), &contents, &mut disk), Ok(()));
    assert_eq!(disk.folders.iter().collect::<Vec<_>>(), vec!["s1"]);
    assert_eq!(disk.files.len(), 2);
    assert_eq!(disk.files["s1/hw.pdf"], b"homework");
    assert_eq!(
        String::from_utf8(disk.files["s1/summary.md"].clone()).unwrap(),
        "# Team 1\n## Members:\n- Jane Doe (s1@x)\n## Submissions:\n- hw.pdf (2024-01-01 10:00:00)"
    );
    assert_eq!(
        disk.log,
        vec![
            "probe s1",
            "create s1",
            "summary s1/summary.md",
            "copy C/Abgaben/Team 1/s1/hw.pdf to s1/hw.pdf"
        ]
    );
}

#[test]
fn end_to_end_without_summary() {
    let teams = teams_of(vec![row("s1@x", 1, &["hw.pdf"])]);
    let mut extractor = IliasExtractor::new(teams, index_of(&["C/Abgaben/Team 1/s1/hw.pdf"]));
    let mut disk = Disk::default();
    assert_eq!(run(&mut extractor, &configuration(false, false), &[b"homework"], &mut disk), Ok(()));
    assert_eq!(disk.files.len(), 1);
    assert_eq!(disk.files["s1/hw.pdf"], b"homework");
}

#[test]
fn all_folders_come_before_the_first_copy() {
    let teams = teams_of(vec![
        row("b1@x", 1, &["a.pdf"]),
        row("a2@x", 1, &[]),
        row("c3@x", 2, &["b.pdf"]),
        row("d4@x", 3, &[]),
    ]);
    let index = index_of(&[
        "C/Abgaben/Team 2/c3/b.pdf",
        "C/readme.txt",
        "C/Abgaben/Team 1/b1/a.pdf",
        "C/Abgaben/Team 1/a2/notes.txt",
    ]);
    let mut extractor = IliasExtractor::new(teams, index);
    let mut disk = Disk::default();
    let contents: Vec<&[u8]> = vec![b"two", b"readme", b"one", b"notes"];
    assert_eq!(run(&mut extractor, &configuration(true, false), &contents, &mut disk), Ok(()));
    let first_copy = disk.log.iter().position(|line| line.starts_with("copy")).unwrap();
    assert_eq!(first_copy, 9);
    assert!(disk.log[..first_copy].iter().all(|line| !line.starts_with("copy")));
    assert!(disk.log[first_copy..].iter().all(|line| line.starts_with("copy")));
    assert_eq!(
        disk.folders.iter().map(|f| f.as_str()).collect::<Vec<_>>(),
        vec!["a2_b1", "c3", "d4"]
    );
    assert_eq!(disk.files["a2_b1/a.pdf"], b"one");
    assert_eq!(disk.files["a2_b1/notes.txt"], b"notes");
    assert_eq!(disk.files["c3/b.pdf"], b"two");
    assert!(disk.files.contains_key("d4/summary.md"));
    assert_eq!(disk.files.len(), 6);
    assert_eq!(
        &disk.log[first_copy..],
        &[
            "copy C/Abgaben/Team 2/c3/b.pdf to c3/b.pdf",
            "copy C/Abgaben/Team 1/b1/a.pdf to a2_b1/a.pdf",
            "copy C/Abgaben/Team 1/a2/notes.txt to a2_b1/notes.txt",
        ]
    );
}

#[test]
fn running_twice_with_overwrite_gives_the_same_files() {
    let contents: Vec<&[u8]> = vec![b"homework"];
    let mut disk = Disk::default();
    for _ in 0..2 {
        let teams = teams_of(vec![row("s1@x", 1, &["hw.pdf"])]);
        let mut extractor = IliasExtractor::new(teams, index_of(&["C/Abgaben/Team 1/s1/hw.pdf"]));
        assert_eq!(run(&mut extractor, &configuration(true, true), &contents, &mut disk), Ok(()));
    }
    let mut once = Disk::default();
    let teams = teams_of(vec![row("s1@x", 1, &["hw.pdf"])]);
    let mut extractor = IliasExtractor::new(teams, index_of(&["C/Abgaben/Team 1/s1/hw.pdf"]));
    assert_eq!(run(&mut extractor, &configuration(true, true), &contents, &mut once), Ok(()));
    assert_eq!(disk.files, once.files);
    assert_eq!(disk.folders, once.folders);
    assert_eq!(disk.log[4..], ["probe s1", "summary s1/summary.md", "copy C/Abgaben/Team 1/s1/hw.pdf to s1/hw.pdf"]);
}

#[test]
fn running_twice_without_overwrite_hits_the_existing_file() {
    let contents: Vec<&[u8]> = vec![b"homework"];
    let mut disk = Disk::default();
    let teams = teams_of(vec![row("s1@x", 1, &["hw.pdf"])]);
    let mut extractor = IliasExtractor::new(teams, index_of(&["C/Abgaben/Team 1/s1/hw.pdf"]));
    assert_eq!(run(&mut extractor, &configuration(false, false), &contents, &mut disk), Ok(()));
    let teams = teams_of(vec![row("s1@x", 1, &["hw.pdf"])]);
    let mut extractor = IliasExtractor::new(teams, index_of(&["C/Abgaben/Team 1/s1/hw.pdf"]));
    assert_eq!(
        run(&mut extractor, &configuration(false, false), &contents, &mut disk),
        Err(IliasError::AlreadyExists("s1/hw.pdf".to_string()))
    );
    assert_eq!(disk.files["s1/hw.pdf"], b"homework");
}

#[test]
fn two_subfolders_with_one_file_name_collide() {
    let teams = teams_of(vec![row("s1@x", 1, &[]), row("s2@x", 1, &[])]);
    let index = index_of(&["C/Abgaben/Team 1/s1/hw.pdf", "C/Abgaben/Team 1/s2/hw.pdf"]);
    let contents: Vec<&[u8]> = vec![b"first", b"second"];
    let mut disk = Disk::default();
    let mut extractor = IliasExtractor::new(teams, index);
    assert_eq!(
        run(&mut extractor, &configuration(false, false), &contents, &mut disk),
        Err(IliasError::AlreadyExists("s1_s2/hw.pdf".to_string()))
    );
    assert_eq!(disk.files["s1_s2/hw.pdf"], b"first");
    let teams = teams_of(vec![row("s1@x", 1, &[]), row("s2@x", 1, &[])]);
    let index = index_of(&["C/Abgaben/Team 1/s1/hw.pdf", "C/Abgaben/Team 1/s2/hw.pdf"]);
    let mut extractor = IliasExtractor::new(teams, index);
    assert_eq!(run(&mut extractor, &configuration(false, true), &contents, &mut disk), Ok(()));
    assert_eq!(disk.files["s1_s2/hw.pdf"], b"second");
}

#[test]
fn unknown_team_ends_the_run_after_earlier_copies() {
    let teams = teams_of(vec![row("s1@x", 1, &[])]);
    let index = index_of(&["C/Abgaben/Team 1/s1/a.pdf", "C/Abgaben/Team 9/zz/b.pdf"]);
    let contents: Vec<&[u8]> = vec![b"a", b"b"];
    let mut disk = Disk::default();
    let mut extractor = IliasExtractor::new(teams, index);
    assert_eq!(
        run(&mut extractor, &configuration(false, false), &contents, &mut disk),
        Err(IliasError::UnknownTeam(9))
    );
    assert_eq!(disk.files.len(), 1);
    assert_eq!(disk.files["s1/a.pdf"], b"a");
}

#[test]
fn login_without_username_ends_the_run_before_any_folder() {
    let teams = teams_of(vec![row("nobody", 1, &[])]);
    let mut disk = Disk::default();
    let mut extractor = IliasExtractor::new(teams, index_of(&["C/Abgaben/Team 1/s1/a.pdf"]));
    assert_eq!(
        run(&mut extractor, &configuration(true, false), &[b"a"], &mut disk),
        Err(IliasError::UnrecognizedLoginName("nobody".to_string()))
    );
    assert_eq!(disk, Disk::default());
}

#[test]
fn folder_that_is_a_file_is_a_conflict() {
    let teams = teams_of(vec![row("s1@x", 1, &[])]);
    let mut disk = Disk::default();
    disk.files.insert("s1".to_string(), b"in the way".to_vec());
    let mut extractor = IliasExtractor::new(teams, index_of(&["C/Abgaben/Team 1/s1/a.pdf"]));
    assert_eq!(
        run(&mut extractor, &configuration(true, true), &[b"a"], &mut disk),
        Err(IliasError::TargetConflict("s1".to_string()))
    );
    assert_eq!(disk.files.len(), 1);
    assert!(disk.folders.is_empty());
}

#[test]
fn existing_folder_is_used_and_summary_replaced() {
    let teams = teams_of(vec![row("s1@x", 1, &[])]);
    let mut disk = Disk::default();
    disk.folders.insert("s1".to_string());
    disk.files.insert("s1/summary.md".to_string(), b"old".to_vec());
    let mut extractor = IliasExtractor::new(teams, index_of(&[]));
    assert_eq!(run(&mut extractor, &configuration(true, false), &[], &mut disk), Ok(()));
    assert_eq!(disk.log, vec!["probe s1", "summary s1/summary.md"]);
    assert_eq!(
        disk.files["s1/summary.md"],
        b"# Team 1\n## Members:\n- Jane Doe (s1@x)\n## Submissions:\n"
    );
}

#[test]
fn team_number_that_does_not_fit_ends_the_run() {
    let teams = teams_of(vec![row("s1@x", 1, &[])]);
    let path = "C/Abgaben/Team 4294967297/s1/a.pdf";
    let mut extractor = IliasExtractor::new(teams, index_of(&[path]));
    let mut disk = Disk::default();
    assert_eq!(
        run(&mut extractor, &configuration(false, false), &[b"a"], &mut disk),
        Err(IliasError::TeamIdOutOfRange(path.to_string()))
    );
}

#[test]
fn nothing_to_do_finishes_at_once() {
    let mut extractor = IliasExtractor::new(HashMap::new(), ArchiveIndex::new());
    let settings = configuration(true, true);
    assert_eq!(extractor.extract(&settings, ExtractEvent::Started), ExtractAction::Finished);
    assert_eq!(
        extractor.extract(&settings, ExtractEvent::Started),
        ExtractAction::Abort(IliasError::UnexpectedEvent)
    );
}

#[test]
fn reported_failure_ends_the_run() {
    let teams = teams_of(vec![row("s1@x", 1, &[])]);
    let settings = configuration(false, false);
    let mut extractor = IliasExtractor::new(teams, index_of(&["C/Abgaben/Team 1/s1/a.pdf"]));
    assert_eq!(
        extractor.extract(&settings, ExtractEvent::Started),
        ExtractAction::ProbeFolder { team_id: 1, folder: "s1".to_string() }
    );
    assert_eq!(
        extractor.extract(&settings, ExtractEvent::Probed(FolderState::Missing)),
        ExtractAction::CreateFolder { team_id: 1, folder: "s1".to_string() }
    );
    assert_eq!(
        extractor.extract(&settings, ExtractEvent::Failed("disk full".to_string())),
        ExtractAction::Abort(IliasError::Io("disk full".to_string()))
    );
    assert_eq!(
        extractor.extract(&settings, ExtractEvent::Completed),
        ExtractAction::Abort(IliasError::UnexpectedEvent)
    );
}

#[test]
fn events_that_answer_nothing_end_the_run() {
    let settings = configuration(false, true);
    let teams = teams_of(vec![row("s1@x", 1, &[])]);
    let mut extractor = IliasExtractor::new(teams, index_of(&["C/Abgaben/Team 1/s1/a.pdf"]));
    assert_eq!(
        extractor.extract(&settings, ExtractEvent::Completed),
        ExtractAction::Abort(IliasError::UnexpectedEvent)
    );
    let teams = teams_of(vec![row("s1@x", 1, &[])]);
    let mut extractor = IliasExtractor::new(teams, index_of(&["C/Abgaben/Team 1/s1/a.pdf"]));
    extractor.extract(&settings, ExtractEvent::Started);
    assert_eq!(
        extractor.extract(&settings, ExtractEvent::Probed(FolderState::Directory)),
        ExtractAction::CopyEntry {
            team_id: 1,
            entry: 0,
            source: "C/Abgaben/Team 1/s1/a.pdf".to_string(),
            folder: "s1".to_string(),
            file_name: "a.pdf".to_string(),
            overwrite: true,
        }
    );
    assert_eq!(
        extractor.extract(&settings, ExtractEvent::DestinationExists),
        ExtractAction::Abort(IliasError::UnexpectedEvent)
    );
}
