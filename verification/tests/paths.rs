use ilias_extract::archive::{scan_archive, ArchiveIndex};
use ilias_extract::error::IliasError;
use ilias_extract::path::{
    is_enclosed, match_submission_path, matches_metadata_pattern, SubmissionPath,
};
use regex::Regex;

fn submission(team_id: i32, stem: &str, extension: &str) -> SubmissionPath {
    SubmissionPath { team_id, stem: stem.to_string(), extension: extension.to_string() }
}

fn names(list: &[&str]) -> Vec<String> {
    list.iter().map(|name| name.to_string()).collect()
}

#[test]
fn metadata_pattern_matches_a_spreadsheet_in_the_top_folder() {
    assert!(matches_metadata_pattern("export/data.xlsx"));
}

#[test]
fn metadata_pattern_rejects_more_segments() {
    assert!(!matches_metadata_pattern("export/sub/data.xlsx"));
}

#[test]
fn metadata_pattern_rejects_another_extension() {
    assert!(!matches_metadata_pattern("export/data.csv"));
}

#[test]
fn metadata_pattern_edges() {
    assert!(!matches_metadata_pattern("data.xlsx"));
    assert!(!matches_metadata_pattern("/data.xlsx"));
    assert!(!matches_metadata_pattern("export/.xlsx"));
    assert!(!matches_metadata_pattern("export/dataxxlsx"));
    assert!(!matches_metadata_pattern("export/data.XLSX"));
    assert!(!matches_metadata_pattern("export/data.xlsx/"));
    assert!(!matches_metadata_pattern(""));
    assert!(matches_metadata_pattern("e/a.xlsx"));
    assert!(matches_metadata_pattern("Übung 1/Abgaben übersicht.xlsx"));
    assert!(matches_metadata_pattern("export/data.xlsx.xlsx"));
}

#[test]
fn submission_pattern_captures_team_stem_and_extension() {
    assert_eq!(
        match_submission_path("Course/Abgaben/Team 7/Jane/essay.pdf"),
        Ok(Some(submission(7, "essay", "pdf")))
    );
}

#[test]
fn submission_pattern_needs_the_team_literal() {
    assert_eq!(match_submission_path("Course/Abgaben/7/Jane/essay.pdf"), Ok(None));
}

#[test]
fn submission_pattern_is_anchored_and_case_sensitive() {
    for path in [
        "Course/abgaben/Team 7/Jane/essay.pdf",
        "Course/Abgaben/team 7/Jane/essay.pdf",
        "Course/Abgaben/Team 7/Jane/sub/essay.pdf",
        "Abgaben/Team 7/Jane/essay.pdf",
        "/Abgaben/Team 7/Jane/essay.pdf",
        "Course/Abgaben/Team 7//essay.pdf",
        "Course/Abgaben/Team /Jane/essay.pdf",
        "Course/Abgaben/Team 7a/Jane/essay.pdf",
        "Course/Abgaben/Team  7/Jane/essay.pdf",
        "Course/Abgaben/Team 7/Jane/essay",
        "Course/Abgaben/Team 7/Jane/essay.",
        "Course/Abgaben/Team 7/Jane/.pdf",
        "Course/Abgaben/Team 7/Jane/essay.p1",
        "Course/Abgaben/Team 7/Jane/a.b.pdf",
        "Course/Abgaben/Team 7/Jane/essayXpdf",
        "Course/Abgaben/Team 7/Jane/essay.pdf/",
        "",
    ] {
        assert_eq!(match_submission_path(path), Ok(None), "{}", path);
    }
}

#[test]
fn submission_pattern_reads_the_team_number() {
    assert_eq!(
        match_submission_path("C/Abgaben/Team 007/x/a.TXT"),
        Ok(Some(submission(7, "a", "TXT")))
    );
    assert_eq!(
        match_submission_path("C/Abgaben/Team 0/x/a.b"),
        Ok(Some(submission(0, "a", "b")))
    );
    assert_eq!(
        match_submission_path("C/Abgaben/Team 2147483647/x y/my essay.pdf"),
        Ok(Some(submission(2147483647, "my essay", "pdf")))
    );
}

#[test]
fn submission_pattern_reports_a_team_number_that_does_not_fit() {
    let path = "C/Abgaben/Team 2147483648/x/a.pdf";
    assert_eq!(match_submission_path(path), Err(IliasError::TeamIdOutOfRange(path.to_string())));
    let path = "C/Abgaben/Team 99999999999999999999/x/a.pdf";
    assert_eq!(match_submission_path(path), Err(IliasError::TeamIdOutOfRange(path.to_string())));
}

#[test]
fn patterns_agree_with_regular_expressions() {
    let metadata = Regex::new(r"\A([^/]+)/([^/]+)\.xlsx\z").unwrap();
    let submission =
        Regex::new(r"\A([^/]+)/Abgaben/Team ([0-9]+)/([^/]+)/([^./]+)\.([a-zA-Z]+)\z").unwrap();
    let paths = [
        "export/data.xlsx",
        "export/sub/data.xlsx",
        "export/data.csv",
        "export/.xlsx",
        "a/b.xlsx",
        "a/b.c.xlsx",
        "Course/Abgaben/Team 7/Jane/essay.pdf",
        "Course/Abgaben/7/Jane/essay.pdf",
        "Course/Abgaben/Team 12/Jane Doe/essay v2.PDF",
        "Course/Abgaben/Team 12/Jane/essay.tar.gz",
        "Course/Abgaben/Team 12/Jane/essay.7z",
        "Course/Abgaben/Team 12/Jane/.gitignore",
        "Course/Abgaben/Team 12/Jane/essay.",
        "Course/Abgaben/Team 12//essay.pdf",
        "Course/Abgaben/Team x/Jane/essay.pdf",
        "Course/Abgaben/Team 12/Jane/deep/essay.pdf",
        "Course/Abgaben/Team 12/Ja.ne/essay.pdf",
        "",
        "/",
        "////",
    ];
    for path in paths {
        assert_eq!(matches_metadata_pattern(path), metadata.is_match(path), "{}", path);
        let expected = submission.captures(path).map(|found| {
            SubmissionPath {
                team_id: found[2].parse().unwrap(),
                stem: found[4].to_string(),
                extension: found[5].to_string(),
            }
        });
        assert_eq!(match_submission_path(path), Ok(expected), "{}", path);
    }
}

#[test]
fn traversal_is_not_enclosed() {
    assert!(!is_enclosed("../../etc/passwd"));
}

#[test]
fn enclosed_paths() {
    assert!(is_enclosed("a"));
    assert!(is_enclosed("a/b"));
    assert!(is_enclosed("a/"));
    assert!(is_enclosed("./a"));
    assert!(is_enclosed("a/../b"));
    assert!(is_enclosed("a/b/../../c"));
    assert!(is_enclosed("..a/b"));
    assert!(is_enclosed("a/.../b"));
    assert!(is_enclosed("C/Abgaben/Team 1/s1/hw.pdf"));
}

#[test]
fn paths_that_leave_or_only_reach_the_root() {
    assert!(!is_enclosed(""));
    assert!(!is_enclosed("."));
    assert!(!is_enclosed(".."));
    assert!(!is_enclosed("/"));
    assert!(!is_enclosed("/etc/passwd"));
    assert!(!is_enclosed("a/.."));
    assert!(!is_enclosed("a/../.."));
    assert!(!is_enclosed("a/../../b"));
    assert!(!is_enclosed("../a"));
    assert!(!is_enclosed("a/b/../../../c/d"));
    assert!(!is_enclosed("a\0b"));
    assert!(!is_enclosed("a/b\0"));
}

#[test]
fn index_refuses_traversal() {
    let mut index = ArchiveIndex::new();
    assert_eq!(index.insert("a/b.txt".to_string(), 3), Ok(()));
    assert_eq!(
        index.insert("../../etc/passwd".to_string(), 4),
        Err(IliasError::PathTraversal("../../etc/passwd".to_string()))
    );
    assert_eq!(index.len(), 1);
    assert_eq!(index.get("../../etc/passwd"), None);
    assert_eq!(index.get("a/b.txt"), Some(3));
}

#[test]
fn index_keeps_one_entry_per_path() {
    let mut index = ArchiveIndex::new();
    assert_eq!(index.insert("a".to_string(), 1), Ok(()));
    assert_eq!(index.insert("b".to_string(), 2), Ok(()));
    assert_eq!(index.insert("a".to_string(), 5), Ok(()));
    assert_eq!(index.len(), 2);
    assert_eq!(index.get("a"), Some(5));
    assert_eq!(index.get("b"), Some(2));
    assert_eq!(index.get("c"), None);
    assert_eq!(index.entry(0).unwrap().path, "a");
    assert_eq!(index.entry(0).unwrap().index, 5);
    assert_eq!(index.entry(1).unwrap().path, "b");
    assert_eq!(index.entry(2), None);
}

#[test]
fn scan_finds_the_spreadsheet_and_files_the_rest() {
    let scan = scan_archive(&names(&[
        "C/",
        "C/Abgaben/Team 1/s1/hw.pdf",
        "C/data.xlsx",
        "C/Abgaben/Team 2/s2/hw.pdf",
    ]))
    .unwrap();
    assert_eq!(scan.metadata, 2);
    assert_eq!(scan.index.len(), 3);
    assert_eq!(scan.index.get("C/"), Some(0));
    assert_eq!(scan.index.get("C/Abgaben/Team 1/s1/hw.pdf"), Some(1));
    assert_eq!(scan.index.get("C/Abgaben/Team 2/s2/hw.pdf"), Some(3));
    assert_eq!(scan.index.get("C/data.xlsx"), None);
}

#[test]
fn scan_without_spreadsheet_fails() {
    assert_eq!(scan_archive(&names(&["C/a.pdf"])), Err(IliasError::MissingMetadata));
    assert_eq!(scan_archive(&names(&[])), Err(IliasError::MissingMetadata));
}

#[test]
fn scan_with_two_spreadsheets_fails() {
    assert_eq!(
        scan_archive(&names(&["C/a.xlsx", "C/x.pdf", "C/b.xlsx"])),
        Err(IliasError::DuplicateMetadata("C/b.xlsx".to_string()))
    );
}

#[test]
fn scan_stops_at_traversal() {
    assert_eq!(
        scan_archive(&names(&["C/a.xlsx", "../../etc/passwd", "C/b.xlsx"])),
        Err(IliasError::PathTraversal("../../etc/passwd".to_string()))
    );
    assert_eq!(
        scan_archive(&names(&["../../etc/passwd"])),
        Err(IliasError::PathTraversal("../../etc/passwd".to_string()))
    );
}
