use ilias_extract::error::{Field, IliasError};

#[test]
fn messages_of_the_spreadsheet_errors() {
    assert_eq!(IliasError::MissingField(Field::Surname).describe(), "Missing surname in spreadsheet");
    assert_eq!(IliasError::MissingField(Field::Name).describe(), "Missing name in spreadsheet");
    assert_eq!(
        IliasError::MissingField(Field::LoginName).describe(),
        "Missing login name in spreadsheet"
    );
    assert_eq!(
        IliasError::MissingField(Field::Timestamp).describe(),
        "Missing timestamp in spreadsheet"
    );
    assert_eq!(IliasError::MalformedTimestamp.describe(), "Malformed timestamp in spreadsheet");
    assert_eq!(IliasError::MissingTeamId.describe(), "Missing team id in spreadsheet");
}

#[test]
fn messages_of_the_archive_errors() {
    assert_eq!(
        IliasError::MissingMetadata.describe(),
        "Unable to find metadata file (xlsx file) in archive"
    );
    assert_eq!(
        IliasError::DuplicateMetadata("C/b.xlsx".to_string()).describe(),
        "Multiple metadata files matched: C/b.xlsx"
    );
    assert_eq!(
        IliasError::PathTraversal("../x".to_string()).describe(),
        "Illegal path in zip archive (zip slip?): ../x"
    );
    assert_eq!(
        IliasError::TeamIdOutOfRange("C/Abgaben/Team 9999999999/a/b.c".to_string()).describe(),
        "Team number is too large: C/Abgaben/Team 9999999999/a/b.c"
    );
}

#[test]
fn messages_of_the_extraction_errors() {
    assert_eq!(
        IliasError::UnrecognizedLoginName("nobody".to_string()).describe(),
        "Unrecognized login name (expected id123@foo_bar): nobody"
    );
    assert_eq!(
        IliasError::TargetConflict("out/s1".to_string()).describe(),
        "out/s1 is not a directory"
    );
    assert_eq!(
        IliasError::AlreadyExists("out/s1/hw.pdf".to_string()).describe(),
        "Unable to create new file: out/s1/hw.pdf, consider using --purge or --overwrite"
    );
    assert_eq!(IliasError::UnknownTeam(9).describe(), "Unable to find entry for team: 9");
    assert_eq!(IliasError::UnknownTeam(-3).describe(), "Unable to find entry for team: -3");
    assert_eq!(IliasError::Io("disk full".to_string()).describe(), "disk full");
    assert_eq!(
        IliasError::UnexpectedEvent.describe(),
        "The extractor was told of something it had not asked for"
    );
}
