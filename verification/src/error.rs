//! Everything that can stop a run.

use crate::text::{decimal, format_number};
use vstd::prelude::*;

verus! {

/// A required text column of the spreadsheet.
#[derive(Debug, Clone, Copy, PartialEq, Eq, Structural)]
pub enum Field {
    Surname,
    Name,
    LoginName,
    Timestamp,
}

/// Why a run was given up. Nothing is retried or skipped: the first error ends
/// the run and is handed to the caller as it is.
#[derive(Debug, Clone, PartialEq, Eq)]
pub enum IliasError {
    /// A row lacks a required text cell.
    MissingField(Field),
    /// The timestamp cell of a row is not a `YYYY-MM-DD HH:MM:SS` date-time.
    MalformedTimestamp,
    /// The team cell of a row holds no number.
    MissingTeamId,
    /// The archive holds no spreadsheet.
    MissingMetadata,
    /// The archive holds a second spreadsheet, at this path.
    DuplicateMetadata(String),
    /// This login name has no username in front of an `@`.
    UnrecognizedLoginName(String),
    /// This team folder exists in the output and is not a directory.
    TargetConflict(String),
    /// This destination file exists and overwriting is off.
    AlreadyExists(String),
    /// A submission in the archive belongs to a team that the spreadsheet
    /// does not list.
    UnknownTeam(i32),
    /// This entry name leads out of the archive.
    PathTraversal(String),
    /// The team number in this archive path does not fit the team id type.
    TeamIdOutOfRange(String),
    /// Reading or writing failed; the text says where.
    Io(String),
    /// The extractor was told of something it had not asked for.
    UnexpectedEvent,
}

/// The mathematical content of an [`IliasError`].
pub enum ErrorView {
    MissingField(Field),
    MalformedTimestamp,
    MissingTeamId,
    MissingMetadata,
    DuplicateMetadata(Seq<char>),
    UnrecognizedLoginName(Seq<char>),
    TargetConflict(Seq<char>),
    AlreadyExists(Seq<char>),
    UnknownTeam(int),
    PathTraversal(Seq<char>),
    TeamIdOutOfRange(Seq<char>),
    Io(Seq<char>),
    UnexpectedEvent,
}

impl View for IliasError {
    type V = ErrorView;

    open spec fn view(&self) -> ErrorView {
        match *self {
            IliasError::MissingField(field) => ErrorView::MissingField(field),
            IliasError::MalformedTimestamp => ErrorView::MalformedTimestamp,
            IliasError::MissingTeamId => ErrorView::MissingTeamId,
            IliasError::MissingMetadata => ErrorView::MissingMetadata,
            IliasError::DuplicateMetadata(path) => ErrorView::DuplicateMetadata(path@),
            IliasError::UnrecognizedLoginName(login) => ErrorView::UnrecognizedLoginName(login@),
            IliasError::TargetConflict(folder) => ErrorView::TargetConflict(folder@),
            IliasError::AlreadyExists(file) => ErrorView::AlreadyExists(file@),
            IliasError::UnknownTeam(id) => ErrorView::UnknownTeam(id as int),
            IliasError::PathTraversal(name) => ErrorView::PathTraversal(name@),
            IliasError::TeamIdOutOfRange(path) => ErrorView::TeamIdOutOfRange(path@),
            IliasError::Io(what) => ErrorView::Io(what@),
            IliasError::UnexpectedEvent => ErrorView::UnexpectedEvent,
        }
    }
}

/// How a field is called in messages.
pub open spec fn field_name(field: Field) -> Seq<char> {
    match field {
        Field::Surname => "surname"@,
        Field::Name => "name"@,
        Field::LoginName => "login name"@,
        Field::Timestamp => "timestamp"@,
    }
}

/// The message of an error: what went wrong, with the path, field, login name
/// or team id that it went wrong with.
pub open spec fn description(error: ErrorView) -> Seq<char> {
    match error {
        ErrorView::MissingField(field) => "Missing "@ + field_name(field) + " in spreadsheet"@,
        ErrorView::MalformedTimestamp => "Malformed timestamp in spreadsheet"@,
        ErrorView::MissingTeamId => "Missing team id in spreadsheet"@,
        ErrorView::MissingMetadata => "Unable to find metadata file (xlsx file) in archive"@,
        ErrorView::DuplicateMetadata(path) => "Multiple metadata files matched: "@ + path,
        ErrorView::UnrecognizedLoginName(login) => {
            "Unrecognized login name (expected id123@foo_bar): "@ + login
        },
        ErrorView::TargetConflict(folder) => folder + " is not a directory"@,
        ErrorView::AlreadyExists(file) => "Unable to create new file: "@ + file
            + ", consider using --purge or --overwrite"@,
        ErrorView::UnknownTeam(id) => "Unable to find entry for team: "@ + decimal(id),
        ErrorView::PathTraversal(name) => "Illegal path in zip archive (zip slip?): "@ + name,
        ErrorView::TeamIdOutOfRange(path) => "Team number is too large: "@ + path,
        ErrorView::Io(what) => what,
        ErrorView::UnexpectedEvent => "The extractor was told of something it had not asked for"@,
    }
}

impl IliasError {
    /// The message of the error.
    pub fn describe(&self) -> (message: String)
        ensures
            message@ == description(self@),
    {
        let mut message = String::new();
        match self {
            IliasError::MissingField(field) => {
                message.append("Missing ");
                match field {
                    Field::Surname => message.append("surname"),
                    Field::Name => message.append("name"),
                    Field::LoginName => message.append("login name"),
                    Field::Timestamp => message.append("timestamp"),
                }
                message.append(" in spreadsheet");
            },
            IliasError::MalformedTimestamp => {
                message.append("Malformed timestamp in spreadsheet");
            },
            IliasError::MissingTeamId => {
                message.append("Missing team id in spreadsheet");
            },
            IliasError::MissingMetadata => {
                message.append("Unable to find metadata file (xlsx file) in archive");
            },
            IliasError::DuplicateMetadata(path) => {
                message.append("Multiple metadata files matched: ");
                message.append(path.as_str());
            },
            IliasError::UnrecognizedLoginName(login) => {
                message.append("Unrecognized login name (expected id123@foo_bar): ");
                message.append(login.as_str());
            },
            IliasError::TargetConflict(folder) => {
                message.append(folder.as_str());
                message.append(" is not a directory");
            },
            IliasError::AlreadyExists(file) => {
                message.append("Unable to create new file: ");
                message.append(file.as_str());
                message.append(", consider using --purge or --overwrite");
            },
            IliasError::UnknownTeam(id) => {
                message.append("Unable to find entry for team: ");
                message.append(format_number(*id).as_str());
            },
            IliasError::PathTraversal(name) => {
                message.append("Illegal path in zip archive (zip slip?): ");
                message.append(name.as_str());
            },
            IliasError::TeamIdOutOfRange(path) => {
                message.append("Team number is too large: ");
                message.append(path.as_str());
            },
            IliasError::Io(what) => {
                message.append(what.as_str());
            },
            IliasError::UnexpectedEvent => {
                message.append("The extractor was told of something it had not asked for");
            },
        }
        assert(message@ =~= description(self@));
        message
    }
}

} // verus!
