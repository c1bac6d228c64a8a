//! The shapes of the paths inside an archive: where the spreadsheet lies,
//! where submissions lie, and which names stay inside the archive.

use crate::error::{ErrorView, IliasError};
use crate::text::{
    all_digits, all_letters, decimal_value, first_index, is_all_digits, is_all_letters,
    parse_digits, position, split, split_text, text_eq, texts,
};
use vstd::prelude::*;

verus! {

/// The extension of the spreadsheet: `.xlsx`.
pub open spec fn metadata_extension() -> Seq<char> {
    seq!['.', 'x', 'l', 's', 'x']
}

/// The folder that holds all submissions: `Abgaben`.
pub open spec fn submissions_folder() -> Seq<char> {
    seq!['A', 'b', 'g', 'a', 'b', 'e', 'n']
}

/// What a team folder's name starts with: `Team` and a space.
pub open spec fn team_prefix() -> Seq<char> {
    seq!['T', 'e', 'a', 'm', ' ']
}

/// Whether `s` ends in `suffix`.
pub open spec fn ends_with(s: Seq<char>, suffix: Seq<char>) -> bool {
    s.len() >= suffix.len() && s.subrange(s.len() - suffix.len(), s.len() as int) == suffix
}

/// Whether `s` starts with `prefix`.
pub open spec fn starts_with(s: Seq<char>, prefix: Seq<char>) -> bool {
    s.len() >= prefix.len() && s.subrange(0, prefix.len() as int) == prefix
}

/// The metadata pattern: a top-level folder, then a file whose name is a
/// stem followed by `.xlsx`. Nothing may come before, between or after.
pub open spec fn is_metadata_path(path: Seq<char>) -> bool {
    let segments = split(path, '/');
    &&& segments.len() == 2
    &&& segments[0].len() > 0
    &&& segments[1].len() > metadata_extension().len()
    &&& ends_with(segments[1], metadata_extension())
}

/// The digits of a team folder's name `Team <digits>`.
pub open spec fn team_digits(segment: Seq<char>) -> Option<Seq<char>> {
    let digits = segment.subrange(team_prefix().len() as int, segment.len() as int);
    if segment.len() > team_prefix().len() && starts_with(segment, team_prefix()) && all_digits(
        digits,
    ) {
        Some(digits)
    } else {
        None
    }
}

/// Stem and extension of a file name with exactly one dot, something in
/// front of it, and one or more ASCII letters behind it.
pub open spec fn file_parts(name: Seq<char>) -> Option<(Seq<char>, Seq<char>)> {
    let dot = first_index(name, '.');
    let extension = name.subrange(dot + 1, name.len() as int);
    if 0 < dot < name.len() - 1 && all_letters(extension) {
        Some((name.subrange(0, dot), extension))
    } else {
        None
    }
}

/// The captures of the submission pattern
/// `<top>/Abgaben/Team <digits>/<subfolder>/<stem>.<extension>`:
/// the digits, the stem and the extension. The pattern covers the whole path
/// and is case-sensitive; the top folder and the subfolder are any non-empty
/// segments.
pub open spec fn submission_captures(path: Seq<char>) -> Option<
    (Seq<char>, Seq<char>, Seq<char>),
> {
    let segments = split(path, '/');
    if segments.len() == 5 && segments[0].len() > 0 && segments[1] == submissions_folder()
        && segments[3].len() > 0 {
        match (team_digits(segments[2]), file_parts(segments[4])) {
            (Some(digits), Some((stem, extension))) => Some((digits, stem, extension)),
            _ => None,
        }
    } else {
        None
    }
}

/// A path that matched the submission pattern.
#[derive(Debug, Clone, PartialEq, Eq)]
pub struct SubmissionPath {
    /// The number in the team folder's name.
    pub team_id: i32,
    /// The file name up to its dot.
    pub stem: String,
    /// The file name behind its dot.
    pub extension: String,
}

/// The mathematical content of a [`SubmissionPath`].
pub struct SubmissionPathView {
    pub team_id: int,
    pub stem: Seq<char>,
    pub extension: Seq<char>,
}

impl View for SubmissionPath {
    type V = SubmissionPathView;

    open spec fn view(&self) -> SubmissionPathView {
        SubmissionPathView {
            team_id: self.team_id as int,
            stem: self.stem@,
            extension: self.extension@,
        }
    }
}

/// What the submission pattern makes of a path: no match, a match with its
/// captures, or an error where the path matches but its team number is too
/// large for a team id.
pub open spec fn submission_match(path: Seq<char>) -> Result<Option<SubmissionPathView>, ErrorView> {
    match submission_captures(path) {
        None => Ok(None),
        Some((digits, stem, extension)) => if decimal_value(digits) <= i32::MAX {
            Ok(Some(SubmissionPathView { team_id: decimal_value(digits), stem, extension }))
        } else {
            Err(ErrorView::TeamIdOutOfRange(path))
        },
    }
}

/// How deep below the root a walk along `segments` ends, or `None` if it
/// climbs above the root on the way. Empty segments and `.` stay in place,
/// `..` climbs, anything else descends.
pub open spec fn depth_after(segments: Seq<Seq<char>>) -> Option<nat>
    decreases segments.len(),
{
    if segments.len() == 0 {
        Some(0)
    } else {
        match depth_after(segments.drop_last()) {
            None => None,
            Some(depth) => {
                let step = segments.last();
                if step.len() == 0 || step == seq!['.'] {
                    Some(depth)
                } else if step == seq!['.', '.'] {
                    if depth == 0 {
                        None
                    } else {
                        Some((depth - 1) as nat)
                    }
                } else {
                    Some(depth + 1)
                }
            },
        }
    }
}

/// Whether an entry name resolves strictly inside the archive root: it is
/// relative, holds no NUL, never climbs above the root and ends below it.
pub open spec fn stays_inside(path: Seq<char>) -> bool {
    &&& !path.contains('\0')
    &&& !(path.len() > 0 && path[0] == '/')
    &&& depth_after(split(path, '/')) matches Some(depth) && depth > 0
}

/// Tests a path against the metadata pattern.
pub fn matches_metadata_pattern(path: &str) -> (matched: bool)
    ensures
        matched == is_metadata_path(path@),
{
    let segments = split_text(path, '/');
    if segments.len() != 2 {
        return false;
    }
    assert(texts(segments@)[0] == segments@[0]@ && texts(segments@)[1] == segments@[1]@);
    let folder = segments[0].as_str();
    let file = segments[1].as_str();
    let n: usize = file.unicode_len();
    if folder.unicode_len() == 0 || n <= 5 {
        return false;
    }
    proof {
        reveal_strlit(".xlsx");
        assert(".xlsx"@ =~= metadata_extension());
    }
    text_eq(file.substring_char(n - 5, n), ".xlsx")
}

fn parse_team_segment(segment: &str) -> (digits: Option<&str>)
    ensures
        match digits {
            Some(d) => team_digits(segment@) == Some(d@),
            None => team_digits(segment@) is None,
        },
{
    let n: usize = segment.unicode_len();
    if n <= 5 {
        return None;
    }
    proof {
        reveal_strlit("Team ");
        assert("Team "@ =~= team_prefix());
    }
    if !text_eq(segment.substring_char(0, 5), "Team ") {
        return None;
    }
    let digits = segment.substring_char(5, n);
    if is_all_digits(digits) {
        Some(digits)
    } else {
        None
    }
}

fn parse_file_name(name: &str) -> (parts: Option<(&str, &str)>)
    ensures
        match parts {
            Some((stem, extension)) => file_parts(name@) == Some((stem@, extension@)),
            None => file_parts(name@) is None,
        },
{
    let n: usize = name.unicode_len();
    let dot = position(name, '.');
    if dot == 0 || dot >= n || dot + 1 >= n {
        return None;
    }
    let extension = name.substring_char(dot + 1, n);
    if is_all_letters(extension) {
        Some((name.substring_char(0, dot), extension))
    } else {
        None
    }
}

/// Tests a path against the submission pattern and hands out its captures.
pub fn match_submission_path(path: &str) -> (matched: Result<Option<SubmissionPath>, IliasError>)
    ensures
        match matched {
            Ok(Some(m)) => submission_match(path@) == Ok::<Option<SubmissionPathView>, ErrorView>(
                Some(m@),
            ),
            Ok(None) => submission_match(path@) == Ok::<Option<SubmissionPathView>, ErrorView>(
                None,
            ),
            Err(e) => submission_match(path@) == Err::<Option<SubmissionPathView>, ErrorView>(e@),
        },
{
    let segments = split_text(path, '/');
    if segments.len() != 5 {
        return Ok(None);
    }
    assert(forall|i: int| 0 <= i < 5 ==> texts(segments@)[i] == segments@[i]@);
    proof {
        reveal_strlit("Abgaben");
        assert("Abgaben"@ =~= submissions_folder());
    }
    if segments[0].as_str().unicode_len() == 0 || !text_eq(segments[1].as_str(), "Abgaben")
        || segments[3].as_str().unicode_len() == 0 {
        return Ok(None);
    }
    let digits = match parse_team_segment(segments[2].as_str()) {
        Some(digits) => digits,
        None => {
            return Ok(None);
        },
    };
    let (stem, extension) = match parse_file_name(segments[4].as_str()) {
        Some(parts) => parts,
        None => {
            return Ok(None);
        },
    };
    assert(submission_captures(path@) == Some((digits@, stem@, extension@)));
    match parse_digits(digits) {
        Some(team_id) => {
            let found = SubmissionPath {
                team_id,
                stem: stem.to_owned(),
                extension: extension.to_owned(),
            };
            assert(found@ == (SubmissionPathView {
                team_id: decimal_value(digits@),
                stem: stem@,
                extension: extension@,
            }));
            Ok(Some(found))
        },
        None => Err(IliasError::TeamIdOutOfRange(path.to_owned())),
    }
}

/// Whether an entry name stays strictly inside the archive root.
pub fn is_enclosed(path: &str) -> (inside: bool)
    ensures
        inside == stays_inside(path@),
{
    let n: usize = path.unicode_len();
    if position(path, '\0') < n {
        proof {
            crate::text::lemma_first_index(path@, '\0');
            assert(path@.contains(path@[first_index(path@, '\0')]));
        }
        return false;
    }
    proof {
        crate::text::lemma_first_index(path@, '\0');
    }
    if n > 0 && path.get_char(0) == '/' {
        return false;
    }
    let segments = split_text(path, '/');
    let mut depth: usize = 0;
    let mut i: usize = 0;
    assert(texts(segments@).subrange(0, 0) == Seq::<Seq<char>>::empty());
    while i < segments.len()
        invariant
            i <= segments.len(),
            depth <= i,
            texts(segments@) == split(path@, '/'),
            depth_after(texts(segments@).subrange(0, i as int)) == Some(depth as nat),
        decreases segments.len() - i,
    {
        let ghost seen = texts(segments@).subrange(0, i as int);
        let ghost next = texts(segments@).subrange(0, i + 1);
        assert(next.drop_last() == seen);
        assert(next.last() == segments@[i as int]@);
        let step = segments[i].as_str();
        proof {
            reveal_strlit(".");
            reveal_strlit("..");
            assert("."@ =~= seq!['.']);
            assert(".."@ =~= seq!['.', '.']);
        }
        if step.unicode_len() == 0 || text_eq(step, ".") {
        } else if text_eq(step, "..") {
            if depth == 0 {
                proof {
                    assert(depth_after(next) is None);
                    lemma_escape_is_final(texts(segments@), i + 1);
                }
                return false;
            }
            depth -= 1;
        } else {
            depth += 1;
        }
        i += 1;
    }
    assert(texts(segments@).subrange(0, segments.len() as int) == texts(segments@));
    depth > 0
}

/// A walk that has left the root stays out, whatever follows.
proof fn lemma_escape_is_final(segments: Seq<Seq<char>>, k: int)
    requires
        0 <= k <= segments.len(),
        depth_after(segments.subrange(0, k)) is None,
    ensures
        depth_after(segments) is None,
    decreases segments.len() - k,
{
    if k == segments.len() {
        assert(segments.subrange(0, k) == segments);
    } else {
        assert(segments.subrange(0, k + 1).drop_last() == segments.subrange(0, k));
        lemma_escape_is_final(segments, k + 1);
    }
}

} // verus!
