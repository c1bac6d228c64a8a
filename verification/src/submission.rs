//! Teams, their members and what they handed in.

use crate::error::{ErrorView, IliasError};
use crate::text::{
    decimal, first_index, format_number, join, join_texts, lex_order, position, sort_texts, texts,
};
use crate::timestamp::Timestamp;
use vstd::prelude::*;

verus! {

/// A student (member of a team)
#[derive(Debug, Clone, PartialEq, Eq)]
pub struct IliasStudent {
    pub surname: String,
    pub name: String,
    pub login_name: String,
}

/// The mathematical content of an [`IliasStudent`].
pub struct StudentView {
    pub surname: Seq<char>,
    pub name: Seq<char>,
    pub login_name: Seq<char>,
}

impl View for IliasStudent {
    type V = StudentView;

    open spec fn view(&self) -> StudentView {
        StudentView { surname: self.surname@, name: self.name@, login_name: self.login_name@ }
    }
}

/// One submitted file, as the spreadsheet lists it.
#[derive(Debug, Clone, PartialEq, Eq)]
pub struct IliasSubmission {
    /// Date and time of submission
    pub timestamp: Timestamp,
    /// Title of the submission (file name without path)
    pub file_name: String,
}

/// The mathematical content of an [`IliasSubmission`].
pub struct SubmissionView {
    pub timestamp: Timestamp,
    pub file_name: Seq<char>,
}

impl View for IliasSubmission {
    type V = SubmissionView;

    open spec fn view(&self) -> SubmissionView {
        SubmissionView { timestamp: self.timestamp, file_name: self.file_name@ }
    }
}

/// A team of students
#[derive(Debug, Clone, PartialEq, Eq)]
pub struct IliasTeam {
    /// Numerical id given by Ilias
    pub id: i32,
    /// All their submitted files
    pub submissions: Vec<IliasSubmission>,
    /// All team members
    pub members: Vec<IliasStudent>,
}

/// The mathematical content of an [`IliasTeam`].
pub struct TeamView {
    pub id: int,
    pub submissions: Seq<SubmissionView>,
    pub members: Seq<StudentView>,
}

/// The contents of a list of students.
pub open spec fn student_views(students: Seq<IliasStudent>) -> Seq<StudentView> {
    Seq::new(students.len(), |i: int| students[i]@)
}

/// The contents of a list of submissions.
pub open spec fn submission_views(submissions: Seq<IliasSubmission>) -> Seq<SubmissionView> {
    Seq::new(submissions.len(), |i: int| submissions[i]@)
}

impl View for IliasTeam {
    type V = TeamView;

    open spec fn view(&self) -> TeamView {
        TeamView {
            id: self.id as int,
            submissions: submission_views(self.submissions@),
            members: student_views(self.members@),
        }
    }
}

/// The username in front of the first `@` of a login name: `abc123` for
/// `abc123@foo_bar`. There is none if the login name has no `@`, or nothing in
/// front of it.
pub open spec fn username_of(login_name: Seq<char>) -> Option<Seq<char>> {
    let at = first_index(login_name, '@');
    if 0 < at < login_name.len() {
        Some(login_name.subrange(0, at))
    } else {
        None
    }
}

/// The usernames of the members in member order, or the first login name that
/// has none.
pub open spec fn usernames_of(members: Seq<StudentView>) -> Result<Seq<Seq<char>>, Seq<char>>
    decreases members.len(),
{
    if members.len() == 0 {
        Ok(Seq::empty())
    } else {
        match usernames_of(members.drop_last()) {
            Err(login_name) => Err(login_name),
            Ok(names) => match username_of(members.last().login_name) {
                Some(name) => Ok(names.push(name)),
                None => Err(members.last().login_name),
            },
        }
    }
}

/// The folder name for a set of usernames: the usernames in dictionary order
/// with `_` between them.
pub open spec fn folder_of_usernames(names: Seq<Seq<char>>) -> Seq<char> {
    join(names.sort_by(lex_order()), seq!['_'])
}

/// The name of a team's folder, or the error that stands in its way.
pub open spec fn folder_name_of(members: Seq<StudentView>) -> Result<Seq<char>, ErrorView> {
    match usernames_of(members) {
        Ok(names) => Ok(folder_of_usernames(names)),
        Err(login_name) => Err(ErrorView::UnrecognizedLoginName(login_name)),
    }
}

/// The folder name depends on which usernames a team has and how often, not
/// on the order in which its members were met.
pub proof fn lemma_folder_ignores_member_order(first: Seq<Seq<char>>, second: Seq<Seq<char>>)
    requires
        first.to_multiset() == second.to_multiset(),
    ensures
        folder_of_usernames(first) == folder_of_usernames(second),
{
    crate::text::lemma_lex_total();
    first.lemma_sort_by_ensures(lex_order());
    second.lemma_sort_by_ensures(lex_order());
    vstd::seq_lib::lemma_sorted_unique(
        first.sort_by(lex_order()),
        second.sort_by(lex_order()),
        lex_order(),
    );
}

/// The usernames are all there exactly if every member has one, and then
/// they stand in member order.
pub proof fn lemma_usernames_of(members: Seq<StudentView>)
    ensures
        usernames_of(members) is Ok <==> forall|i: int|
            0 <= i < members.len() ==> username_of((#[trigger] members[i]).login_name) is Some,
        usernames_of(members) matches Ok(names) ==> names == members.map_values(
            |s: StudentView| username_of(s.login_name)->0,
        ),
    decreases members.len(),
{
    if members.len() > 0 {
        let front = members.drop_last();
        lemma_usernames_of(front);
        if usernames_of(members) is Ok {
            assert forall|i: int| 0 <= i < members.len() implies username_of(
                (#[trigger] members[i]).login_name,
            ) is Some by {
                if i < front.len() {
                    assert(front[i] == members[i]);
                }
            }
            assert(usernames_of(members)->Ok_0 =~= members.map_values(
                |s: StudentView| username_of(s.login_name)->0,
            ));
        }
        if forall|i: int|
            0 <= i < members.len() ==> username_of((#[trigger] members[i]).login_name) is Some {
            assert forall|i: int| 0 <= i < front.len() implies username_of(
                (#[trigger] front[i]).login_name,
            ) is Some by {
                assert(front[i] == members[i]);
            }
            assert(username_of(members[members.len() - 1].login_name) is Some);
        }
    } else {
        assert(usernames_of(members)->Ok_0 =~= members.map_values(
            |s: StudentView| username_of(s.login_name)->0,
        ));
    }
}

/// The same items in another order are mapped to the same items in another
/// order.
proof fn lemma_map_keeps_multiset<A, B>(first: Seq<A>, second: Seq<A>, f: spec_fn(A) -> B)
    requires
        first.to_multiset() == second.to_multiset(),
    ensures
        first.map_values(f).to_multiset() == second.map_values(f).to_multiset(),
    decreases first.len(),
{
    vstd::seq_lib::to_multiset_len(first);
    vstd::seq_lib::to_multiset_len(second);
    if first.len() == 0 {
        assert(first.map_values(f) =~= second.map_values(f));
    } else {
        let last = first.len() - 1;
        let x = first[last];
        vstd::seq_lib::to_multiset_contains(first, x);
        vstd::seq_lib::to_multiset_contains(second, x);
        assert(first.contains(x));
        let j = choose|j: int| 0 <= j < second.len() && second[j] == x;
        vstd::seq_lib::to_multiset_remove(first, last);
        vstd::seq_lib::to_multiset_remove(second, j);
        lemma_map_keeps_multiset(first.remove(last), second.remove(j), f);
        let mapped_first = first.map_values(f);
        let mapped_second = second.map_values(f);
        assert(mapped_first.remove(last) =~= first.remove(last).map_values(f));
        assert(mapped_second.remove(j) =~= second.remove(j).map_values(f));
        vstd::seq_lib::to_multiset_remove(mapped_first, last);
        vstd::seq_lib::to_multiset_remove(mapped_second, j);
        vstd::seq_lib::to_multiset_contains(mapped_first, f(x));
        vstd::seq_lib::to_multiset_contains(mapped_second, f(x));
        assert(mapped_first[last] == f(x));
        assert(mapped_second[j] == f(x));
        assert(mapped_first.contains(f(x)));
        assert(mapped_second.contains(f(x)));
        assert(mapped_first.to_multiset() =~= mapped_first.to_multiset().remove(f(x)).insert(
            f(x),
        ));
        assert(mapped_second.to_multiset() =~= mapped_second.to_multiset().remove(f(x)).insert(
            f(x),
        ));
    }
}

/// A team's folder does not depend on the order of its rows: the same
/// members in any order get the same folder name, or are refused alike.
pub proof fn lemma_folder_ignores_row_order(first: Seq<StudentView>, second: Seq<StudentView>)
    requires
        first.to_multiset() == second.to_multiset(),
    ensures
        folder_name_of(first) is Ok <==> folder_name_of(second) is Ok,
        folder_name_of(first) is Ok ==> folder_name_of(first) == folder_name_of(second),
{
    lemma_usernames_of(first);
    lemma_usernames_of(second);
    assert forall|i: int| 0 <= i < first.len() implies second.contains(#[trigger] first[i]) by {
        vstd::seq_lib::to_multiset_contains(first, first[i]);
        vstd::seq_lib::to_multiset_contains(second, first[i]);
        assert(first.contains(first[i]));
    }
    assert forall|i: int| 0 <= i < second.len() implies first.contains(#[trigger] second[i]) by {
        vstd::seq_lib::to_multiset_contains(first, second[i]);
        vstd::seq_lib::to_multiset_contains(second, second[i]);
        assert(second.contains(second[i]));
    }
    if usernames_of(first) is Ok {
        assert forall|i: int| 0 <= i < second.len() implies username_of(
            (#[trigger] second[i]).login_name,
        ) is Some by {
            assert(first.contains(second[i]));
            let k = choose|k: int| 0 <= k < first.len() && first[k] == second[i];
            assert(username_of(first[k].login_name) is Some);
        }
    }
    if usernames_of(second) is Ok {
        assert forall|i: int| 0 <= i < first.len() implies username_of(
            (#[trigger] first[i]).login_name,
        ) is Some by {
            assert(second.contains(first[i]));
            let k = choose|k: int| 0 <= k < second.len() && second[k] == first[i];
            assert(username_of(second[k].login_name) is Some);
        }
    }
    if usernames_of(first) is Ok {
        lemma_map_keeps_multiset(
            first,
            second,
            |s: StudentView| username_of(s.login_name)->0,
        );
        lemma_folder_ignores_member_order(usernames_of(first)->Ok_0, usernames_of(second)->Ok_0);
    }
}

/// One line of the member list: name, surname, then the login name in
/// brackets.
pub open spec fn member_line(student: StudentView) -> Seq<char> {
    "- "@ + student.name + " "@ + student.surname + " ("@ + student.login_name + ")"@
}

/// One line of the submission list: the file name, then the time in brackets.
pub open spec fn submission_line(submission: SubmissionView) -> Seq<char> {
    "- "@ + submission.file_name + " ("@ + submission.timestamp.text() + ")"@
}

/// The summary of a team: a heading with the team's id, its members and its
/// submissions, each list in the team's own order, one entry per line.
pub open spec fn summary_of(team: TeamView) -> Seq<char> {
    "# Team "@ + decimal(team.id) + "\n## Members:\n"@ + join(
        team.members.map_values(|s: StudentView| member_line(s)),
        "\n"@,
    ) + "\n## Submissions:\n"@ + join(
        team.submissions.map_values(|s: SubmissionView| submission_line(s)),
        "\n"@,
    )
}

impl IliasStudent {
    /// The username part (e.g. abc123) of the login name abc123@foo_bar
    pub fn username(&self) -> (found: Result<&str, IliasError>)
        ensures
            match found {
                Ok(name) => username_of(self@.login_name) == Some(name@),
                Err(e) => username_of(self@.login_name) is None && e@
                    == ErrorView::UnrecognizedLoginName(self@.login_name),
            },
    {
        let login = self.login_name.as_str();
        let at = position(login, '@');
        if 0 < at && at < login.unicode_len() {
            Ok(login.substring_char(0, at))
        } else {
            Err(IliasError::UnrecognizedLoginName(self.login_name.clone()))
        }
    }
}

impl IliasTeam {
    /// Creates a new empty team of an id
    pub fn new(id: i32) -> (team: IliasTeam)
        ensures
            team@ == (TeamView { id: id as int, submissions: Seq::empty(), members: Seq::empty() }),
    {
        let team = IliasTeam { id, submissions: Vec::new(), members: Vec::new() };
        assert(team@.submissions =~= Seq::empty());
        assert(team@.members =~= Seq::empty());
        team
    }

    /// The name of the folder that collects the team's files: the usernames of
    /// its members, sorted and joined by `_`.
    pub fn folder_name(&self) -> (named: Result<String, IliasError>)
        ensures
            match named {
                Ok(folder) => folder_name_of(self@.members) == Ok::<Seq<char>, ErrorView>(folder@),
                Err(e) => folder_name_of(self@.members) == Err::<Seq<char>, ErrorView>(e@),
            },
    {
        let mut names: Vec<String> = Vec::new();
        let mut i: usize = 0;
        assert(self@.members.subrange(0, 0) == Seq::<StudentView>::empty());
        assert(texts(names@) == Seq::<Seq<char>>::empty());
        while i < self.members.len()
            invariant
                i <= self.members.len(),
                usernames_of(self@.members.subrange(0, i as int)) == Ok::<
                    Seq<Seq<char>>,
                    Seq<char>,
                >(texts(names@)),
            decreases self.members.len() - i,
        {
            let ghost seen = self@.members.subrange(0, i as int);
            let ghost next = self@.members.subrange(0, i + 1);
            let ghost collected = texts(names@);
            assert(next.drop_last() == seen);
            assert(next.last() == self.members@[i as int]@);
            match self.members[i].username() {
                Ok(name) => {
                    let owned = name.to_owned();
                    names.push(owned);
                    assert(texts(names@) == collected.push(name@));
                },
                Err(e) => {
                    proof {
                        lemma_usernames_fail_early(self@.members, i + 1);
                    }
                    return Err(e);
                },
            }
            i += 1;
        }
        assert(self@.members.subrange(0, self.members.len() as int) == self@.members);
        let sorted = sort_texts(&names);
        proof {
            reveal_strlit("_");
            assert("_"@ =~= seq!['_']);
        }
        Ok(join_texts(&sorted, "_"))
    }

    /// Generates a Markdown summary of the team members and their submissions
    pub fn generate_summary(&self) -> (summary: String)
        ensures
            summary@ == summary_of(self@),
    {
        let mut member_lines: Vec<String> = Vec::new();
        let mut i: usize = 0;
        while i < self.members.len()
            invariant
                i <= self.members.len(),
                texts(member_lines@) == self@.members.subrange(0, i as int).map_values(
                    |s: StudentView| member_line(s),
                ),
            decreases self.members.len() - i,
        {
            let ghost before = texts(member_lines@);
            let member = &self.members[i];
            let mut line = String::new();
            line.append("- ");
            line.append(member.name.as_str());
            line.append(" ");
            line.append(member.surname.as_str());
            line.append(" (");
            line.append(member.login_name.as_str());
            line.append(")");
            assert(line@ == member_line(member@));
            member_lines.push(line);
            assert(texts(member_lines@) == before.push(member_line(member@)));
            i += 1;
        }
        assert(self@.members.subrange(0, self.members.len() as int) == self@.members);
        let mut file_lines: Vec<String> = Vec::new();
        let mut k: usize = 0;
        while k < self.submissions.len()
            invariant
                k <= self.submissions.len(),
                texts(file_lines@) == self@.submissions.subrange(0, k as int).map_values(
                    |s: SubmissionView| submission_line(s),
                ),
            decreases self.submissions.len() - k,
        {
            let ghost before = texts(file_lines@);
            let submission = &self.submissions[k];
            let mut line = String::new();
            line.append("- ");
            line.append(submission.file_name.as_str());
            line.append(" (");
            line.append(submission.timestamp.render().as_str());
            line.append(")");
            assert(line@ == submission_line(submission@));
            file_lines.push(line);
            assert(texts(file_lines@) == before.push(submission_line(submission@)));
            k += 1;
        }
        assert(self@.submissions.subrange(0, self.submissions.len() as int) == self@.submissions);
        let mut summary = String::new();
        summary.append("# Team ");
        summary.append(format_number(self.id).as_str());
        summary.append("\n## Members:\n");
        summary.append(join_texts(&member_lines, "\n").as_str());
        summary.append("\n## Submissions:\n");
        summary.append(join_texts(&file_lines, "\n").as_str());
        assert(summary@ == summary_of(self@));
        summary
    }
}

/// Once a prefix of the members has a login name without username, so has the
/// whole list, and it is the same one.
proof fn lemma_usernames_fail_early(members: Seq<StudentView>, k: int)
    requires
        0 <= k <= members.len(),
        usernames_of(members.subrange(0, k)) is Err,
    ensures
        usernames_of(members) == usernames_of(members.subrange(0, k)),
    decreases members.len() - k,
{
    if k == members.len() {
        assert(members.subrange(0, k) == members);
    } else {
        let longer = members.subrange(0, k + 1);
        assert(longer.drop_last() == members.subrange(0, k));
        lemma_usernames_fail_early(members, k + 1);
    }
}

} // verus!
