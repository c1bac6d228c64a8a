use ilias_extract::submission::{IliasStudent, IliasSubmission, IliasTeam};
use ilias_extract::timestamp::Timestamp;

fn student(surname: &str, name: &str, login_name: &str) -> IliasStudent {
    IliasStudent {
        surname: surname.to_string(),
        name: name.to_string(),
        login_name: login_name.to_string(),
    }
}

fn submission(file_name: &str, second: u32) -> IliasSubmission {
    IliasSubmission {
        timestamp: Timestamp::new(2024, 1, 1, 10, 0, second).unwrap(),
        file_name: file_name.to_string(),
    }
}

#[test]
fn summary_of_one_member_and_one_file() {
    let mut team = IliasTeam::new(1);
    team.members.push(student("Doe", "Jane", "s1@x"));
    team.submissions.push(submission("hw.pdf", 0));
    assert_eq!(
        team.generate_summary(),
        "# Team 1\n## Members:\n- Jane Doe (s1@x)\n## Submissions:\n- hw.pdf (2024-01-01 10:00:00)"
    );
}

#[test]
fn summary_keeps_the_order_of_the_team() {
    let mut team = IliasTeam::new(123);
    team.members.push(student("Zulu", "Zoe", "z9@uni"));
    team.members.push(student("Alpha", "Al", "a1@uni"));
    team.submissions.push(submission("b.pdf", 5));
    team.submissions.push(submission("a.pdf", 3));
    team.submissions.push(submission("b.pdf", 5));
    assert_eq!(
        team.generate_summary(),
        "# Team 123\n## Members:\n- Zoe Zulu (z9@uni)\n- Al Alpha (a1@uni)\n## Submissions:\n\
         - b.pdf (2024-01-01 10:00:05)\n- a.pdf (2024-01-01 10:00:03)\n- b.pdf (2024-01-01 10:00:05)"
    );
}

#[test]
fn summary_of_an_empty_team() {
    assert_eq!(IliasTeam::new(0).generate_summary(), "# Team 0\n## Members:\n\n## Submissions:\n");
    assert_eq!(
        IliasTeam::new(-17).generate_summary(),
        "# Team -17\n## Members:\n\n## Submissions:\n"
    );
}
