use ilias_extract::error::IliasError;
use ilias_extract::submission::{IliasStudent, IliasTeam};
use ilias_extract::text::{format_number, join_texts, parse_digits, sort_texts, split_text, text_le};

fn student(login_name: &str) -> IliasStudent {
    IliasStudent {
        surname: "Doe".to_string(),
        name: "Jane".to_string(),
        login_name: login_name.to_string(),
    }
}

fn team_of(logins: &[&str]) -> IliasTeam {
    let mut team = IliasTeam::new(1);
    for login in logins {
        team.members.push(student(login));
    }
    team
}

#[test]
fn username_is_the_part_before_the_at_sign() {
    assert_eq!(student("abc123@foo_bar").username(), Ok("abc123"));
}

#[test]
fn username_needs_an_at_sign() {
    assert_eq!(
        student("no-at-sign").username(),
        Err(IliasError::UnrecognizedLoginName("no-at-sign".to_string()))
    );
}

#[test]
fn username_must_not_be_empty() {
    assert_eq!(
        student("@realm").username(),
        Err(IliasError::UnrecognizedLoginName("@realm".to_string()))
    );
    assert_eq!(student("").username(), Err(IliasError::UnrecognizedLoginName(String::new())));
}

#[test]
fn username_ends_at_the_first_at_sign() {
    assert_eq!(student("a@b@c").username(), Ok("a"));
    assert_eq!(student("a@").username(), Ok("a"));
    assert_eq!(student("ü1@x").username(), Ok("ü1"));
}

#[test]
fn new_team_is_empty() {
    let team = IliasTeam::new(42);
    assert_eq!(team.id, 42);
    assert!(team.members.is_empty());
    assert!(team.submissions.is_empty());
}

#[test]
fn folder_name_sorts_the_usernames() {
    assert_eq!(team_of(&["b1@x", "a2@x"]).folder_name(), Ok("a2_b1".to_string()));
    assert_eq!(team_of(&["a2@x", "b1@x"]).folder_name(), Ok("a2_b1".to_string()));
}

#[test]
fn folder_name_of_one_member_is_the_username() {
    assert_eq!(team_of(&["s1@x"]).folder_name(), Ok("s1".to_string()));
}

#[test]
fn folder_name_keeps_repeated_usernames() {
    assert_eq!(team_of(&["c@x", "a@y", "c@z", "b@x"]).folder_name(), Ok("a_b_c_c".to_string()));
}

#[test]
fn folder_name_of_no_members_is_empty() {
    assert_eq!(team_of(&[]).folder_name(), Ok(String::new()));
}

#[test]
fn folder_name_reports_the_first_bad_login() {
    assert_eq!(
        team_of(&["a@x", "bad", "worse"]).folder_name(),
        Err(IliasError::UnrecognizedLoginName("bad".to_string()))
    );
}

#[test]
fn folder_name_orders_like_rust_strings() {
    let logins = ["Zed@x", "abc@x", "ab@x", "a_b@x", "A1@x", "ä@x", "10@x", "9@x"];
    let mut expected: Vec<&str> = logins.iter().map(|l| l.split('@').next().unwrap()).collect();
    expected.sort();
    assert_eq!(team_of(&logins).folder_name(), Ok(expected.join("_")));
}

#[test]
fn text_order_is_dictionary_order() {
    assert!(text_le("", ""));
    assert!(text_le("", "a"));
    assert!(!text_le("a", ""));
    assert!(text_le("ab", "abc"));
    assert!(!text_le("abc", "ab"));
    assert!(text_le("abc", "abd"));
    assert!(!text_le("b", "a"));
    assert!(text_le("Z", "a"));
    assert!(text_le("same", "same"));
}

#[test]
fn sort_texts_sorts() {
    let names: Vec<String> = ["pear", "apple", "fig", "apple"].iter().map(|s| s.to_string()).collect();
    assert_eq!(sort_texts(&names), vec!["apple", "apple", "fig", "pear"]);
    assert_eq!(sort_texts(&Vec::new()), Vec::<String>::new());
}

#[test]
fn split_text_cuts_at_every_separator() {
    assert_eq!(split_text("a/b/c", '/'), vec!["a", "b", "c"]);
    assert_eq!(split_text("", '/'), vec![""]);
    assert_eq!(split_text("/", '/'), vec!["", ""]);
    assert_eq!(split_text("a//b/", '/'), vec!["a", "", "b", ""]);
    assert_eq!(split_text("no separator", '/'), vec!["no separator"]);
}

#[test]
fn join_texts_puts_the_separator_between() {
    let parts: Vec<String> = ["a", "", "b"].iter().map(|s| s.to_string()).collect();
    assert_eq!(join_texts(&parts, "_"), "a__b");
    assert_eq!(join_texts(&Vec::new(), "_"), "");
    assert_eq!(join_texts(&vec!["only".to_string()], ", "), "only");
}

#[test]
fn split_and_join_are_inverse() {
    for text in ["", "/", "a/b", "//a//", "Course/Abgaben/Team 7/Jane/essay.pdf"] {
        assert_eq!(join_texts(&split_text(text, '/'), "/"), text);
    }
}

#[test]
fn format_number_prints_like_rust() {
    for n in [0, 7, 10, 42, 100, 2147483647, -1, -10, -2147483648, 1000000] {
        assert_eq!(format_number(n), n.to_string());
    }
    assert_eq!(format_number(-2147483648), "-2147483648");
}

#[test]
fn parse_digits_reads_base_ten() {
    assert_eq!(parse_digits("0"), Some(0));
    assert_eq!(parse_digits("007"), Some(7));
    assert_eq!(parse_digits("2147483647"), Some(2147483647));
    assert_eq!(parse_digits("2147483648"), None);
    assert_eq!(parse_digits("99999999999999999999999999"), None);
    assert_eq!(parse_digits(""), Some(0));
    assert_eq!(parse_digits("12a"), None);
    assert_eq!(parse_digits("-1"), None);
    assert_eq!(parse_digits("+1"), None);
}
