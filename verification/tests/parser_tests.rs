use employee_departments::Command;

#[test]
fn parses_add() {
    let cmd = Command::from_string("Add Sally to Engineering");
    assert_eq!(
        cmd,
        Some(Command::Add {
            name: String::from("Sally"),
            department: String::from("Engineering"),
        })
    );
}

#[test]
fn parses_list() {
    let cmd = Command::from_string("List Engineering");
    assert_eq!(
        cmd,
        Some(Command::List { department: String::from("Engineering") })
    );
}

#[test]
fn parses_all() {
    assert_eq!(Command::from_string("All"), Some(Command::All));
}

#[test]
fn parses_exit() {
    assert_eq!(Command::from_string("Exit"), Some(Command::Exit));
}

#[test]
fn rejects_empty_line() {
    assert_eq!(Command::from_string(""), None);
    assert_eq!(Command::from_string("   \t  "), None);
}

#[test]
fn rejects_wrong_token_count() {
    assert_eq!(Command::from_string("Add Sally"), None);
    assert_eq!(Command::from_string("Add Sally to"), None);
    assert_eq!(Command::from_string("Add Sally to Engineering now"), None);
    assert_eq!(Command::from_string("List"), None);
    assert_eq!(Command::from_string("List Engineering Sales"), None);
    assert_eq!(Command::from_string("All departments"), None);
    assert_eq!(Command::from_string("Exit now"), None);
}

#[test]
fn rejects_wrong_case() {
    assert_eq!(Command::from_string("add Sally to Engineering"), None);
    assert_eq!(Command::from_string("Add Sally To Engineering"), None);
    assert_eq!(Command::from_string("list Engineering"), None);
    assert_eq!(Command::from_string("all"), None);
    assert_eq!(Command::from_string("exit"), None);
}

#[test]
fn rejects_unknown_command() {
    assert_eq!(Command::from_string("Remove Sally from Engineering"), None);
}

#[test]
fn tolerates_irregular_whitespace() {
    let cmd = Command::from_string("  Add \t Sally   to\u{00a0}Engineering \r\n");
    assert_eq!(
        cmd,
        Some(Command::Add {
            name: String::from("Sally"),
            department: String::from("Engineering"),
        })
    );
    assert_eq!(Command::from_string("\tExit\n"), Some(Command::Exit));
}

#[test]
fn keyword_named_person_follows_fixed_positions() {
    // A person literally named "to" still parses positionally.
    let cmd = Command::from_string("Add to to to");
    assert_eq!(
        cmd,
        Some(Command::Add { name: String::from("to"), department: String::from("to") })
    );
}
