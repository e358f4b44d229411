use employee_departments::{Command, Departments, Report};

fn add(d: &mut Departments, name: &str, department: &str) {
    let (reports, exit) = d.process(Command::Add {
        name: String::from(name),
        department: String::from(department),
    });
    assert!(reports.is_empty());
    assert!(!exit);
}

fn list(d: &mut Departments, department: &str) -> Vec<Report> {
    let (reports, exit) = d.process(Command::List { department: String::from(department) });
    assert!(!exit);
    reports
}

fn people(department: &str, members: &[&str]) -> Report {
    Report::People {
        department: String::from(department),
        members: members.iter().map(|m| String::from(*m)).collect(),
    }
}

#[test]
fn scenario_three_adds() {
    let mut d = Departments::new();
    add(&mut d, "Sally", "Engineering");
    add(&mut d, "Amir", "Sales");
    add(&mut d, "Ben", "Engineering");

    assert_eq!(list(&mut d, "Engineering"), vec![people("Engineering", &["Ben", "Sally"])]);
    assert_eq!(list(&mut d, "Sales"), vec![people("Sales", &["Amir"])]);
    assert_eq!(
        list(&mut d, "Marketing"),
        vec![Report::EmptyDepartment { department: String::from("Marketing") }]
    );
}

#[test]
fn list_unknown_department_is_empty() {
    let mut d = Departments::new();
    assert_eq!(
        list(&mut d, "Engineering"),
        vec![Report::EmptyDepartment { department: String::from("Engineering") }]
    );
}

#[test]
fn list_is_idempotent() {
    let mut d = Departments::new();
    add(&mut d, "Sally", "Engineering");
    add(&mut d, "Ben", "Engineering");
    let first = list(&mut d, "Engineering");
    let second = list(&mut d, "Engineering");
    assert_eq!(first, second);
}

#[test]
fn all_on_empty_roster() {
    let mut d = Departments::new();
    let (reports, exit) = d.process(Command::All);
    assert_eq!(reports, vec![Report::NoDepartments]);
    assert!(!exit);
}

#[test]
fn all_reports_every_department() {
    let mut d = Departments::new();
    add(&mut d, "Sally", "Engineering");
    add(&mut d, "Amir", "Sales");
    add(&mut d, "Ben", "Engineering");
    let (mut reports, exit) = d.process(Command::All);
    assert!(!exit);
    assert_eq!(reports.len(), 2);
    // Each department appears once, with its sorted members.
    reports.sort_by(|a, b| format!("{:?}", a).cmp(&format!("{:?}", b)));
    let mut expected = vec![
        people("Engineering", &["Ben", "Sally"]),
        people("Sales", &["Amir"]),
    ];
    expected.sort_by(|a, b| format!("{:?}", a).cmp(&format!("{:?}", b)));
    assert_eq!(reports, expected);
}

#[test]
fn duplicates_are_kept() {
    let mut d = Departments::new();
    add(&mut d, "Sally", "Engineering");
    add(&mut d, "Sally", "Engineering");
    assert_eq!(
        list(&mut d, "Engineering"),
        vec![people("Engineering", &["Sally", "Sally"])]
    );
}

#[test]
fn members_are_sorted_by_scalar_value() {
    let mut d = Departments::new();
    add(&mut d, "b", "Mixed");
    add(&mut d, "A", "Mixed");
    add(&mut d, "a", "Mixed");
    add(&mut d, "B", "Mixed");
    assert_eq!(list(&mut d, "Mixed"), vec![people("Mixed", &["A", "B", "a", "b"])]);
}

#[test]
fn same_name_in_two_departments() {
    let mut d = Departments::new();
    add(&mut d, "Sally", "Engineering");
    add(&mut d, "Sally", "Sales");
    assert_eq!(list(&mut d, "Engineering"), vec![people("Engineering", &["Sally"])]);
    assert_eq!(list(&mut d, "Sales"), vec![people("Sales", &["Sally"])]);
}

#[test]
fn stored_order_is_not_reordered_by_list() {
    let mut d = Departments::new();
    add(&mut d, "Zoe", "Engineering");
    add(&mut d, "Ann", "Engineering");
    // Listing sorts a fresh copy each time; a later add still appends after
    // the stored insertion order, and the next list sorts the whole set.
    assert_eq!(list(&mut d, "Engineering"), vec![people("Engineering", &["Ann", "Zoe"])]);
    add(&mut d, "Mia", "Engineering");
    assert_eq!(
        list(&mut d, "Engineering"),
        vec![people("Engineering", &["Ann", "Mia", "Zoe"])]
    );
}

#[test]
fn exit_terminates_from_any_state() {
    let mut empty = Departments::new();
    let (reports, exit) = empty.process(Command::Exit);
    assert_eq!(reports, vec![Report::Exiting]);
    assert!(exit);

    let mut busy = Departments::new();
    add(&mut busy, "Sally", "Engineering");
    let (reports, exit) = busy.process(Command::Exit);
    assert_eq!(reports, vec![Report::Exiting]);
    assert!(exit);
}

#[test]
fn only_exit_terminates() {
    let mut d = Departments::new();
    let (_, exit) = d.process(Command::Add {
        name: String::from("Sally"),
        department: String::from("Engineering"),
    });
    assert!(!exit);
    let (_, exit) = d.process(Command::List { department: String::from("Engineering") });
    assert!(!exit);
    let (_, exit) = d.process(Command::All);
    assert!(!exit);
}

#[test]
fn add_to_department_appends() {
    let mut d = Departments::new();
    d.add_to_department(String::from("Engineering"), String::from("Sally"));
    d.add_to_department(String::from("Engineering"), String::from("Ben"));
    assert_eq!(
        list(&mut d, "Engineering"),
        vec![people("Engineering", &["Ben", "Sally"])]
    );
}

#[test]
fn parse_then_process_round_trip() {
    let mut d = Departments::new();
    for line in ["Add Sally to Engineering", "Add Amir to Sales", "Add Ben to Engineering"] {
        let cmd = Command::from_string(line).expect("grammar form must parse");
        let (reports, exit) = d.process(cmd);
        assert!(reports.is_empty());
        assert!(!exit);
    }
    let cmd = Command::from_string("List Engineering").expect("grammar form must parse");
    let (reports, exit) = d.process(cmd);
    assert!(!exit);
    assert_eq!(reports, vec![people("Engineering", &["Ben", "Sally"])]);
}

#[test]
fn front_of_house_entry_points_run() {
    employee_departments::eat_at_restaurant();
    employee_departments::hosting::add_to_waitlist();
}
