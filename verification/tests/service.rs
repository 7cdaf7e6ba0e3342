use human_management::hr_app::application::query::Query;
use human_management::hr_app::application::service::{Reply, Session, Store};
use human_management::hr_app::domain::department::id::DepartmentId;
use human_management::hr_app::domain::person::id::PersonId;
use human_management::hr_app::error::{HrError, NameFault};

fn run(session: &mut Session, line: &str) -> Result<Reply, HrError> {
    let query = Query::new(String::from(line)).unwrap();
    session.execute(&query)
}

fn text(s: &str) -> String {
    String::from(s)
}

fn sorted(mut names: Vec<String>) -> Vec<String> {
    names.sort();
    names
}

#[test]
fn a_new_session_holds_nothing() {
    let mut session = Session::new();
    assert_eq!(run(&mut session, "show_all_departments"), Ok(Reply::Departments(vec![])));
    assert_eq!(run(&mut session, "show_all_persons"), Ok(Reply::Persons(vec![])));
    assert_eq!(
        run(&mut session, "all_info"),
        Ok(Reply::Overview { by_department: vec![], unassigned: vec![] })
    );
}

#[test]
fn help_and_quit_change_nothing() {
    let mut session = Session::new();
    assert_eq!(run(&mut session, "help"), Ok(Reply::Help));
    assert_eq!(run(&mut session, "quit"), Ok(Reply::Quit));
    assert_eq!(run(&mut session, "show_all_persons"), Ok(Reply::Persons(vec![])));
}

#[test]
fn departments_are_created_shown_and_deleted() {
    let mut session = Session::new();
    assert_eq!(run(&mut session, "create_department Sales"), Ok(Reply::Changed(Store::Departments)));
    assert_eq!(run(&mut session, "create_department Sales"), Err(HrError::DuplicateName));
    assert_eq!(run(&mut session, "create_department Legal"), Ok(Reply::Changed(Store::Departments)));
    assert_eq!(
        run(&mut session, "show_all_departments"),
        Ok(Reply::Departments(vec![
            (DepartmentId::new(1), text("Sales")),
            (DepartmentId::new(2), text("Legal")),
        ]))
    );
    assert_eq!(run(&mut session, "delete_department 1"), Ok(Reply::Changed(Store::Departments)));
    assert_eq!(run(&mut session, "delete_department 1"), Err(HrError::AlreadyDeleted));
    assert_eq!(run(&mut session, "delete_department 999"), Err(HrError::NotFound));
    assert_eq!(run(&mut session, "department_info 1"), Err(HrError::AlreadyDeleted));
    assert_eq!(run(&mut session, "department_info 999"), Err(HrError::NotFound));
    assert_eq!(run(&mut session, "create_department Sales"), Ok(Reply::Changed(Store::Departments)));
    assert_eq!(
        run(&mut session, "show_all_departments"),
        Ok(Reply::Departments(vec![
            (DepartmentId::new(2), text("Legal")),
            (DepartmentId::new(3), text("Sales")),
        ]))
    );
}

#[test]
fn persons_are_created_shown_and_deleted() {
    let mut session = Session::new();
    assert_eq!(run(&mut session, "create_person Doe Jane"), Ok(Reply::Changed(Store::Persons)));
    assert_eq!(run(&mut session, "create_person Smith"), Ok(Reply::Changed(Store::Persons)));
    assert_eq!(
        run(&mut session, "show_all_persons"),
        Ok(Reply::Persons(vec![
            (PersonId::new(1), text("Doe Jane")),
            (PersonId::new(2), text("Smith")),
        ]))
    );
    assert_eq!(
        run(&mut session, "person_info 1"),
        Ok(Reply::PersonInfo { name: text("Doe Jane"), departments: vec![] })
    );
    assert_eq!(run(&mut session, "delete_person 1"), Ok(Reply::Changed(Store::Persons)));
    assert_eq!(run(&mut session, "delete_person 1"), Err(HrError::AlreadyDeleted));
    assert_eq!(run(&mut session, "person_info 1"), Err(HrError::AlreadyDeleted));
    assert_eq!(run(&mut session, "person_info 3"), Err(HrError::NotFound));
    assert_eq!(
        run(&mut session, "show_all_persons"),
        Ok(Reply::Persons(vec![(PersonId::new(2), text("Smith"))]))
    );
}

#[test]
fn names_out_of_bounds_are_refused() {
    let mut session = Session::new();
    let long_department = format!("create_department {}", "x".repeat(101));
    assert_eq!(
        run(&mut session, &long_department),
        Err(HrError::ValidationError(NameFault::TooLong))
    );
    let long_person = format!("create_person {}", "y".repeat(61));
    assert_eq!(
        run(&mut session, &long_person),
        Err(HrError::ValidationError(NameFault::TooLong))
    );
    let long_first = format!("create_person Doe {}", "y".repeat(61));
    assert_eq!(
        run(&mut session, &long_first),
        Err(HrError::ValidationError(NameFault::TooLong))
    );
    assert_eq!(run(&mut session, "show_all_departments"), Ok(Reply::Departments(vec![])));
    assert_eq!(run(&mut session, "show_all_persons"), Ok(Reply::Persons(vec![])));
}

#[test]
fn identifiers_that_are_no_numbers_are_refused() {
    let mut session = Session::new();
    run(&mut session, "create_department Sales").unwrap();
    run(&mut session, "create_person Doe").unwrap();
    for line in [
        "department_info one",
        "delete_department 1x",
        "person_info -1",
        "delete_person 18446744073709551616",
        "add_person x 1",
        "add_person 1 x",
        "remove_person x 1",
        "remove_person 1 x",
    ] {
        assert_eq!(run(&mut session, line), Err(HrError::FormatError));
    }
    // The person is read before the department.
    assert_eq!(run(&mut session, "add_person x 9"), Err(HrError::FormatError));
    assert_eq!(run(&mut session, "add_person 9 x"), Err(HrError::FormatError));
}

#[test]
fn memberships_are_made_and_ended() {
    let mut session = Session::new();
    run(&mut session, "create_department Sales").unwrap();
    run(&mut session, "create_department Legal").unwrap();
    run(&mut session, "create_person Doe Jane").unwrap();
    run(&mut session, "create_person Smith").unwrap();
    assert_eq!(run(&mut session, "add_person 1 1"), Ok(Reply::Changed(Store::Members)));
    assert_eq!(run(&mut session, "add_person 1 1"), Err(HrError::AlreadyMember));
    assert_eq!(run(&mut session, "add_person 2 1"), Ok(Reply::Changed(Store::Members)));
    assert_eq!(run(&mut session, "add_person 1 2"), Ok(Reply::Changed(Store::Members)));
    assert_eq!(run(&mut session, "add_person 3 1"), Err(HrError::NotFound));
    assert_eq!(run(&mut session, "add_person 1 3"), Err(HrError::NotFound));

    match run(&mut session, "department_info 1").unwrap() {
        Reply::DepartmentInfo { name, members } => {
            assert_eq!(name, "Sales");
            assert_eq!(sorted(members), vec![text("Doe Jane"), text("Smith")]);
        }
        other => panic!("unexpected reply {:?}", other),
    }
    match run(&mut session, "person_info 1").unwrap() {
        Reply::PersonInfo { name, departments } => {
            assert_eq!(name, "Doe Jane");
            assert_eq!(sorted(departments), vec![text("Legal"), text("Sales")]);
        }
        other => panic!("unexpected reply {:?}", other),
    }

    assert_eq!(run(&mut session, "remove_person 1 1"), Ok(Reply::Changed(Store::Members)));
    assert_eq!(run(&mut session, "remove_person 1 1"), Err(HrError::NotMember));
    assert_eq!(run(&mut session, "remove_person 2 2"), Err(HrError::NotMember));
    assert_eq!(
        run(&mut session, "department_info 1"),
        Ok(Reply::DepartmentInfo { name: text("Sales"), members: vec![text("Smith")] })
    );
}

#[test]
fn overview_groups_the_persons_by_department() {
    let mut session = Session::new();
    run(&mut session, "create_department Sales").unwrap();
    run(&mut session, "create_department Legal").unwrap();
    run(&mut session, "create_department Empty").unwrap();
    run(&mut session, "create_person Doe Jane").unwrap();
    run(&mut session, "create_person Smith").unwrap();
    run(&mut session, "create_person Jones").unwrap();
    run(&mut session, "create_person Gone").unwrap();
    run(&mut session, "add_person 2 1").unwrap();
    run(&mut session, "add_person 1 1").unwrap();
    run(&mut session, "add_person 1 2").unwrap();
    run(&mut session, "add_person 4 2").unwrap();
    run(&mut session, "delete_person 4").unwrap();
    assert_eq!(
        run(&mut session, "all_info"),
        Ok(Reply::Overview {
            by_department: vec![
                (text("Sales"), vec![text("Doe Jane"), text("Smith")]),
                (text("Legal"), vec![text("Doe Jane")]),
                (text("Empty"), vec![]),
            ],
            unassigned: vec![text("Jones")],
        })
    );
}

#[test]
fn a_deleted_member_is_left_out_but_a_deleted_department_is_an_error() {
    let mut session = Session::new();
    run(&mut session, "create_department Sales").unwrap();
    run(&mut session, "create_department Legal").unwrap();
    run(&mut session, "create_person Doe").unwrap();
    run(&mut session, "create_person Smith").unwrap();
    run(&mut session, "add_person 1 1").unwrap();
    run(&mut session, "add_person 2 1").unwrap();
    run(&mut session, "add_person 2 2").unwrap();

    run(&mut session, "delete_person 1").unwrap();
    assert_eq!(
        run(&mut session, "department_info 1"),
        Ok(Reply::DepartmentInfo { name: text("Sales"), members: vec![text("Smith")] })
    );

    run(&mut session, "delete_department 2").unwrap();
    assert_eq!(run(&mut session, "person_info 2"), Err(HrError::AlreadyDeleted));
    assert_eq!(run(&mut session, "all_info"), Err(HrError::AlreadyDeleted));

    // Once the person who belonged to it is gone too, nothing is broken.
    run(&mut session, "delete_person 2").unwrap();
    assert_eq!(
        run(&mut session, "all_info"),
        Ok(Reply::Overview { by_department: vec![(text("Sales"), vec![])], unassigned: vec![] })
    );
}

#[test]
fn a_refused_command_changes_nothing() {
    let mut session = Session::new();
    run(&mut session, "create_department Sales").unwrap();
    run(&mut session, "create_person Doe").unwrap();
    run(&mut session, "add_person 1 1").unwrap();
    let departments = run(&mut session, "show_all_departments");
    let persons = run(&mut session, "show_all_persons");
    let overview = run(&mut session, "all_info");
    for line in [
        "create_department Sales",
        "delete_department 2",
        "delete_person 2",
        "add_person 1 1",
        "add_person 2 1",
        "remove_person 1 2",
        "department_info x",
    ] {
        assert!(run(&mut session, line).is_err());
    }
    assert_eq!(run(&mut session, "show_all_departments"), departments);
    assert_eq!(run(&mut session, "show_all_persons"), persons);
    assert_eq!(run(&mut session, "all_info"), overview);
}
