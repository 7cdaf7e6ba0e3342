use human_management::hr_app::application::query::Query;

fn text(s: &str) -> String {
    String::from(s)
}

fn parse(line: &str) -> Result<Query, String> {
    Query::new(text(line))
}

#[test]
fn commands_without_arguments_are_read() {
    assert_eq!(parse("show_all_departments"), Ok(Query::ShowAllDepartments));
    assert_eq!(parse("show_all_persons"), Ok(Query::ShowAllPersons));
    assert_eq!(parse("all_info"), Ok(Query::ShowAllPersonsByDepartment));
    assert_eq!(parse("help"), Ok(Query::Help));
    assert_eq!(parse("quit"), Ok(Query::Quit));
    assert_eq!(parse("  quit  now "), Ok(Query::Quit));
}

#[test]
fn commands_with_one_argument_are_read() {
    assert_eq!(
        parse("create_department Sales"),
        Ok(Query::CreateDepartment { department_name: text("Sales") })
    );
    assert_eq!(
        parse("department_info 12"),
        Ok(Query::ShowDepartmentInfo { department_id: text("12") })
    );
    assert_eq!(
        parse("delete_department 3"),
        Ok(Query::DeleteDepartment { department_id: text("3") })
    );
    assert_eq!(parse("person_info x"), Ok(Query::ShowPersonInfo { person_id: text("x") }));
    assert_eq!(parse("delete_person 5"), Ok(Query::DeletePerson { person_id: text("5") }));
}

#[test]
fn create_person_takes_one_or_two_names() {
    assert_eq!(
        parse("create_person Doe Jane"),
        Ok(Query::CreatePerson { last_name: text("Doe"), first_name: Some(text("Jane")) })
    );
    assert_eq!(
        parse("create_person Smith"),
        Ok(Query::CreatePerson { last_name: text("Smith"), first_name: None })
    );
    assert_eq!(
        parse("create_person Doe Jane Q Public"),
        Ok(Query::CreatePerson { last_name: text("Doe"), first_name: Some(text("Jane")) })
    );
}

#[test]
fn membership_commands_take_the_person_first() {
    assert_eq!(
        parse("add_person 1 2"),
        Ok(Query::AddPersonToDepartment { person_id: text("1"), department_id: text("2") })
    );
    assert_eq!(
        parse("remove_person 1 2"),
        Ok(Query::RemovePersonFromDepartment { person_id: text("1"), department_id: text("2") })
    );
}

#[test]
fn missing_arguments_are_reported_with_the_usage() {
    assert_eq!(
        parse("create_department"),
        Err(text("department_name is missing\nhow to use:\n create_department <department_name>"))
    );
    assert_eq!(
        parse("department_info"),
        Err(text("department_id is missing\nhow to use:\n department_info <department_id>"))
    );
    assert_eq!(
        parse("delete_department"),
        Err(text("department_id is missing\nhow to use:\n delete_department <department_id>"))
    );
    assert_eq!(
        parse("create_person"),
        Err(text(
            "person_name is missing\nhow to use:\n create_person <last_name> <first_name>(optional)"
        ))
    );
    assert_eq!(
        parse("person_info"),
        Err(text("person_id is missing\nhow to use:\n person_info <person_id>"))
    );
    assert_eq!(
        parse("delete_person"),
        Err(text("person_id is missing\nhow to use:\n delete_person <person_id>"))
    );
    assert_eq!(
        parse("add_person"),
        Err(text("person_id is missing\nhow to use:\n add_person <person_id> <department_id>"))
    );
    assert_eq!(
        parse("add_person 1"),
        Err(text("department_id is missing\nhow to use:\n add_person <person_id> <department_id>"))
    );
    assert_eq!(
        parse("remove_person"),
        Err(text("person_id is missing\nhow to use:\n remove_person <person_id> <department_id>"))
    );
    assert_eq!(
        parse("remove_person 1"),
        Err(text(
            "department_id is missing\nhow to use:\n remove_person <person_id> <department_id>"
        ))
    );
}

#[test]
fn anything_else_is_unrecognized() {
    assert_eq!(parse(""), Err(text("unrecognized command!")));
    assert_eq!(parse("   "), Err(text("unrecognized command!")));
    assert_eq!(parse("Quit"), Err(text("unrecognized command!")));
    assert_eq!(parse("quit!"), Err(text("unrecognized command!")));
    assert_eq!(parse("frobnicate 1 2"), Err(text("unrecognized command!")));
}

#[test]
fn err_message_joins_the_message_and_the_usage() {
    assert_eq!(Query::err_message("a", "b"), "a\nhow to use:\n b");
    assert_eq!(Query::err_message("", ""), "\nhow to use:\n ");
}
