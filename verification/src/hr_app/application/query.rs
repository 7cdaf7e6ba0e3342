use crate::hr_app::text::words::{split_words, texts_of, words};
use vstd::prelude::*;
use vstd::string::StringExecFns;

verus! {

/// A command of the user, with its arguments as they were typed.
#[derive(Debug, PartialEq, Eq)]
pub enum Query {
    CreateDepartment { department_name: String },
    ShowAllDepartments,
    ShowDepartmentInfo { department_id: String },
    DeleteDepartment { department_id: String },
    CreatePerson { last_name: String, first_name: Option<String> },
    ShowAllPersons,
    ShowPersonInfo { person_id: String },
    DeletePerson { person_id: String },
    AddPersonToDepartment { person_id: String, department_id: String },
    RemovePersonFromDepartment { person_id: String, department_id: String },
    ShowAllPersonsByDepartment,
    Help,
    Quit,
}

/// A command as a mathematical value.
pub enum QueryView {
    CreateDepartment { department_name: Seq<char> },
    ShowAllDepartments,
    ShowDepartmentInfo { department_id: Seq<char> },
    DeleteDepartment { department_id: Seq<char> },
    CreatePerson { last_name: Seq<char>, first_name: Option<Seq<char>> },
    ShowAllPersons,
    ShowPersonInfo { person_id: Seq<char> },
    DeletePerson { person_id: Seq<char> },
    AddPersonToDepartment { person_id: Seq<char>, department_id: Seq<char> },
    RemovePersonFromDepartment { person_id: Seq<char>, department_id: Seq<char> },
    ShowAllPersonsByDepartment,
    Help,
    Quit,
}

impl View for Query {
    type V = QueryView;

    open spec fn view(&self) -> QueryView {
        match self {
            Query::CreateDepartment { department_name } => QueryView::CreateDepartment {
                department_name: department_name@,
            },
            Query::ShowAllDepartments => QueryView::ShowAllDepartments,
            Query::ShowDepartmentInfo { department_id } => QueryView::ShowDepartmentInfo {
                department_id: department_id@,
            },
            Query::DeleteDepartment { department_id } => QueryView::DeleteDepartment {
                department_id: department_id@,
            },
            Query::CreatePerson { last_name, first_name } => QueryView::CreatePerson {
                last_name: last_name@,
                first_name: match first_name {
                    Some(first_name) => Some(first_name@),
                    None => None,
                },
            },
            Query::ShowAllPersons => QueryView::ShowAllPersons,
            Query::ShowPersonInfo { person_id } => QueryView::ShowPersonInfo {
                person_id: person_id@,
            },
            Query::DeletePerson { person_id } => QueryView::DeletePerson { person_id: person_id@ },
            Query::AddPersonToDepartment {
                person_id,
                department_id,
            } => QueryView::AddPersonToDepartment {
                person_id: person_id@,
                department_id: department_id@,
            },
            Query::RemovePersonFromDepartment {
                person_id,
                department_id,
            } => QueryView::RemovePersonFromDepartment {
                person_id: person_id@,
                department_id: department_id@,
            },
            Query::ShowAllPersonsByDepartment => QueryView::ShowAllPersonsByDepartment,
            Query::Help => QueryView::Help,
            Query::Quit => QueryView::Quit,
        }
    }
}

/// The message for a command that lacks an argument: what is missing, and
/// how the command is written.
pub open spec fn usage_error(message: Seq<char>, how_to_use: Seq<char>) -> Seq<char> {
    message + "\nhow to use:\n "@ + how_to_use
}

/// What is said of a line that names no command.
pub open spec fn unrecognized() -> Seq<char> {
    "unrecognized command!"@
}

/// The command that a line of words stands for, or the message that says
/// why it stands for none. The first word names the command, the next
/// ones are its arguments, and words beyond those are ignored.
pub open spec fn parse_query(words: Seq<Seq<char>>) -> Result<QueryView, Seq<char>> {
    if words.len() == 0 {
        Err(unrecognized())
    } else if words[0] == "create_department"@ {
        if words.len() < 2 {
            Err(usage_error("department_name is missing"@, "create_department <department_name>"@))
        } else {
            Ok(QueryView::CreateDepartment { department_name: words[1] })
        }
    } else if words[0] == "show_all_departments"@ {
        Ok(QueryView::ShowAllDepartments)
    } else if words[0] == "department_info"@ {
        if words.len() < 2 {
            Err(usage_error("department_id is missing"@, "department_info <department_id>"@))
        } else {
            Ok(QueryView::ShowDepartmentInfo { department_id: words[1] })
        }
    } else if words[0] == "delete_department"@ {
        if words.len() < 2 {
            Err(usage_error("department_id is missing"@, "delete_department <department_id>"@))
        } else {
            Ok(QueryView::DeleteDepartment { department_id: words[1] })
        }
    } else if words[0] == "create_person"@ {
        if words.len() < 2 {
            Err(
                usage_error(
                    "person_name is missing"@,
                    "create_person <last_name> <first_name>(optional)"@,
                ),
            )
        } else {
            Ok(
                QueryView::CreatePerson {
                    last_name: words[1],
                    first_name: if words.len() < 3 {
                        None
                    } else {
                        Some(words[2])
                    },
                },
            )
        }
    } else if words[0] == "show_all_persons"@ {
        Ok(QueryView::ShowAllPersons)
    } else if words[0] == "person_info"@ {
        if words.len() < 2 {
            Err(usage_error("person_id is missing"@, "person_info <person_id>"@))
        } else {
            Ok(QueryView::ShowPersonInfo { person_id: words[1] })
        }
    } else if words[0] == "delete_person"@ {
        if words.len() < 2 {
            Err(usage_error("person_id is missing"@, "delete_person <person_id>"@))
        } else {
            Ok(QueryView::DeletePerson { person_id: words[1] })
        }
    } else if words[0] == "add_person"@ {
        if words.len() < 2 {
            Err(usage_error("person_id is missing"@, "add_person <person_id> <department_id>"@))
        } else if words.len() < 3 {
            Err(usage_error("department_id is missing"@, "add_person <person_id> <department_id>"@))
        } else {
            Ok(QueryView::AddPersonToDepartment { person_id: words[1], department_id: words[2] })
        }
    } else if words[0] == "remove_person"@ {
        if words.len() < 2 {
            Err(usage_error("person_id is missing"@, "remove_person <person_id> <department_id>"@))
        } else if words.len() < 3 {
            Err(
                usage_error(
                    "department_id is missing"@,
                    "remove_person <person_id> <department_id>"@,
                ),
            )
        } else {
            Ok(
                QueryView::RemovePersonFromDepartment {
                    person_id: words[1],
                    department_id: words[2],
                },
            )
        }
    } else if words[0] == "all_info"@ {
        Ok(QueryView::ShowAllPersonsByDepartment)
    } else if words[0] == "help"@ {
        Ok(QueryView::Help)
    } else if words[0] == "quit"@ {
        Ok(QueryView::Quit)
    } else {
        Err(unrecognized())
    }
}

/// Whether `word` reads as `literal`.
fn is_text(word: &String, literal: &str) -> (same: bool)
    ensures
        same == (word@ == literal@),
{
    let other = String::from_str(literal);
    *word == other
}

impl Query {
    /// Reads a command line.
    pub fn new(commands: String) -> (parsed: Result<Query, String>)
        ensures
            match parsed {
                Ok(query) => parse_query(words(commands@)) == Ok::<QueryView, Seq<char>>(query@),
                Err(message) => parse_query(words(commands@)) == Err::<QueryView, Seq<char>>(
                    message@,
                ),
            },
    {
        let words = split_words(commands.as_str());
        assert(forall|i: int| 0 <= i < words.len() ==> words[i]@ == texts_of(words@)[i]);
        if words.len() == 0 {
            return Err(String::from_str("unrecognized command!"));
        }
        let command = &words[0];
        let first = if words.len() < 2 {
            None
        } else {
            Some(words[1].clone())
        };
        let second = if words.len() < 3 {
            None
        } else {
            Some(words[2].clone())
        };
        if is_text(command, "create_department") {
            match first {
                Some(department_name) => Ok(Query::CreateDepartment { department_name }),
                None => Err(
                    Query::err_message(
                        "department_name is missing",
                        "create_department <department_name>",
                    ),
                ),
            }
        } else if is_text(command, "show_all_departments") {
            Ok(Query::ShowAllDepartments)
        } else if is_text(command, "department_info") {
            match first {
                Some(department_id) => Ok(Query::ShowDepartmentInfo { department_id }),
                None => Err(
                    Query::err_message(
                        "department_id is missing",
                        "department_info <department_id>",
                    ),
                ),
            }
        } else if is_text(command, "delete_department") {
            match first {
                Some(department_id) => Ok(Query::DeleteDepartment { department_id }),
                None => Err(
                    Query::err_message(
                        "department_id is missing",
                        "delete_department <department_id>",
                    ),
                ),
            }
        } else if is_text(command, "create_person") {
            match first {
                Some(last_name) => Ok(Query::CreatePerson { last_name, first_name: second }),
                None => Err(
                    Query::err_message(
                        "person_name is missing",
                        "create_person <last_name> <first_name>(optional)",
                    ),
                ),
            }
        } else if is_text(command, "show_all_persons") {
            Ok(Query::ShowAllPersons)
        } else if is_text(command, "person_info") {
            match first {
                Some(person_id) => Ok(Query::ShowPersonInfo { person_id }),
                None => Err(Query::err_message("person_id is missing", "person_info <person_id>")),
            }
        } else if is_text(command, "delete_person") {
            match first {
                Some(person_id) => Ok(Query::DeletePerson { person_id }),
                None => Err(
                    Query::err_message("person_id is missing", "delete_person <person_id>"),
                ),
            }
        } else if is_text(command, "add_person") {
            let how_to_use = "add_person <person_id> <department_id>";
            match (first, second) {
                (Some(person_id), Some(department_id)) => Ok(
                    Query::AddPersonToDepartment { person_id, department_id },
                ),
                (Some(_), None) => Err(Query::err_message("department_id is missing", how_to_use)),
                (None, _) => Err(Query::err_message("person_id is missing", how_to_use)),
            }
        } else if is_text(command, "remove_person") {
            let how_to_use = "remove_person <person_id> <department_id>";
            match (first, second) {
                (Some(person_id), Some(department_id)) => Ok(
                    Query::RemovePersonFromDepartment { person_id, department_id },
                ),
                (Some(_), None) => Err(Query::err_message("department_id is missing", how_to_use)),
                (None, _) => Err(Query::err_message("person_id is missing", how_to_use)),
            }
        } else if is_text(command, "all_info") {
            Ok(Query::ShowAllPersonsByDepartment)
        } else if is_text(command, "help") {
            Ok(Query::Help)
        } else if is_text(command, "quit") {
            Ok(Query::Quit)
        } else {
            Err(String::from_str("unrecognized command!"))
        }
    }

    /// The message for a command that lacks an argument.
    pub fn err_message(message: &str, how_to_use: &str) -> (text: String)
        ensures
            text@ == usage_error(message@, how_to_use@),
    {
        let mut err_message = String::new();
        err_message.append(message);
        err_message.append("\nhow to use:\n ");
        err_message.append(how_to_use);
        assert(err_message@ =~= usage_error(message@, how_to_use@));
        err_message
    }
}

} // verus!
