use human_management::hr_app::domain::department::id::DepartmentId;
use human_management::hr_app::domain::department::list::DepartmentList;
use human_management::hr_app::domain::department::name::DepartmentName;
use human_management::hr_app::domain::department::Department;
use human_management::hr_app::error::{HrError, NameFault};

fn generate_a_department(s: &str) -> Department {
    let mut name = String::from("Sample");
    name.push_str(s);
    let department = Department::new(&name).unwrap();
    return department;
}

fn extract_id(item: Option<(DepartmentId, String)>) -> Option<DepartmentId> {
    match item {
        Some((id, _name)) => return Some(id),
        None => return None,
    }
}

#[test]
fn add_department_no_id_ok() {
    let mut department_list = DepartmentList::new();
    let department1 = generate_a_department("1");
    let department2 = generate_a_department("2");
    assert!(department_list.add_department(department1, None).is_ok());
    assert!(department_list.add_department(department2, None).is_ok());
}

#[test]
fn add_department_with_id_ok() {
    let mut department_list = DepartmentList::new();
    let department1 = generate_a_department("1");
    let department2 = generate_a_department("2");
    assert!(department_list
        .add_department(department1, Some(DepartmentId::new(1)))
        .is_ok());
    assert!(department_list
        .add_department(department2, Some(DepartmentId::new(2)))
        .is_ok());
}

#[test]
fn add_department_with_same_id_err() {
    let mut department_list = DepartmentList::new();
    let department1 = generate_a_department("1");
    let department2 = generate_a_department("2");
    assert!(department_list
        .add_department(department1, Some(DepartmentId::new(1)))
        .is_ok());
    assert!(department_list
        .add_department(department2, Some(DepartmentId::new(1)))
        .is_err());
}

#[test]
fn add_department_same_name_err() {
    let mut department_list = DepartmentList::new();
    let department1 = generate_a_department("1");
    let department2 = generate_a_department("1");
    assert!(department_list
        .add_department(department1, Some(DepartmentId::new(1)))
        .is_ok());
    assert!(department_list
        .add_department(department2, Some(DepartmentId::new(2)))
        .is_err());
}

#[test]
fn delete_department_ok() {
    let mut department_list = DepartmentList::new();
    let department = generate_a_department("1");
    department_list
        .add_department(department, Some(DepartmentId::new(1)))
        .unwrap();
    assert!(department_list
        .delete_department(DepartmentId::new(1))
        .is_ok());
}

#[test]
fn delete_department_empty_id_err() {
    let mut department_list = DepartmentList::new();
    assert!(department_list
        .delete_department(DepartmentId::new(1))
        .is_err());
}

#[test]
fn delete_department_same_person_err() {
    let mut department_list = DepartmentList::new();
    let department = generate_a_department("1");
    let id = DepartmentId::new(1);
    department_list
        .add_department(department, Some(id))
        .unwrap();
    assert!(department_list.delete_department(id).is_ok());
    assert!(department_list.delete_department(id).is_err());
}

#[test]
fn department_ok() {
    let mut department_list = DepartmentList::new();
    let department = generate_a_department("1");
    let id = DepartmentId::new(1);
    department_list
        .add_department(department, Some(id))
        .unwrap();
    assert!(department_list.department(id).is_ok());
}

#[test]
fn department_empty_id_err() {
    let department_list = DepartmentList::new();
    assert!(department_list.department(DepartmentId::new(1)).is_err());
}

#[test]
fn department_deleted_person_err() {
    let mut department_list = DepartmentList::new();
    let department = generate_a_department("1");
    let id = DepartmentId::new(1);
    department_list
        .add_department(department, Some(id))
        .unwrap();
    assert!(department_list.delete_department(id).is_ok());
    assert!(department_list.delete_department(id).is_err());
}

#[test]
fn iterator_ok_1() {
    let mut department_list = DepartmentList::new();
    let department1 = generate_a_department("1");
    let department2 = generate_a_department("2");
    let department3 = generate_a_department("3");

    department_list.add_department(department1, None).unwrap();
    department_list.add_department(department2, None).unwrap();
    department_list.add_department(department3, None).unwrap();

    let mut iter = department_list.iterate().into_iter();
    assert_eq!(extract_id(iter.next()), Some(DepartmentId::new(1)));
    assert_eq!(extract_id(iter.next()), Some(DepartmentId::new(2)));
    assert_eq!(extract_id(iter.next()), Some(DepartmentId::new(3)));
    assert_eq!(extract_id(iter.next()), None);
}

#[test]
fn iterator_ok_2() {
    let mut department_list = DepartmentList::new();
    let department1 = generate_a_department("1");
    let department2 = generate_a_department("2");
    let department3 = generate_a_department("3");

    department_list
        .add_department(department1, Some(DepartmentId::new(2)))
        .unwrap();
    department_list
        .add_department(department2, Some(DepartmentId::new(5)))
        .unwrap();
    department_list
        .delete_department(DepartmentId::new(5))
        .unwrap();
    department_list.add_department(department3, None).unwrap();

    let mut iter = department_list.iterate().into_iter();
    assert_eq!(extract_id(iter.next()), Some(DepartmentId::new(2)));
    assert_eq!(extract_id(iter.next()), Some(DepartmentId::new(6)));
    assert_eq!(extract_id(iter.next()), None);
}

#[test]
fn create_department_and_get_name() {
    let department = Department::new("Sales").unwrap();
    assert_eq!(department.name(), String::from("Sales"));
}

#[test]
fn name_new_ok() {
    assert!(DepartmentName::new("Sales").is_ok());
}

#[test]
fn new_min_boundary_ok() {
    assert!(DepartmentName::new("a").is_ok());
}

#[test]
fn new_too_short_err() {
    assert!(DepartmentName::new("").is_err());
}

#[test]
fn new_max_boundary_ok() {
    assert!(DepartmentName::new("0123456789012345678901234567890123456789012345678901234567890123456789012345678901234567890123456789").is_ok());
}

#[test]
fn new_too_long_err() {
    assert!(DepartmentName::new("01234567890123456789012345678901234567890123456789012345678901234567890123456789012345678901234567890").is_err())
}

#[test]
fn name_value_ok() {
    let ans = String::from("Sales");
    let department_name = DepartmentName::new("Sales").unwrap();
    assert_eq!(department_name.value(), ans);
}

#[test]
fn department_id_behaves_as_id() {
    let id = DepartmentId::new(9);
    assert_eq!(id.next_id(), DepartmentId::new(10));
    assert!(id.next_id().greater_than(id));
    assert!(!id.greater_than(id));
    assert_eq!(id.next_id().to_string(), "10");
    assert_eq!(id.value().value(), 9);
}

#[test]
fn name_length_bounds_are_1_and_100() {
    let long = "x".repeat(100);
    let too_long = "x".repeat(101);
    assert_eq!(
        Department::new("").err(),
        Some(HrError::ValidationError(NameFault::TooShort))
    );
    assert!(Department::new(&long).is_ok());
    assert_eq!(
        Department::new(&too_long).err(),
        Some(HrError::ValidationError(NameFault::TooLong))
    );
}

#[test]
fn first_department_gets_id_1_and_a_second_sales_is_refused() {
    let mut department_list = DepartmentList::new();
    assert_eq!(
        department_list.add_department(Department::new("Sales").unwrap(), None),
        Ok(())
    );
    assert_eq!(
        department_list.department(DepartmentId::new(1)).unwrap().name(),
        "Sales"
    );
    assert_eq!(
        department_list.add_department(Department::new("Sales").unwrap(), None),
        Err(HrError::DuplicateName)
    );
    assert_eq!(department_list.iterate().len(), 1);
}

#[test]
fn deleted_and_never_created_are_told_apart() {
    let mut department_list = DepartmentList::new();
    department_list
        .add_department(Department::new("Sales").unwrap(), None)
        .unwrap();
    assert_eq!(department_list.delete_department(DepartmentId::new(1)), Ok(()));
    assert_eq!(
        department_list.department(DepartmentId::new(1)).err(),
        Some(HrError::AlreadyDeleted)
    );
    assert_eq!(
        department_list.department(DepartmentId::new(999)).err(),
        Some(HrError::NotFound)
    );
    assert_eq!(
        department_list.delete_department(DepartmentId::new(1)),
        Err(HrError::AlreadyDeleted)
    );
    assert_eq!(
        department_list.delete_department(DepartmentId::new(999)),
        Err(HrError::NotFound)
    );
}

#[test]
fn identifier_0_is_retired_from_the_start() {
    let mut department_list = DepartmentList::new();
    assert_eq!(
        department_list.department(DepartmentId::new(0)).err(),
        Some(HrError::AlreadyDeleted)
    );
    assert_eq!(
        department_list.add_department(generate_a_department("1"), Some(DepartmentId::new(0))),
        Err(HrError::DuplicateId)
    );
    assert_eq!(
        department_list.delete_department(DepartmentId::new(0)),
        Err(HrError::AlreadyDeleted)
    );
}

#[test]
fn name_of_a_deleted_department_is_free_again() {
    let mut department_list = DepartmentList::new();
    department_list
        .add_department(Department::new("Sales").unwrap(), None)
        .unwrap();
    department_list.delete_department(DepartmentId::new(1)).unwrap();
    assert_eq!(
        department_list.add_department(Department::new("Sales").unwrap(), None),
        Ok(())
    );
    let listing = department_list.iterate();
    assert_eq!(listing, vec![(DepartmentId::new(2), String::from("Sales"))]);
}

#[test]
fn retired_identifier_is_never_assigned_again() {
    let mut department_list = DepartmentList::new();
    department_list.add_department(generate_a_department("1"), None).unwrap();
    department_list.add_department(generate_a_department("2"), None).unwrap();
    department_list.delete_department(DepartmentId::new(2)).unwrap();
    assert_eq!(
        department_list.add_department(generate_a_department("3"), Some(DepartmentId::new(2))),
        Err(HrError::DuplicateId)
    );
    department_list.add_department(generate_a_department("3"), None).unwrap();
    assert_eq!(
        department_list.department(DepartmentId::new(2)).err(),
        Some(HrError::AlreadyDeleted)
    );
    assert_eq!(
        department_list.department(DepartmentId::new(3)).unwrap().name(),
        "Sample3"
    );
}

#[test]
fn used_identifier_is_refused_before_the_name_is_looked_at() {
    let mut department_list = DepartmentList::new();
    department_list
        .add_department(generate_a_department("1"), Some(DepartmentId::new(4)))
        .unwrap();
    assert_eq!(
        department_list.add_department(generate_a_department("1"), Some(DepartmentId::new(4))),
        Err(HrError::DuplicateId)
    );
    assert_eq!(
        department_list.add_department(generate_a_department("1"), Some(DepartmentId::new(5))),
        Err(HrError::DuplicateName)
    );
}

#[test]
fn refused_creation_changes_nothing() {
    let mut department_list = DepartmentList::new();
    department_list.add_department(generate_a_department("1"), None).unwrap();
    let before = department_list.iterate();
    assert!(department_list.add_department(generate_a_department("1"), None).is_err());
    assert_eq!(department_list.iterate(), before);
    department_list.add_department(generate_a_department("2"), None).unwrap();
    assert_eq!(
        department_list.department(DepartmentId::new(2)).unwrap().name(),
        "Sample2"
    );
}

#[test]
fn next_after_steps_through_the_live_departments() {
    let mut department_list = DepartmentList::new();
    department_list
        .add_department(generate_a_department("1"), Some(DepartmentId::new(2)))
        .unwrap();
    department_list
        .add_department(generate_a_department("2"), Some(DepartmentId::new(5)))
        .unwrap();
    department_list
        .add_department(generate_a_department("3"), Some(DepartmentId::new(9)))
        .unwrap();
    department_list.delete_department(DepartmentId::new(5)).unwrap();
    assert_eq!(
        department_list.next_after(DepartmentId::new(0)),
        Some((DepartmentId::new(2), String::from("Sample1")))
    );
    assert_eq!(
        department_list.next_after(DepartmentId::new(2)),
        Some((DepartmentId::new(9), String::from("Sample3")))
    );
    assert_eq!(department_list.next_after(DepartmentId::new(9)), None);
    assert_eq!(department_list.next_after(DepartmentId::new(100)), None);
}

#[test]
fn explicit_identifier_below_the_highest_keeps_the_highest() {
    let mut department_list = DepartmentList::new();
    department_list
        .add_department(generate_a_department("1"), Some(DepartmentId::new(7)))
        .unwrap();
    department_list
        .add_department(generate_a_department("2"), Some(DepartmentId::new(3)))
        .unwrap();
    department_list.add_department(generate_a_department("3"), None).unwrap();
    let ids: Vec<DepartmentId> = department_list.iterate().into_iter().map(|e| e.0).collect();
    assert_eq!(
        ids,
        vec![DepartmentId::new(3), DepartmentId::new(7), DepartmentId::new(8)]
    );
}
