use human_management::hr_app::domain::person::id::PersonId;
use human_management::hr_app::domain::person::list::PersonList;
use human_management::hr_app::domain::person::name::PersonName;
use human_management::hr_app::domain::person::Person;
use human_management::hr_app::error::{HrError, NameFault};

fn generate_a_person() -> Person {
    let person = Person::new("Sample", None).unwrap();
    return person;
}

fn extract_id(item: Option<(PersonId, String)>) -> Option<PersonId> {
    match item {
        Some((id, _name)) => return Some(id),
        None => return None,
    }
}

#[test]
fn add_person_no_id_ok() {
    let mut person_list = PersonList::new();
    let person1 = generate_a_person();
    let person2 = generate_a_person();
    assert!(person_list.add_person(person1, None).is_ok());
    assert!(person_list.add_person(person2, None).is_ok());
}

#[test]
fn add_person_with_id_ok() {
    let mut person_list = PersonList::new();
    let person1 = generate_a_person();
    let person2 = generate_a_person();
    assert!(person_list
        .add_person(person1, Some(PersonId::new(1)))
        .is_ok());
    assert!(person_list
        .add_person(person2, Some(PersonId::new(2)))
        .is_ok());
}

#[test]
fn add_person_with_same_id_err() {
    let mut person_list = PersonList::new();
    let person1 = generate_a_person();
    let person2 = generate_a_person();
    assert!(person_list
        .add_person(person1, Some(PersonId::new(1)))
        .is_ok());
    assert!(person_list
        .add_person(person2, Some(PersonId::new(1)))
        .is_err());
}

#[test]
fn delete_person_ok() {
    let mut person_list = PersonList::new();
    let person = generate_a_person();
    person_list
        .add_person(person, Some(PersonId::new(1)))
        .unwrap();
    assert!(person_list.delete_person(PersonId::new(1)).is_ok());
}

#[test]
fn delete_person_empty_id_err() {
    let mut person_list = PersonList::new();
    assert!(person_list.delete_person(PersonId::new(1)).is_err());
}

#[test]
fn delete_person_same_person_err() {
    let mut person_list = PersonList::new();
    let person = generate_a_person();
    let id = PersonId::new(1);
    person_list.add_person(person, Some(id)).unwrap();
    assert!(person_list.delete_person(id).is_ok());
    assert!(person_list.delete_person(id).is_err());
}

#[test]
fn person_ok() {
    let mut person_list = PersonList::new();
    let person = generate_a_person();
    let id = PersonId::new(1);
    person_list.add_person(person, Some(id)).unwrap();
    assert!(person_list.person(id).is_ok());
}

#[test]
fn person_empty_id_err() {
    let person_list = PersonList::new();
    assert!(person_list.person(PersonId::new(1)).is_err());
}

#[test]
fn person_deleted_person_err() {
    let mut person_list = PersonList::new();
    let person = generate_a_person();
    let id = PersonId::new(1);
    person_list.add_person(person, Some(id)).unwrap();
    assert!(person_list.delete_person(id).is_ok());
    assert!(person_list.delete_person(id).is_err());
}

#[test]
fn list_iterator_ok_1() {
    let mut person_list = PersonList::new();
    let person1 = generate_a_person();
    let person2 = generate_a_person();
    let person3 = generate_a_person();

    person_list.add_person(person1, None).unwrap();
    person_list.add_person(person2, None).unwrap();
    person_list.add_person(person3, None).unwrap();

    let mut iter = person_list.iterate().into_iter();
    assert_eq!(extract_id(iter.next()), Some(PersonId::new(1)));
    assert_eq!(extract_id(iter.next()), Some(PersonId::new(2)));
    assert_eq!(extract_id(iter.next()), Some(PersonId::new(3)));
    assert_eq!(extract_id(iter.next()), None);
}

#[test]
fn list_iterator_ok_2() {
    let mut person_list = PersonList::new();
    let person1 = generate_a_person();
    let person2 = generate_a_person();
    let person3 = generate_a_person();

    person_list
        .add_person(person1, Some(PersonId::new(2)))
        .unwrap();
    person_list
        .add_person(person2, Some(PersonId::new(5)))
        .unwrap();
    person_list.delete_person(PersonId::new(5)).unwrap();
    person_list.add_person(person3, None).unwrap();

    let mut iter = person_list.iterate().into_iter();
    assert_eq!(extract_id(iter.next()), Some(PersonId::new(2)));
    assert_eq!(extract_id(iter.next()), Some(PersonId::new(6)));
    assert_eq!(extract_id(iter.next()), None);
}

#[test]
fn create_person_and_get_name() {
    let person = Person::new("Shimomichi", Some("Yuta")).unwrap();
    assert_eq!(person.name(), String::from("Shimomichi Yuta"));
}

#[test]
fn new_ok() {
    assert!(PersonName::new("Shimomichi", Some("Yuta")).is_ok());
}

#[test]
fn new_last_name_too_short_err() {
    assert!(PersonName::new("", Some("Yuta")).is_err());
}

#[test]
fn new_last_name_too_long_err() {
    assert!(PersonName::new(
        "aaaaaaaaaaaaaaaaaaaaaaaaaaaaaaaaaaaaaaaaaaaaaaaaaaaaaaaaaaaaa",
        Some("Yuta"),
    )
    .is_err());
}

#[test]
fn new_first_name_too_short_err() {
    assert!(PersonName::new("Shimomichi", Some("")).is_err());
}

#[test]
fn new_first_name_too_long_err() {
    assert!(PersonName::new(
        "Shimomichi",
        Some("aaaaaaaaaaaaaaaaaaaaaaaaaaaaaaaaaaaaaaaaaaaaaaaaaaaaaaaaaaaaa"),
    )
    .is_err());
}

#[test]
fn new_no_first_name_ok() {
    assert!(PersonName::new("Shimomichi", None).is_ok());
}

#[test]
fn fullname_ok_1() {
    let ans = String::from("Shimomichi Yuta");
    let person_name = PersonName::new("Shimomichi", Some("Yuta")).unwrap();
    assert_eq!(person_name.value(), ans);
}

#[test]
fn fullname_ok_2() {
    let ans = String::from("Shimomichi");
    let person_name = PersonName::new("Shimomichi", None).unwrap();
    assert_eq!(person_name.value(), ans);
}

#[test]
fn person_id_behaves_as_id() {
    let id = PersonId::new(9);
    assert_eq!(id.next_id(), PersonId::new(10));
    assert!(id.next_id().greater_than(id));
    assert!(!id.greater_than(id.next_id()));
    assert_eq!(id.to_string(), "9");
    assert_eq!(id.value().value(), 9);
}

#[test]
fn name_parts_are_bounded_by_1_and_60() {
    let long = "y".repeat(60);
    let too_long = "y".repeat(61);
    assert!(Person::new(&long, Some(&long)).is_ok());
    assert_eq!(
        Person::new(&too_long, None).err(),
        Some(HrError::ValidationError(NameFault::TooLong))
    );
    assert_eq!(
        Person::new("Doe", Some(&too_long)).err(),
        Some(HrError::ValidationError(NameFault::TooLong))
    );
    assert_eq!(
        Person::new("", None).err(),
        Some(HrError::ValidationError(NameFault::TooShort))
    );
    assert_eq!(
        Person::new("Doe", Some("")).err(),
        Some(HrError::ValidationError(NameFault::TooShort))
    );
}

#[test]
fn last_name_is_judged_before_the_first_name() {
    let too_long = "y".repeat(61);
    assert_eq!(
        PersonName::new("", Some(&too_long)).err(),
        Some(HrError::ValidationError(NameFault::TooShort))
    );
    assert_eq!(
        PersonName::new(&too_long, Some("")).err(),
        Some(HrError::ValidationError(NameFault::TooLong))
    );
}

#[test]
fn persons_are_numbered_from_1_and_displayed() {
    let mut person_list = PersonList::new();
    person_list
        .add_person(Person::new("Doe", Some("Jane")).unwrap(), None)
        .unwrap();
    person_list
        .add_person(Person::new("Smith", None).unwrap(), None)
        .unwrap();
    assert_eq!(
        person_list.iterate(),
        vec![
            (PersonId::new(1), String::from("Doe Jane")),
            (PersonId::new(2), String::from("Smith")),
        ]
    );
    assert_eq!(person_list.person(PersonId::new(1)).unwrap().name(), "Doe Jane");
    assert_eq!(person_list.person(PersonId::new(2)).unwrap().name(), "Smith");
}

#[test]
fn fresh_identifiers_ascend_past_deleted_ones() {
    let mut person_list = PersonList::new();
    for expected in 1..=5u64 {
        person_list.add_person(generate_a_person(), None).unwrap();
        assert!(person_list.person(PersonId::new(expected)).is_ok());
        assert_eq!(
            person_list.person(PersonId::new(expected + 1)).err(),
            Some(HrError::NotFound)
        );
    }
    person_list.delete_person(PersonId::new(5)).unwrap();
    person_list.add_person(generate_a_person(), None).unwrap();
    assert_eq!(
        person_list.person(PersonId::new(5)).err(),
        Some(HrError::AlreadyDeleted)
    );
    assert!(person_list.person(PersonId::new(6)).is_ok());
}

#[test]
fn persons_may_share_a_name() {
    let mut person_list = PersonList::new();
    assert_eq!(person_list.add_person(generate_a_person(), None), Ok(()));
    assert_eq!(person_list.add_person(generate_a_person(), None), Ok(()));
    assert_eq!(person_list.iterate().len(), 2);
}

#[test]
fn person_errors_are_named() {
    let mut person_list = PersonList::new();
    person_list
        .add_person(generate_a_person(), Some(PersonId::new(3)))
        .unwrap();
    assert_eq!(
        person_list.add_person(generate_a_person(), Some(PersonId::new(3))),
        Err(HrError::DuplicateId)
    );
    assert_eq!(
        person_list.add_person(generate_a_person(), Some(PersonId::new(0))),
        Err(HrError::DuplicateId)
    );
    assert_eq!(person_list.delete_person(PersonId::new(2)), Err(HrError::NotFound));
    assert_eq!(person_list.delete_person(PersonId::new(3)), Ok(()));
    assert_eq!(
        person_list.delete_person(PersonId::new(3)),
        Err(HrError::AlreadyDeleted)
    );
    assert_eq!(
        person_list.add_person(generate_a_person(), Some(PersonId::new(3))),
        Err(HrError::DuplicateId)
    );
}

#[test]
fn next_after_steps_through_the_live_persons() {
    let mut person_list = PersonList::new();
    person_list
        .add_person(Person::new("Doe", Some("Jane")).unwrap(), Some(PersonId::new(4)))
        .unwrap();
    person_list
        .add_person(Person::new("Smith", None).unwrap(), Some(PersonId::new(6)))
        .unwrap();
    assert_eq!(
        person_list.next_after(PersonId::new(0)),
        Some((PersonId::new(4), String::from("Doe Jane")))
    );
    assert_eq!(
        person_list.next_after(PersonId::new(4)),
        Some((PersonId::new(6), String::from("Smith")))
    );
    assert_eq!(person_list.next_after(PersonId::new(6)), None);
}
