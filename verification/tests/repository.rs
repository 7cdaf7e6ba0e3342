use human_management::hr_app::datasource::department::TextFileDepartment;
use human_management::hr_app::datasource::member::TextFileMember;
use human_management::hr_app::datasource::person::TextFilePerson;
use human_management::hr_app::domain::department::id::DepartmentId;
use human_management::hr_app::domain::department::list::DepartmentList;
use human_management::hr_app::domain::department::Department;
use human_management::hr_app::domain::member::MemberList;
use human_management::hr_app::domain::person::id::PersonId;
use human_management::hr_app::domain::person::list::PersonList;
use human_management::hr_app::domain::person::Person;
use human_management::hr_app::error::HrError;
use human_management::hr_app::repository::department::DepartmentRepository;
use human_management::hr_app::repository::member::MemberRepository;
use human_management::hr_app::repository::person::PersonRepository;
use std::cell::RefCell;

/// A store that keeps its records in memory; `None` stands for a store
/// that does not exist yet.
struct Memory {
    contents: RefCell<Option<String>>,
}

impl Memory {
    fn missing() -> Memory {
        Memory { contents: RefCell::new(None) }
    }

    fn holding(contents: &str) -> Memory {
        Memory { contents: RefCell::new(Some(String::from(contents))) }
    }

    fn contents(&self) -> Option<String> {
        self.contents.borrow().clone()
    }
}

impl DepartmentRepository for Memory {
    fn read_all_data(&self, department_list: &mut DepartmentList) -> Result<(), HrError> {
        match self.contents() {
            Some(contents) => TextFileDepartment::read_records(&contents, department_list),
            None => Ok(()),
        }
    }

    fn overwrite_all_data(&self, department_list: &mut DepartmentList) -> Result<(), HrError> {
        *self.contents.borrow_mut() = Some(TextFileDepartment::render(department_list));
        Ok(())
    }
}

impl PersonRepository for Memory {
    fn read_all_data(&self, person_list: &mut PersonList) -> Result<(), HrError> {
        match self.contents() {
            Some(contents) => TextFilePerson::read_records(&contents, person_list),
            None => Ok(()),
        }
    }

    fn overwrite_all_data(&self, person_list: &mut PersonList) -> Result<(), HrError> {
        *self.contents.borrow_mut() = Some(TextFilePerson::render(person_list));
        Ok(())
    }
}

impl MemberRepository for Memory {
    fn read_all_data(
        &self,
        member_list: &mut MemberList,
        person_list: &PersonList,
        department_list: &DepartmentList,
    ) -> Result<(), HrError> {
        match self.contents() {
            Some(contents) => {
                TextFileMember::read_records(&contents, member_list, person_list, department_list)
            }
            None => Ok(()),
        }
    }

    fn overwrite_all_data(&self, member_list: &mut MemberList) -> Result<(), HrError> {
        *self.contents.borrow_mut() = Some(TextFileMember::render(member_list));
        Ok(())
    }
}

/// A store that cannot be reached.
struct Unreachable;

impl DepartmentRepository for Unreachable {
    fn read_all_data(&self, _department_list: &mut DepartmentList) -> Result<(), HrError> {
        Err(HrError::IoFailure)
    }

    fn overwrite_all_data(&self, _department_list: &mut DepartmentList) -> Result<(), HrError> {
        Err(HrError::IoFailure)
    }
}

fn load<D: DepartmentRepository>(store: &D) -> Result<DepartmentList, HrError> {
    let mut list = DepartmentList::new();
    store.read_all_data(&mut list)?;
    Ok(list)
}

#[test]
fn a_missing_store_holds_nothing() {
    let store = Memory::missing();
    let list = load(&store).unwrap();
    assert!(list.iterate().is_empty());
    let mut persons = PersonList::new();
    assert_eq!(PersonRepository::read_all_data(&store, &mut persons), Ok(()));
    let mut members = MemberList::new();
    assert_eq!(
        MemberRepository::read_all_data(&store, &mut members, &persons, &list),
        Ok(())
    );
}

#[test]
fn an_unreachable_store_fails_the_load() {
    assert_eq!(load(&Unreachable).err(), Some(HrError::IoFailure));
    let mut list = DepartmentList::new();
    assert_eq!(Unreachable.overwrite_all_data(&mut list), Err(HrError::IoFailure));
}

#[test]
fn a_store_with_a_malformed_record_fails_the_load() {
    assert_eq!(load(&Memory::holding("1 Sales\n2\n")).err(), Some(HrError::FormatError));
}

#[test]
fn what_is_stored_is_loaded_in_the_next_session() {
    let department_store = Memory::missing();
    let person_store = Memory::missing();
    let member_store = Memory::missing();

    let mut departments = DepartmentList::new();
    let mut persons = PersonList::new();
    let mut members = MemberList::new();
    departments.add_department(Department::new("Sales").unwrap(), None).unwrap();
    departments.add_department(Department::new("Legal").unwrap(), None).unwrap();
    persons.add_person(Person::new("Doe", Some("Jane")).unwrap(), None).unwrap();
    persons.add_person(Person::new("Smith", None).unwrap(), None).unwrap();
    members
        .add_person_to_department(PersonId::new(2), DepartmentId::new(1), &persons, &departments)
        .unwrap();
    members
        .add_person_to_department(PersonId::new(1), DepartmentId::new(2), &persons, &departments)
        .unwrap();
    DepartmentRepository::overwrite_all_data(&department_store, &mut departments).unwrap();
    PersonRepository::overwrite_all_data(&person_store, &mut persons).unwrap();
    MemberRepository::overwrite_all_data(&member_store, &mut members).unwrap();
    assert_eq!(department_store.contents(), Some(String::from("1 Sales\n2 Legal\n")));
    assert_eq!(person_store.contents(), Some(String::from("1 Doe Jane\n2 Smith\n")));
    assert_eq!(member_store.contents(), Some(String::from("1 2\n2 1\n")));

    let mut departments_again = DepartmentList::new();
    let mut persons_again = PersonList::new();
    let mut members_again = MemberList::new();
    DepartmentRepository::read_all_data(&department_store, &mut departments_again).unwrap();
    PersonRepository::read_all_data(&person_store, &mut persons_again).unwrap();
    MemberRepository::read_all_data(
        &member_store,
        &mut members_again,
        &persons_again,
        &departments_again,
    )
    .unwrap();
    assert_eq!(departments_again.iterate(), departments.iterate());
    assert_eq!(persons_again.iterate(), persons.iterate());
    assert_eq!(members_again.iterate(), members.iterate());
}

#[test]
fn a_membership_of_a_deleted_person_cannot_be_loaded_again() {
    let mut departments = DepartmentList::new();
    let mut persons = PersonList::new();
    let mut members = MemberList::new();
    departments.add_department(Department::new("Sales").unwrap(), None).unwrap();
    persons.add_person(Person::new("Doe", None).unwrap(), None).unwrap();
    members
        .add_person_to_department(PersonId::new(1), DepartmentId::new(1), &persons, &departments)
        .unwrap();
    persons.delete_person(PersonId::new(1)).unwrap();

    let person_text = TextFilePerson::render(&persons);
    let member_text = TextFileMember::render(&members);
    assert_eq!(person_text, "");
    assert_eq!(member_text, "1 1\n");

    // The store keeps no trace of a retired identifier.
    let mut persons_again = PersonList::new();
    TextFilePerson::read_records(&person_text, &mut persons_again).unwrap();
    assert_eq!(persons_again.person(PersonId::new(1)).err(), Some(HrError::NotFound));
    let mut members_again = MemberList::new();
    assert_eq!(
        TextFileMember::read_records(&member_text, &mut members_again, &persons_again, &departments),
        Err(HrError::NotFound)
    );
    assert!(members_again.iterate().is_empty());
}
