use super::query::{Query, QueryView};
use crate::hr_app::domain::department::id::DepartmentId;
use crate::hr_app::domain::department::list::{
    add_fault, lists_departments, spec_listed_ids, DepartmentList,
};
use crate::hr_app::domain::department::name::department_name_fault;
use crate::hr_app::domain::department::Department;
use crate::hr_app::domain::member::{
    enumerates, link_fault, shows_departments, shows_persons, unlink_fault, MemberList, MemberView,
};
use crate::hr_app::domain::person::id::PersonId;
use crate::hr_app::domain::person::list::{lists_persons, person_named, PersonList};
use crate::hr_app::domain::person::name::{person_name_fault, PersonNameView};
use crate::hr_app::domain::person::Person;
use crate::hr_app::domain::registry::RegistryView;
use crate::hr_app::error::HrError;
use crate::hr_app::text::decimal::{parse_decimal, parse_u64};
use vstd::prelude::*;

verus! {

/// One of the three stores that keep the lists between two sessions.
#[derive(PartialEq, Eq, Structural, Copy, Clone, Debug)]
pub enum Store {
    Departments,
    Persons,
    Members,
}

/// What a command asks of whoever runs the session.
#[derive(Debug, PartialEq, Eq)]
pub enum Reply {
    /// A list has changed: the store that keeps it is to be written anew.
    Changed(Store),
    /// The live departments, in ascending order of identifier.
    Departments(Vec<(DepartmentId, String)>),
    /// The live persons, in ascending order of identifier.
    Persons(Vec<(PersonId, String)>),
    /// A department and the names of its members.
    DepartmentInfo { name: String, members: Vec<String> },
    /// A person and the names of the departments the person belongs to.
    PersonInfo { name: String, departments: Vec<String> },
    /// Every live department with the names of its members, and the
    /// names of the persons who belong to no department.
    Overview { by_department: Vec<(String, Vec<String>)>, unassigned: Vec<String> },
    /// The list of commands is to be shown.
    Help,
    /// The session is to end.
    Quit,
}

/// The three lists of a session as mathematical values.
pub struct SessionView {
    pub persons: RegistryView<PersonNameView>,
    pub departments: RegistryView<Seq<char>>,
    pub members: MemberView,
}

/// The lists that a session works on.
pub struct Session {
    pub person_list: PersonList,
    pub department_list: DepartmentList,
    pub member_list: MemberList,
}

impl View for Session {
    type V = SessionView;

    open spec fn view(&self) -> SessionView {
        SessionView {
            persons: self.person_list@,
            departments: self.department_list@,
            members: self.member_list@,
        }
    }
}

/// `names` holds, in the order of `ids`, the displayed names of the live
/// persons `ids`.
pub open spec fn names_persons(
    names: Seq<String>,
    ids: Seq<u64>,
    persons: RegistryView<PersonNameView>,
) -> bool {
    &&& names.len() == ids.len()
    &&& forall|i: int| 0 <= i < ids.len() ==> #[trigger] person_named(persons, ids[i], names[i]@)
}

/// `names` holds, in the order of `ids`, the names of the live
/// departments `ids`.
pub open spec fn names_departments(
    names: Seq<String>,
    ids: Seq<u64>,
    departments: RegistryView<Seq<char>>,
) -> bool {
    &&& names.len() == ids.len()
    &&& forall|i: int|
        0 <= i < ids.len() ==> #[trigger] departments.lookup(ids[i]) == Ok::<Seq<char>, HrError>(
            names[i]@,
        )
}

/// What the creation of a department called `name` comes to.
pub open spec fn create_department_outcome(
    before: SessionView,
    name: Seq<char>,
    reply: Result<Reply, HrError>,
    after: SessionView,
) -> bool {
    match department_name_fault(name) {
        Some(fault) => reply == Err::<Reply, HrError>(HrError::ValidationError(fault)) && after
            == before,
        None => match add_fault(before.departments, name, None) {
            Some(e) => reply == Err::<Reply, HrError>(e) && after == before,
            None => {
                &&& reply == Ok::<Reply, HrError>(Reply::Changed(Store::Departments))
                &&& after.departments == before.departments.create(name, None)
                &&& after.persons == before.persons
                &&& after.members == before.members
            },
        },
    }
}

/// What the retirement of the department that `id` writes comes to.
pub open spec fn delete_department_outcome(
    before: SessionView,
    id: Seq<char>,
    reply: Result<Reply, HrError>,
    after: SessionView,
) -> bool {
    match parse_decimal(id) {
        None => reply == Err::<Reply, HrError>(HrError::FormatError) && after == before,
        Some(id) => match before.departments.lookup_fault(id) {
            Some(e) => reply == Err::<Reply, HrError>(e) && after == before,
            None => {
                &&& reply == Ok::<Reply, HrError>(Reply::Changed(Store::Departments))
                &&& after.departments == before.departments.delete(id)
                &&& after.persons == before.persons
                &&& after.members == before.members
            },
        },
    }
}

/// What the question after the department that `id` writes comes to.
pub open spec fn department_info_outcome(
    before: SessionView,
    id: Seq<char>,
    reply: Result<Reply, HrError>,
) -> bool {
    match parse_decimal(id) {
        None => reply == Err::<Reply, HrError>(HrError::FormatError),
        Some(id) => match before.departments.lookup(id) {
            Err(e) => reply == Err::<Reply, HrError>(e),
            Ok(department) => {
                &&& reply matches Ok(Reply::DepartmentInfo { name, members })
                &&& name@ == department
                &&& exists|ids: Seq<u64>|
                    {
                        &&& enumerates(ids, before.members.live_members(id, before.persons))
                        &&& #[trigger] names_persons(members@, ids, before.persons)
                    }
            },
        },
    }
}

/// What the creation of a person called `name` comes to.
pub open spec fn create_person_outcome(
    before: SessionView,
    name: PersonNameView,
    reply: Result<Reply, HrError>,
    after: SessionView,
) -> bool {
    match person_name_fault(name) {
        Some(fault) => reply == Err::<Reply, HrError>(HrError::ValidationError(fault)) && after
            == before,
        None => {
            &&& reply == Ok::<Reply, HrError>(Reply::Changed(Store::Persons))
            &&& after.persons == before.persons.create(name, None)
            &&& after.departments == before.departments
            &&& after.members == before.members
        },
    }
}

/// What the retirement of the person that `id` writes comes to.
pub open spec fn delete_person_outcome(
    before: SessionView,
    id: Seq<char>,
    reply: Result<Reply, HrError>,
    after: SessionView,
) -> bool {
    match parse_decimal(id) {
        None => reply == Err::<Reply, HrError>(HrError::FormatError) && after == before,
        Some(id) => match before.persons.lookup_fault(id) {
            Some(e) => reply == Err::<Reply, HrError>(e) && after == before,
            None => {
                &&& reply == Ok::<Reply, HrError>(Reply::Changed(Store::Persons))
                &&& after.persons == before.persons.delete(id)
                &&& after.departments == before.departments
                &&& after.members == before.members
            },
        },
    }
}

/// What the question after the person that `id` writes comes to. A
/// department of the person that is no live department is an error.
pub open spec fn person_info_outcome(
    before: SessionView,
    id: Seq<char>,
    reply: Result<Reply, HrError>,
) -> bool {
    match parse_decimal(id) {
        None => reply == Err::<Reply, HrError>(HrError::FormatError),
        Some(id) => match before.persons.lookup(id) {
            Err(e) => reply == Err::<Reply, HrError>(e),
            Ok(person) => match reply {
                Ok(Reply::PersonInfo { name, departments }) => {
                    &&& name@ == person.display()
                    &&& forall|department: u64| #[trigger]
                        before.members.has_pair(department, id) ==> before.departments.is_live(
                            department,
                        )
                    &&& exists|ids: Seq<u64>|
                        {
                            &&& enumerates(ids, before.members.departments(id))
                            &&& #[trigger] names_departments(
                                departments@,
                                ids,
                                before.departments,
                            )
                        }
                },
                Ok(_) => false,
                Err(e) => exists|department: u64|
                    #[trigger] before.members.has_pair(department, id)
                        && before.departments.lookup_fault(department) == Some(e),
            },
        },
    }
}

/// What making the person that `person` writes a member of the
/// department that `department` writes comes to.
pub open spec fn link_outcome(
    before: SessionView,
    person: Seq<char>,
    department: Seq<char>,
    reply: Result<Reply, HrError>,
    after: SessionView,
) -> bool {
    if parse_decimal(person) is None || parse_decimal(department) is None {
        reply == Err::<Reply, HrError>(HrError::FormatError) && after == before
    } else {
        let person = parse_decimal(person)->0;
        let department = parse_decimal(department)->0;
        match link_fault(before.members, before.persons, before.departments, person, department) {
            Some(e) => reply == Err::<Reply, HrError>(e) && after == before,
            None => {
                &&& reply == Ok::<Reply, HrError>(Reply::Changed(Store::Members))
                &&& after.members == before.members.link(department, person)
                &&& after.persons == before.persons
                &&& after.departments == before.departments
            },
        }
    }
}

/// What ending the membership of the person that `person` writes in the
/// department that `department` writes comes to.
pub open spec fn unlink_outcome(
    before: SessionView,
    person: Seq<char>,
    department: Seq<char>,
    reply: Result<Reply, HrError>,
    after: SessionView,
) -> bool {
    if parse_decimal(person) is None || parse_decimal(department) is None {
        reply == Err::<Reply, HrError>(HrError::FormatError) && after == before
    } else {
        let person = parse_decimal(person)->0;
        let department = parse_decimal(department)->0;
        match unlink_fault(before.members, before.persons, before.departments, person, department) {
            Some(e) => reply == Err::<Reply, HrError>(e) && after == before,
            None => {
                &&& reply == Ok::<Reply, HrError>(Reply::Changed(Store::Members))
                &&& after.members == before.members.unlink(department, person)
                &&& after.persons == before.persons
                &&& after.departments == before.departments
            },
        }
    }
}

/// The live person `person` belongs to `department`.
pub open spec fn member_shown(before: SessionView, department: u64, person: u64) -> bool {
    before.persons.is_live(person) && before.members.has_pair(department, person)
}

/// `ids` holds, in ascending order, the live persons who belong to
/// `department`.
pub open spec fn lists_members(before: SessionView, department: u64, ids: Seq<u64>) -> bool {
    &&& forall|i: int, j: int| 0 <= i < j < ids.len() ==> ids[i] < ids[j]
    &&& forall|i: int| 0 <= i < ids.len() ==> member_shown(before, department, #[trigger] ids[i])
    &&& forall|id: u64| #[trigger] member_shown(before, department, id) ==> ids.contains(id)
}

/// The live person `person` belongs to no department.
pub open spec fn is_unassigned(before: SessionView, person: u64) -> bool {
    &&& before.persons.is_live(person)
    &&& forall|department: u64| !#[trigger] before.members.has_pair(department, person)
}

/// `ids` holds, in ascending order, the live persons who belong to no
/// department.
pub open spec fn lists_unassigned(before: SessionView, ids: Seq<u64>) -> bool {
    &&& forall|i: int, j: int| 0 <= i < j < ids.len() ==> ids[i] < ids[j]
    &&& forall|i: int| 0 <= i < ids.len() ==> is_unassigned(before, #[trigger] ids[i])
    &&& forall|id: u64| #[trigger] is_unassigned(before, id) ==> ids.contains(id)
}

/// `bucket` holds the name of the live department `department` and the
/// displayed names of the live persons who belong to it, in ascending
/// order of their identifiers.
pub open spec fn shows_bucket(
    bucket: (String, Vec<String>),
    department: u64,
    before: SessionView,
) -> bool {
    &&& before.departments.lookup(department) == Ok::<Seq<char>, HrError>(bucket.0@)
    &&& exists|ids: Seq<u64>|
        lists_members(before, department, ids) && #[trigger] names_persons(
            bucket.1@,
            ids,
            before.persons,
        )
}

/// `buckets` holds a bucket for each of the departments `ids`, in the
/// order of `ids`.
pub open spec fn shows_buckets(
    buckets: Seq<(String, Vec<String>)>,
    ids: Seq<u64>,
    before: SessionView,
) -> bool {
    &&& buckets.len() == ids.len()
    &&& forall|i: int| 0 <= i < ids.len() ==> #[trigger] shows_bucket(buckets[i], ids[i], before)
}

/// The live person `person` belongs to `department`, which is no live
/// department: asking for it fails with `fault`.
pub open spec fn broken_pair(
    before: SessionView,
    person: u64,
    department: u64,
    fault: HrError,
) -> bool {
    &&& member_shown(before, department, person)
    &&& before.departments.lookup_fault(department) == Some(fault)
}

/// What the question after all persons by department comes to. Where a
/// live person belongs to what is no live department, there is no
/// answer but an error.
pub open spec fn overview_outcome(before: SessionView, reply: Result<Reply, HrError>) -> bool {
    match reply {
        Ok(Reply::Overview { by_department, unassigned }) => {
            &&& forall|person: u64, department: u64| #[trigger]
                member_shown(before, department, person) ==> before.departments.is_live(
                    department,
                )
            &&& exists|ids: Seq<u64>|
                before.departments.lists_live_ids(ids) && #[trigger] shows_buckets(
                    by_department@,
                    ids,
                    before,
                )
            &&& exists|ids: Seq<u64>|
                lists_unassigned(before, ids) && #[trigger] names_persons(
                    unassigned@,
                    ids,
                    before.persons,
                )
        },
        Ok(_) => false,
        Err(e) => exists|person: u64, department: u64| #[trigger]
            broken_pair(before, person, department, e),
    }
}

/// What a command comes to: the reply, and the lists after it.
pub open spec fn outcome(
    before: SessionView,
    query: QueryView,
    reply: Result<Reply, HrError>,
    after: SessionView,
) -> bool {
    match query {
        QueryView::CreateDepartment { department_name } => create_department_outcome(
            before,
            department_name,
            reply,
            after,
        ),
        QueryView::ShowAllDepartments => {
            &&& after == before
            &&& reply matches Ok(Reply::Departments(listing))
            &&& lists_departments(listing@, before.departments)
        },
        QueryView::ShowDepartmentInfo { department_id } => after == before
            && department_info_outcome(before, department_id, reply),
        QueryView::DeleteDepartment { department_id } => delete_department_outcome(
            before,
            department_id,
            reply,
            after,
        ),
        QueryView::CreatePerson { last_name, first_name } => create_person_outcome(
            before,
            PersonNameView { last_name, first_name },
            reply,
            after,
        ),
        QueryView::ShowAllPersons => {
            &&& after == before
            &&& reply matches Ok(Reply::Persons(listing))
            &&& lists_persons(listing@, before.persons)
        },
        QueryView::ShowPersonInfo { person_id } => after == before && person_info_outcome(
            before,
            person_id,
            reply,
        ),
        QueryView::DeletePerson { person_id } => delete_person_outcome(
            before,
            person_id,
            reply,
            after,
        ),
        QueryView::AddPersonToDepartment { person_id, department_id } => link_outcome(
            before,
            person_id,
            department_id,
            reply,
            after,
        ),
        QueryView::RemovePersonFromDepartment { person_id, department_id } => unlink_outcome(
            before,
            person_id,
            department_id,
            reply,
            after,
        ),
        QueryView::ShowAllPersonsByDepartment => after == before && overview_outcome(
            before,
            reply,
        ),
        QueryView::Help => after == before && reply == Ok::<Reply, HrError>(Reply::Help),
        QueryView::Quit => after == before && reply == Ok::<Reply, HrError>(Reply::Quit),
    }
}

/// `id` is among the first `bound` of `ids`.
spec fn among(ids: Seq<u64>, bound: int, id: u64) -> bool {
    exists|i: int| 0 <= i < bound && #[trigger] ids[i] == id
}

impl Session {
    /// The three lists are well-formed.
    pub open spec fn wf(&self) -> bool {
        &&& self.person_list.wf()
        &&& self.department_list.wf()
        &&& self.member_list.wf()
    }

    /// A session on three lists in which nothing was created yet.
    pub fn new() -> (session: Session)
        ensures
            session.wf(),
            session@.persons == RegistryView::<PersonNameView>::empty(),
            session@.departments == RegistryView::<Seq<char>>::empty(),
            session@.members == MemberView::empty(),
    {
        Session {
            person_list: PersonList::new(),
            department_list: DepartmentList::new(),
            member_list: MemberList::new(),
        }
    }

    /// Creates a department called `department_name` under the next
    /// identifier.
    fn create_department(&mut self, department_name: &String) -> (reply: Result<Reply, HrError>)
        requires
            old(self).wf(),
            old(self)@.departments.highest < u64::MAX,
        ensures
            final(self).wf(),
            create_department_outcome(old(self)@, department_name@, reply, final(self)@),
    {
        let new_department = match Department::new(department_name.as_str()) {
            Ok(department) => department,
            Err(e) => {
                return Err(e);
            },
        };
        match self.department_list.add_department(new_department, None) {
            Ok(_) => Ok(Reply::Changed(Store::Departments)),
            Err(e) => Err(e),
        }
    }

    /// Retires the department whose identifier `department_id` writes.
    fn delete_department(&mut self, department_id: &String) -> (reply: Result<Reply, HrError>)
        requires
            old(self).wf(),
        ensures
            final(self).wf(),
            delete_department_outcome(old(self)@, department_id@, reply, final(self)@),
    {
        let id = match parse_u64(department_id.as_str()) {
            Some(id) => DepartmentId::new(id),
            None => {
                return Err(HrError::FormatError);
            },
        };
        match self.department_list.delete_department(id) {
            Ok(_) => Ok(Reply::Changed(Store::Departments)),
            Err(e) => Err(e),
        }
    }

    /// The name of the department whose identifier `department_id` writes,
    /// and the names of its members.
    #[verifier::loop_isolation(false)]
    fn department_info(&self, department_id: &String) -> (reply: Result<Reply, HrError>)
        requires
            self.wf(),
        ensures
            department_info_outcome(self@, department_id@, reply),
    {
        let id = match parse_u64(department_id.as_str()) {
            Some(id) => DepartmentId::new(id),
            None => {
                return Err(HrError::FormatError);
            },
        };
        let name = match self.department_list.department(id) {
            Ok(department) => department.name(),
            Err(e) => {
                return Err(e);
            },
        };
        let found = self.member_list.person_list_by_department(id, &self.person_list);
        let ghost ids = choose|ids: Seq<u64>|
            enumerates(ids, self.member_list@.live_members(id@, self.person_list@))
                && #[trigger] shows_persons(found->Ok_0@, ids, self.person_list@);
        let persons = match found {
            Ok(persons) => persons,
            Err(e) => {
                return Err(e);
            },
        };
        assert(shows_persons(persons@, ids, self@.persons));
        let mut members: Vec<String> = Vec::new();
        let mut index: usize = 0;
        while index < persons.len()
            invariant
                index <= persons.len(),
                shows_persons(persons@, ids, self@.persons),
                members.len() == index,
                forall|i: int|
                    0 <= i < index ==> #[trigger] person_named(self@.persons, ids[i], members[i]@),
            decreases persons.len() - index,
        {
            members.push(persons[index].name());
            index = index + 1;
        }
        let reply: Result<Reply, HrError> = Ok(Reply::DepartmentInfo { name, members });
        proof {
            assert(enumerates(ids, self@.members.live_members(id@, self@.persons)));
            assert(reply matches Ok(Reply::DepartmentInfo { name, members }) && names_persons(
                members@,
                ids,
                self@.persons,
            ));
        }
        reply
    }

    /// Creates a person under the next identifier.
    fn create_person(&mut self, last_name: &String, first_name: &Option<String>) -> (reply: Result<
        Reply,
        HrError,
    >)
        requires
            old(self).wf(),
            old(self)@.persons.highest < u64::MAX,
        ensures
            final(self).wf(),
            create_person_outcome(
                old(self)@,
                PersonNameView {
                    last_name: last_name@,
                    first_name: match first_name {
                        Some(first_name) => Some(first_name@),
                        None => None,
                    },
                },
                reply,
                final(self)@,
            ),
    {
        let made = match first_name {
            Some(first_name) => Person::new(last_name.as_str(), Some(first_name.as_str())),
            None => Person::new(last_name.as_str(), None),
        };
        let new_person = match made {
            Ok(person) => person,
            Err(e) => {
                return Err(e);
            },
        };
        match self.person_list.add_person(new_person, None) {
            Ok(_) => Ok(Reply::Changed(Store::Persons)),
            Err(e) => Err(e),
        }
    }

    /// Retires the person whose identifier `person_id` writes.
    fn delete_person(&mut self, person_id: &String) -> (reply: Result<Reply, HrError>)
        requires
            old(self).wf(),
        ensures
            final(self).wf(),
            delete_person_outcome(old(self)@, person_id@, reply, final(self)@),
    {
        let id = match parse_u64(person_id.as_str()) {
            Some(id) => PersonId::new(id),
            None => {
                return Err(HrError::FormatError);
            },
        };
        match self.person_list.delete_person(id) {
            Ok(_) => Ok(Reply::Changed(Store::Persons)),
            Err(e) => Err(e),
        }
    }

    /// The name of the person whose identifier `person_id` writes, and the
    /// names of the departments the person belongs to.
    #[verifier::loop_isolation(false)]
    fn person_info(&mut self, person_id: &String) -> (reply: Result<Reply, HrError>)
        requires
            old(self).wf(),
        ensures
            final(self).wf(),
            final(self)@ == old(self)@,
            person_info_outcome(old(self)@, person_id@, reply),
    {
        let id = match parse_u64(person_id.as_str()) {
            Some(id) => PersonId::new(id),
            None => {
                return Err(HrError::FormatError);
            },
        };
        let name = match self.person_list.person(id) {
            Ok(person) => person.name(),
            Err(e) => {
                return Err(e);
            },
        };
        let ghost before = self@;
        let ghost registry = self.department_list@;
        let found = self.member_list.department_list_by_person(id, &mut self.department_list);
        let ghost shown = found->Ok_0@;
        let list = match found {
            Ok(list) => list,
            Err(e) => {
                proof {
                    let department = choose|department: u64|
                        #[trigger] self.member_list@.has_pair(department, id@)
                            && registry.lookup_fault(department) == Some(e);
                    assert(before.members.has_pair(department, id@));
                }
                return Err(e);
            },
        };
        let ghost ids = choose|ids: Seq<u64>|
            enumerates(ids, self.member_list@.departments(id@)) && #[trigger] shows_departments(
                shown,
                ids,
                registry,
            );
        assert(shows_departments(list@, ids, before.departments));
        let mut departments: Vec<String> = Vec::new();
        let mut index: usize = 0;
        while index < list.len()
            invariant
                index <= list.len(),
                shows_departments(list@, ids, before.departments),
                departments.len() == index,
                forall|i: int|
                    0 <= i < index ==> #[trigger] before.departments.lookup(ids[i]) == Ok::<
                        Seq<char>,
                        HrError,
                    >(departments[i]@),
            decreases list.len() - index,
        {
            departments.push(list[index].name());
            index = index + 1;
        }
        let reply: Result<Reply, HrError> = Ok(Reply::PersonInfo { name, departments });
        proof {
            assert(enumerates(ids, before.members.departments(id@)));
            assert(reply matches Ok(Reply::PersonInfo { name, departments })
                && names_departments(departments@, ids, before.departments));
        }
        reply
    }

    /// Makes the person a member of the department.
    fn link(&mut self, person_id: &String, department_id: &String) -> (reply: Result<
        Reply,
        HrError,
    >)
        requires
            old(self).wf(),
        ensures
            final(self).wf(),
            link_outcome(old(self)@, person_id@, department_id@, reply, final(self)@),
    {
        let person_id = match parse_u64(person_id.as_str()) {
            Some(id) => PersonId::new(id),
            None => {
                return Err(HrError::FormatError);
            },
        };
        let department_id = match parse_u64(department_id.as_str()) {
            Some(id) => DepartmentId::new(id),
            None => {
                return Err(HrError::FormatError);
            },
        };
        match self.member_list.add_person_to_department(
            person_id,
            department_id,
            &self.person_list,
            &self.department_list,
        ) {
            Ok(_) => Ok(Reply::Changed(Store::Members)),
            Err(e) => Err(e),
        }
    }

    /// Ends the person's membership of the department.
    fn unlink(&mut self, person_id: &String, department_id: &String) -> (reply: Result<
        Reply,
        HrError,
    >)
        requires
            old(self).wf(),
        ensures
            final(self).wf(),
            unlink_outcome(old(self)@, person_id@, department_id@, reply, final(self)@),
    {
        let person_id = match parse_u64(person_id.as_str()) {
            Some(id) => PersonId::new(id),
            None => {
                return Err(HrError::FormatError);
            },
        };
        let department_id = match parse_u64(department_id.as_str()) {
            Some(id) => DepartmentId::new(id),
            None => {
                return Err(HrError::FormatError);
            },
        };
        match self.member_list.remove_person_from_department(
            person_id,
            department_id,
            &self.person_list,
            &self.department_list,
        ) {
            Ok(_) => Ok(Reply::Changed(Store::Members)),
            Err(e) => Err(e),
        }
    }
    /// The displayed names of the live persons who belong to
    /// `department`, in ascending order of their identifiers.
    #[verifier::loop_isolation(false)]
    fn members_in_order(
        &self,
        department: DepartmentId,
        persons: &Vec<(PersonId, String)>,
    ) -> (names: Vec<String>)
        requires
            self.wf(),
            lists_persons(persons@, self@.persons),
        ensures
            exists|ids: Seq<u64>|
                lists_members(self@, department@, ids) && #[trigger] names_persons(
                    names@,
                    ids,
                    self@.persons,
                ),
    {
        let ghost before = self@;
        let ghost all = crate::hr_app::domain::person::list::spec_listed_ids(persons@);
        let ghost mut kept: Seq<u64> = Seq::empty();
        let mut names: Vec<String> = Vec::new();
        let mut index: usize = 0;
        while index < persons.len()
            invariant
                index <= persons.len(),
                names_persons(names@, kept, before.persons),
                forall|k: int| 0 <= k < kept.len() ==> among(all, index as int, #[trigger] kept[k]),
                forall|k: int, l: int| 0 <= k < l < kept.len() ==> kept[k] < kept[l],
                forall|k: int|
                    0 <= k < kept.len() ==> member_shown(before, department@, #[trigger] kept[k]),
                forall|j: int|
                    0 <= j < index && member_shown(before, department@, #[trigger] all[j])
                        ==> kept.contains(all[j]),
            decreases persons.len() - index,
        {
            let ghost old_kept = kept;
            let ghost old_names = names@;
            let ghost id = all[index as int];
            proof {
                assert(id == persons[index as int].0@);
                assert(before.persons.is_live(all[index as int]));
                assert(person_named(
                    before.persons,
                    persons[index as int].0@,
                    persons[index as int].1@,
                ));
                assert forall|k: int| 0 <= k < old_kept.len() implies #[trigger] old_kept[k]
                    < id by {
                    assert(among(all, index as int, old_kept[k]));
                    let j = choose|j: int| 0 <= j < index && #[trigger] all[j] == old_kept[k];
                    assert(all[j] < all[index as int]);
                }
            }
            if self.member_list.is_member(persons[index].0, department) {
                names.push(persons[index].1.clone());
                proof {
                    kept = old_kept.push(id);
                    assert forall|k: int| 0 <= k < kept.len() implies #[trigger] person_named(
                        before.persons,
                        kept[k],
                        names[k]@,
                    ) by {
                        if k < old_kept.len() {
                            assert(person_named(before.persons, old_kept[k], old_names[k]@));
                        }
                    }
                    assert forall|k: int| 0 <= k < kept.len() implies among(
                        all,
                        index + 1,
                        #[trigger] kept[k],
                    ) by {
                        if k < old_kept.len() {
                            assert(among(all, index as int, old_kept[k]));
                            let j = choose|j: int|
                                0 <= j < index && #[trigger] all[j] == old_kept[k];
                            assert(all[j] == kept[k]);
                        } else {
                            assert(all[index as int] == kept[k]);
                        }
                    }
                    assert forall|j: int|
                        0 <= j < index + 1 && member_shown(
                            before,
                            department@,
                            #[trigger] all[j],
                        ) implies kept.contains(all[j]) by {
                        if j < index {
                            let k = choose|k: int|
                                0 <= k < old_kept.len() && old_kept[k] == all[j];
                            assert(kept[k] == all[j]);
                        } else {
                            assert(kept[kept.len() - 1] == all[j]);
                        }
                    }
                }
            } else {
                proof {
                    assert forall|k: int| 0 <= k < kept.len() implies among(
                        all,
                        index + 1,
                        #[trigger] kept[k],
                    ) by {
                        assert(among(all, index as int, kept[k]));
                        let j = choose|j: int| 0 <= j < index && #[trigger] all[j] == kept[k];
                        assert(all[j] == kept[k]);
                    }
                }
            }
            index = index + 1;
        }
        proof {
            assert forall|id: u64| #[trigger]
                member_shown(before, department@, id) implies kept.contains(id) by {
                assert(all.contains(id));
                let j = choose|j: int| 0 <= j < all.len() && all[j] == id;
                assert(member_shown(before, department@, all[j]));
            }
            assert(lists_members(before, department@, kept));
        }
        names
    }

    /// The displayed names of the live persons who belong to no
    /// department, in ascending order of their identifiers; an error
    /// where a live person belongs to what is no live department.
    #[verifier::loop_isolation(false)]
    fn unassigned_in_order(&mut self, persons: &Vec<(PersonId, String)>) -> (found: Result<
        Vec<String>,
        HrError,
    >)
        requires
            old(self).wf(),
            lists_persons(persons@, old(self)@.persons),
        ensures
            final(self).wf(),
            final(self)@ == old(self)@,
            match found {
                Ok(names) => {
                    &&& forall|person: u64, department: u64| #[trigger]
                        member_shown(old(self)@, department, person) ==> old(
                            self,
                        )@.departments.is_live(department)
                    &&& exists|ids: Seq<u64>|
                        lists_unassigned(old(self)@, ids) && #[trigger] names_persons(
                            names@,
                            ids,
                            old(self)@.persons,
                        )
                },
                Err(e) => exists|person: u64, department: u64| #[trigger]
                    broken_pair(old(self)@, person, department, e),
            },
    {
        let ghost before = self@;
        let ghost all = crate::hr_app::domain::person::list::spec_listed_ids(persons@);
        let ghost mut kept: Seq<u64> = Seq::empty();
        let mut names: Vec<String> = Vec::new();
        let mut index: usize = 0;
        while index < persons.len()
            invariant
                index <= persons.len(),
                self.wf(),
                self@ == before,
                names_persons(names@, kept, before.persons),
                forall|k: int| 0 <= k < kept.len() ==> among(all, index as int, #[trigger] kept[k]),
                forall|k: int, l: int| 0 <= k < l < kept.len() ==> kept[k] < kept[l],
                forall|k: int| 0 <= k < kept.len() ==> is_unassigned(before, #[trigger] kept[k]),
                forall|j: int|
                    0 <= j < index && is_unassigned(before, #[trigger] all[j]) ==> kept.contains(
                        all[j],
                    ),
                forall|j: int, department: u64|
                    0 <= j < index && #[trigger] before.members.has_pair(department, all[j])
                        ==> before.departments.is_live(department),
            decreases persons.len() - index,
        {
            let ghost old_kept = kept;
            let ghost old_names = names@;
            let ghost id = all[index as int];
            proof {
                assert(id == persons[index as int].0@);
                assert(before.persons.is_live(all[index as int]));
                assert(person_named(
                    before.persons,
                    persons[index as int].0@,
                    persons[index as int].1@,
                ));
                assert forall|k: int| 0 <= k < old_kept.len() implies #[trigger] old_kept[k]
                    < id by {
                    assert(among(all, index as int, old_kept[k]));
                    let j = choose|j: int| 0 <= j < index && #[trigger] all[j] == old_kept[k];
                    assert(all[j] < all[index as int]);
                }
            }
            let ghost registry = self.department_list@;
            let found = self.member_list.department_list_by_person(
                persons[index].0,
                &mut self.department_list,
            );
            let ghost shown = found->Ok_0@;
            let free = match found {
                Ok(list) => list.len() == 0,
                Err(e) => {
                    proof {
                        let department = choose|department: u64|
                            #[trigger] self.member_list@.has_pair(department, id)
                                && registry.lookup_fault(department) == Some(e);
                        assert(broken_pair(before, id, department, e));
                    }
                    return Err(e);
                },
            };
            proof {
                let departments = choose|departments: Seq<u64>|
                    enumerates(departments, self.member_list@.departments(id))
                        && #[trigger] shows_departments(shown, departments, registry);
                if free {
                    assert forall|department: u64| !#[trigger] before.members.has_pair(
                        department,
                        id,
                    ) by {
                        if before.members.has_pair(department, id) {
                            assert(before.members.departments(id).contains(department));
                            assert(departments.to_set().contains(department));
                        }
                    }
                    assert(is_unassigned(before, id));
                } else {
                    assert(departments.to_set().contains(departments[0]));
                    assert(before.members.departments(id).contains(departments[0]));
                    assert(before.members.has_pair(departments[0], id));
                    assert(!is_unassigned(before, id));
                }
                assert forall|j: int, department: u64|
                    0 <= j < index + 1 && #[trigger] before.members.has_pair(
                        department,
                        all[j],
                    ) implies before.departments.is_live(department) by {}
            }
            if free {
                names.push(persons[index].1.clone());
                proof {
                    kept = old_kept.push(id);
                    assert forall|k: int| 0 <= k < kept.len() implies #[trigger] person_named(
                        before.persons,
                        kept[k],
                        names[k]@,
                    ) by {
                        if k < old_kept.len() {
                            assert(person_named(before.persons, old_kept[k], old_names[k]@));
                        }
                    }
                    assert forall|k: int| 0 <= k < kept.len() implies among(
                        all,
                        index + 1,
                        #[trigger] kept[k],
                    ) by {
                        if k < old_kept.len() {
                            assert(among(all, index as int, old_kept[k]));
                            let j = choose|j: int|
                                0 <= j < index && #[trigger] all[j] == old_kept[k];
                            assert(all[j] == kept[k]);
                        } else {
                            assert(all[index as int] == kept[k]);
                        }
                    }
                    assert forall|j: int|
                        0 <= j < index + 1 && is_unassigned(
                            before,
                            #[trigger] all[j],
                        ) implies kept.contains(all[j]) by {
                        if j < index {
                            let k = choose|k: int|
                                0 <= k < old_kept.len() && old_kept[k] == all[j];
                            assert(kept[k] == all[j]);
                        } else {
                            assert(kept[kept.len() - 1] == all[j]);
                        }
                    }
                }
            } else {
                proof {
                    assert forall|k: int| 0 <= k < kept.len() implies among(
                        all,
                        index + 1,
                        #[trigger] kept[k],
                    ) by {
                        assert(among(all, index as int, kept[k]));
                        let j = choose|j: int| 0 <= j < index && #[trigger] all[j] == kept[k];
                        assert(all[j] == kept[k]);
                    }
                }
            }
            index = index + 1;
        }
        proof {
            assert forall|id: u64| #[trigger] is_unassigned(before, id) implies kept.contains(
                id,
            ) by {
                assert(all.contains(id));
                let j = choose|j: int| 0 <= j < all.len() && all[j] == id;
                assert(is_unassigned(before, all[j]));
            }
            assert(lists_unassigned(before, kept));
            assert forall|person: u64, department: u64| #[trigger]
                member_shown(before, department, person) implies before.departments.is_live(
                department,
            ) by {
                assert(all.contains(person));
                let j = choose|j: int| 0 <= j < all.len() && all[j] == person;
                assert(before.members.has_pair(department, all[j]));
            }
        }
        let found: Result<Vec<String>, HrError> = Ok(names);
        proof {
            assert(names_persons(found->Ok_0@, kept, before.persons));
        }
        found
    }

    /// Every live department with the names of its members, and the
    /// names of the persons who belong to no department.
    #[verifier::loop_isolation(false)]
    fn overview(&mut self) -> (reply: Result<Reply, HrError>)
        requires
            old(self).wf(),
        ensures
            final(self).wf(),
            final(self)@ == old(self)@,
            overview_outcome(old(self)@, reply),
    {
        let ghost before = self@;
        let persons = self.person_list.iterate();
        let found = self.unassigned_in_order(&persons);
        let ghost free = choose|ids: Seq<u64>|
            lists_unassigned(before, ids) && #[trigger] names_persons(
                found->Ok_0@,
                ids,
                before.persons,
            );
        let unassigned = match found {
            Ok(names) => names,
            Err(e) => {
                return Err(e);
            },
        };
        let departments = self.department_list.iterate();
        let ghost ids = spec_listed_ids(departments@);
        let mut by_department: Vec<(String, Vec<String>)> = Vec::new();
        let mut index: usize = 0;
        while index < departments.len()
            invariant
                index <= departments.len(),
                self.wf(),
                self@ == before,
                by_department.len() == index,
                forall|i: int|
                    0 <= i < index ==> #[trigger] shows_bucket(by_department[i], ids[i], before),
            decreases departments.len() - index,
        {
            let ghost shown = by_department@;
            let names = self.members_in_order(departments[index].0, &persons);
            let ghost members = choose|members: Seq<u64>|
                lists_members(before, ids[index as int], members) && #[trigger] names_persons(
                    names@,
                    members,
                    before.persons,
                );
            let bucket = (departments[index].1.clone(), names);
            proof {
                assert(names_persons(bucket.1@, members, before.persons));
                assert(before.departments.is_live(ids[index as int]));
                assert(before.departments.slots[departments[index as int].0@] == Some(
                    departments[index as int].1@,
                ));
                assert(shows_bucket(bucket, ids[index as int], before));
            }
            by_department.push(bucket);
            proof {
                assert forall|i: int| 0 <= i < index + 1 implies #[trigger] shows_bucket(
                    by_department[i],
                    ids[i],
                    before,
                ) by {
                    if i < index {
                        assert(shows_bucket(shown[i], ids[i], before));
                    }
                }
            }
            index = index + 1;
        }
        let reply: Result<Reply, HrError> = Ok(Reply::Overview { by_department, unassigned });
        proof {
            assert(reply matches Ok(Reply::Overview { by_department, unassigned }) && shows_buckets(
                by_department@,
                ids,
                before,
            ) && names_persons(unassigned@, free, before.persons));
        }
        reply
    }

    /// Carries out one command on the lists of the session, and says what
    /// there is to show or to store.
    pub fn execute(&mut self, query: &Query) -> (reply: Result<Reply, HrError>)
        requires
            old(self).wf(),
            query is CreateDepartment ==> old(self)@.departments.highest < u64::MAX,
            query is CreatePerson ==> old(self)@.persons.highest < u64::MAX,
        ensures
            final(self).wf(),
            outcome(old(self)@, query@, reply, final(self)@),
    {
        match query {
            Query::CreateDepartment { department_name } => self.create_department(
                department_name,
            ),
            Query::ShowAllDepartments => {
                let listing = self.department_list.iterate();
                let reply: Result<Reply, HrError> = Ok(Reply::Departments(listing));
                assert(reply matches Ok(Reply::Departments(listing)) && lists_departments(
                    listing@,
                    self@.departments,
                ));
                reply
            },
            Query::ShowDepartmentInfo { department_id } => self.department_info(department_id),
            Query::DeleteDepartment { department_id } => self.delete_department(department_id),
            Query::CreatePerson { last_name, first_name } => self.create_person(
                last_name,
                first_name,
            ),
            Query::ShowAllPersons => {
                let listing = self.person_list.iterate();
                let reply: Result<Reply, HrError> = Ok(Reply::Persons(listing));
                assert(reply matches Ok(Reply::Persons(listing)) && lists_persons(
                    listing@,
                    self@.persons,
                ));
                reply
            },
            Query::ShowPersonInfo { person_id } => self.person_info(person_id),
            Query::DeletePerson { person_id } => self.delete_person(person_id),
            Query::AddPersonToDepartment { person_id, department_id } => self.link(
                person_id,
                department_id,
            ),
            Query::RemovePersonFromDepartment { person_id, department_id } => self.unlink(
                person_id,
                department_id,
            ),
            Query::ShowAllPersonsByDepartment => self.overview(),
            Query::Help => Ok(Reply::Help),
            Query::Quit => Ok(Reply::Quit),
        }
    }
}

} // verus!
