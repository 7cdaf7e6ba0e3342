use super::department::id::DepartmentId;
use super::department::list::DepartmentList;
use super::department::Department;
use super::person::id::PersonId;
use super::person::list::PersonList;
use super::person::name::PersonNameView;
use super::person::Person;
use super::registry::RegistryView;
use crate::hr_app::error::HrError;
use std::collections::hash_map::Entry;
use std::collections::HashMap;
use std::collections::HashSet;
use vstd::prelude::*;
use vstd::std_specs::iter::IteratorSpec;

verus! {

broadcast use vstd::std_specs::hash::group_hash_axioms;

/// The state of the membership index as a mathematical value: for each
/// department that ever had a member, the set of its members, and the
/// highest such department.
pub struct MemberView {
    pub highest: u64,
    pub index: Map<u64, Set<u64>>,
}

impl MemberView {
    /// The index without any entry.
    pub open spec fn empty() -> Self {
        MemberView { highest: 0, index: Map::empty() }
    }

    /// Every department of the index lies between 1 and the highest.
    pub open spec fn wf(self) -> bool {
        forall|department: u64| #[trigger]
            self.index.contains_key(department) ==> 1 <= department <= self.highest
    }

    /// The person belongs to the department.
    pub open spec fn has_pair(self, department: u64, person: u64) -> bool {
        self.index.contains_key(department) && self.index[department].contains(person)
    }

    /// The membership relation: all pairs of a department and a person who
    /// belongs to it.
    pub open spec fn pairs(self) -> Set<(u64, u64)> {
        Set::new(|pair: (u64, u64)| self.has_pair(pair.0, pair.1))
    }

    /// The members of a department; none where it has no entry.
    pub open spec fn members(self, department: u64) -> Set<u64> {
        if self.index.contains_key(department) {
            self.index[department]
        } else {
            Set::empty()
        }
    }

    /// The departments to which a person belongs.
    pub open spec fn departments(self, person: u64) -> Set<u64> {
        Set::new(|department: u64| self.has_pair(department, person))
    }

    /// The members of a department that are live persons of `persons`.
    pub open spec fn live_members<V>(self, department: u64, persons: RegistryView<V>) -> Set<u64> {
        Set::new(|person: u64| self.has_pair(department, person) && persons.is_live(person))
    }

    /// The index after the person joined the department.
    pub open spec fn link(self, department: u64, person: u64) -> Self {
        MemberView {
            highest: if department > self.highest {
                department
            } else {
                self.highest
            },
            index: self.index.insert(department, self.members(department).insert(person)),
        }
    }

    /// The index after the person left the department. The department
    /// keeps its entry, be it empty.
    pub open spec fn unlink(self, department: u64, person: u64) -> Self {
        MemberView {
            highest: self.highest,
            index: self.index.insert(department, self.members(department).remove(person)),
        }
    }

    /// Where a person who did not belong to a department joins it and
    /// leaves it again, the membership relation is what it was before.
    /// Of the index, only the entry of that department can differ: it ends
    /// with the members it had, be they none, and every other entry is
    /// untouched. The highest department is the greater of what it was
    /// and that department.
    pub proof fn law_link_unlink_restores(self, department: u64, person: u64)
        requires
            !self.has_pair(department, person),
        ensures
            self.link(department, person).has_pair(department, person),
            self.link(department, person).unlink(department, person).highest == (if department
                > self.highest {
                department
            } else {
                self.highest
            }),
            self.link(department, person).unlink(department, person).pairs() == self.pairs(),
            self.link(department, person).unlink(department, person).index == self.index.insert(
                department,
                self.members(department),
            ),
            self.index.contains_key(department) ==> self.link(department, person).unlink(
                department,
                person,
            ).index == self.index,
            !self.index.contains_key(department) ==> self.link(department, person).unlink(
                department,
                person,
            ).index == self.index.insert(department, Set::<u64>::empty()),
    {
        let after = self.link(department, person).unlink(department, person);
        assert(self.members(department).insert(person).remove(person) =~= self.members(
            department,
        ));
        assert(after.index =~= self.index.insert(department, self.members(department)));
        assert(after.pairs() =~= self.pairs());
        if self.index.contains_key(department) {
            assert(after.index =~= self.index);
        }
    }

    /// Joining and leaving keep the index well-formed, provided that the
    /// department is not 0.
    pub proof fn law_link_unlink_keep_wf(self, department: u64, person: u64)
        requires
            self.wf(),
            department != 0,
        ensures
            self.link(department, person).wf(),
            self.unlink(department, person).index.contains_key(department),
            self.index.contains_key(department) ==> self.unlink(department, person).wf(),
    {
    }

    /// `department` is the first department with an entry above `after`.
    pub open spec fn is_next_entry(self, after: u64, department: u64) -> bool {
        &&& after < department
        &&& self.index.contains_key(department)
        &&& forall|between: u64| after < between < department ==> !self.index.contains_key(between)
    }

    /// No department above `after` has an entry.
    pub open spec fn no_entry_after(self, after: u64) -> bool {
        forall|department: u64| after < department ==> !self.index.contains_key(department)
    }

    /// `departments` holds the departments with an entry, each once, in
    /// ascending order.
    pub open spec fn lists_entries(self, departments: Seq<u64>) -> bool {
        &&& forall|i: int, j: int|
            0 <= i < j < departments.len() ==> departments[i] < departments[j]
        &&& forall|i: int|
            0 <= i < departments.len() ==> self.index.contains_key(#[trigger] departments[i])
        &&& forall|department: u64|
            self.index.contains_key(department) ==> departments.contains(department)
    }
}

/// Why a person cannot join a department, or `None` where it can. The
/// person is looked up first, then the department, then the pair.
pub open spec fn link_fault(
    members: MemberView,
    persons: RegistryView<PersonNameView>,
    departments: RegistryView<Seq<char>>,
    person: u64,
    department: u64,
) -> Option<HrError> {
    if persons.lookup_fault(person) is Some {
        persons.lookup_fault(person)
    } else if departments.lookup_fault(department) is Some {
        departments.lookup_fault(department)
    } else if members.has_pair(department, person) {
        Some(HrError::AlreadyMember)
    } else {
        None
    }
}

/// Why a person cannot leave a department, or `None` where it can. The
/// person is looked up first, then the department, then the pair.
pub open spec fn unlink_fault(
    members: MemberView,
    persons: RegistryView<PersonNameView>,
    departments: RegistryView<Seq<char>>,
    person: u64,
    department: u64,
) -> Option<HrError> {
    if persons.lookup_fault(person) is Some {
        persons.lookup_fault(person)
    } else if departments.lookup_fault(department) is Some {
        departments.lookup_fault(department)
    } else if !members.has_pair(department, person) {
        Some(HrError::NotMember)
    } else {
        None
    }
}

/// `ids` holds the elements of `set`, each once, in some order.
pub open spec fn enumerates(ids: Seq<u64>, set: Set<u64>) -> bool {
    ids.no_duplicates() && ids.to_set() == set
}

/// `persons` holds, in the order of `ids`, the persons that `ids` denote
/// in `registry`.
pub open spec fn shows_persons(
    persons: Seq<&Person>,
    ids: Seq<u64>,
    registry: RegistryView<PersonNameView>,
) -> bool {
    &&& persons.len() == ids.len()
    &&& forall|i: int|
        0 <= i < ids.len() ==> registry.slots.contains_key(#[trigger] ids[i])
            && registry.slots[ids[i]] == Some(persons[i]@)
}

/// `departments` holds, in the order of `ids`, the departments that `ids`
/// denote in `registry`.
pub open spec fn shows_departments(
    departments: Seq<&Department>,
    ids: Seq<u64>,
    registry: RegistryView<Seq<char>>,
) -> bool {
    &&& departments.len() == ids.len()
    &&& forall|i: int|
        0 <= i < ids.len() ==> registry.slots.contains_key(#[trigger] ids[i])
            && registry.slots[ids[i]] == Some(departments[i]@)
}

/// `id` is the department of one of the first `bound` of `entries`.
spec fn seen_entry(entries: Seq<(&u64, &HashSet<u64>)>, bound: int, id: u64) -> bool {
    exists|i: int| 0 <= i < bound && *(#[trigger] entries[i]).0 == id
}

/// `id` is among the first `bound` of `keys`.
spec fn seen(keys: Seq<&u64>, bound: int, id: u64) -> bool {
    exists|i: int| 0 <= i < bound && *(#[trigger] keys[i]) == id
}

/// The numbers of a list of person identifiers, in its order.
pub open spec fn spec_person_numbers(ids: Seq<PersonId>) -> Seq<u64> {
    Seq::new(ids.len(), |i: int| ids[i]@)
}

/// The departments of a listing, in its order.
pub open spec fn spec_listed_departments(listing: Seq<(DepartmentId, Vec<PersonId>)>) -> Seq<u64> {
    Seq::new(listing.len(), |i: int| listing[i].0@)
}

/// The membership index: which persons belong to which departments.
///
/// The members of a department are found at once; the departments of a
/// person are found by going through every department of the index.
///
/// A membership can be made only between a live person and a live
/// department, but retiring either of them later leaves the membership
/// in the index. Such a membership is not treated alike in the two
/// directions: `person_list_by_department` passes over a member that is
/// no live person, whereas `department_list_by_person` fails on a
/// department that is no live department.
pub struct MemberList {
    max_id: DepartmentId,
    list: HashMap<u64, HashSet<u64>>,
}

impl View for MemberList {
    type V = MemberView;

    closed spec fn view(&self) -> MemberView {
        MemberView {
            highest: self.max_id@,
            index: Map::new(
                |department: u64| self.list@.contains_key(department),
                |department: u64| self.list@[department]@,
            ),
        }
    }
}

impl MemberList {
    /// Every department of the index lies between 1 and the highest.
    pub open spec fn wf(&self) -> bool {
        self@.wf()
    }

    /// The index without any membership.
    pub fn new() -> (list: MemberList)
        ensures
            list.wf(),
            list@ == MemberView::empty(),
    {
        let made = MemberList { max_id: DepartmentId::new(0), list: HashMap::new() };
        assert(made@.index =~= MemberView::empty().index);
        made
    }

    /// Whether the person belongs to the department.
    pub fn is_member(&self, person_id: PersonId, department_id: DepartmentId) -> (member: bool)
        ensures
            member == self@.has_pair(department_id@, person_id@),
    {
        match self.list.get(&department_id.value().value()) {
            Some(members) => members.contains(&person_id.value().value()),
            None => false,
        }
    }

    /// Makes the person a member of the department. Both must be live.
    pub fn add_person_to_department(
        &mut self,
        person_id: PersonId,
        department_id: DepartmentId,
        person_list: &PersonList,
        department_list: &DepartmentList,
    ) -> (linked: Result<(), HrError>)
        requires
            old(self).wf(),
            person_list.wf(),
            department_list.wf(),
        ensures
            final(self).wf(),
            match link_fault(
                old(self)@,
                person_list@,
                department_list@,
                person_id@,
                department_id@,
            ) {
                Some(e) => linked == Err::<(), HrError>(e) && final(self)@ == old(self)@,
                None => linked is Ok && final(self)@ == old(self)@.link(
                    department_id@,
                    person_id@,
                ),
            },
    {
        match person_list.person(person_id) {
            Ok(_) => {},
            Err(e) => {
                return Err(e);
            },
        }
        match department_list.department(department_id) {
            Ok(_) => {},
            Err(e) => {
                return Err(e);
            },
        }
        let person = person_id.value().value();
        let department = department_id.value().value();
        let members = self.list.entry(department).or_insert(HashSet::new());
        if members.contains(&person) {
            assert(self@.index =~= old(self)@.index);
            return Err(HrError::AlreadyMember);
        }
        members.insert(person);
        if department_id.greater_than(self.max_id) {
            self.max_id = department_id;
        }
        proof {
            let after = old(self)@.link(department_id@, person_id@);
            assert(self@.index =~= after.index);
        }
        Ok(())
    }
    /// Ends the person's membership of the department. Both must be live.
    pub fn remove_person_from_department(
        &mut self,
        person_id: PersonId,
        department_id: DepartmentId,
        person_list: &PersonList,
        department_list: &DepartmentList,
    ) -> (unlinked: Result<(), HrError>)
        requires
            old(self).wf(),
            person_list.wf(),
            department_list.wf(),
        ensures
            final(self).wf(),
            match unlink_fault(
                old(self)@,
                person_list@,
                department_list@,
                person_id@,
                department_id@,
            ) {
                Some(e) => unlinked == Err::<(), HrError>(e) && final(self)@ == old(self)@,
                None => unlinked is Ok && final(self)@ == old(self)@.unlink(
                    department_id@,
                    person_id@,
                ),
            },
    {
        match person_list.person(person_id) {
            Ok(_) => {},
            Err(e) => {
                return Err(e);
            },
        }
        match department_list.department(department_id) {
            Ok(_) => {},
            Err(e) => {
                return Err(e);
            },
        }
        let person = person_id.value().value();
        let department = department_id.value().value();
        match self.list.entry(department) {
            Entry::Occupied(mut entry) => {
                let members = entry.get_mut();
                if !members.contains(&person) {
                    assert(self@.index =~= old(self)@.index);
                    return Err(HrError::NotMember);
                }
                members.remove(&person);
            },
            Entry::Vacant(_) => {
                assert(self@.index =~= old(self)@.index);
                return Err(HrError::NotMember);
            },
        }
        proof {
            let after = old(self)@.unlink(department_id@, person_id@);
            assert(self@.index =~= after.index);
        }
        Ok(())
    }

    /// The identifiers held in `members`, each once.
    fn member_ids(members: &HashSet<u64>) -> (ids: Vec<PersonId>)
        ensures
            enumerates(spec_person_numbers(ids@), members@),
    {
        let ghost keys = members.iter().remaining();
        let mut ids: Vec<PersonId> = Vec::new();
        for person in it: members.iter()
            invariant
                it.seq() == keys,
                ids.len() == it.index(),
                forall|i: int| 0 <= i < ids.len() ==> (#[trigger] ids[i])@ == *keys[i],
        {
            ids.push(PersonId::new(*person));
        }
        proof {
            let numbers = spec_person_numbers(ids@);
            assert(numbers =~= keys.unref());
        }
        ids
    }
    /// The members of the department that are live persons, each once, in
    /// no particular order. A member that is no live person is left out;
    /// a department without an entry has no members.
    pub fn person_list_by_department<'a>(
        &self,
        department_id: DepartmentId,
        person_list: &'a PersonList,
    ) -> (found: Result<Vec<&'a Person>, HrError>)
        requires
            self.wf(),
            person_list.wf(),
        ensures
            found is Ok,
            exists|ids: Seq<u64>|
                {
                    &&& enumerates(ids, self@.live_members(department_id@, person_list@))
                    &&& #[trigger] shows_persons(found->Ok_0@, ids, person_list@)
                },
    {
        let mut persons: Vec<&Person> = Vec::new();
        let ghost mut ids: Seq<u64> = Seq::empty();
        let ghost wanted = self@.live_members(department_id@, person_list@);
        let members = match self.list.get(&department_id.value().value()) {
            Some(members) => members,
            None => {
                let found: Result<Vec<&'a Person>, HrError> = Ok(persons);
                proof {
                    assert(ids.to_set() =~= wanted);
                    assert(enumerates(ids, wanted));
                    assert(shows_persons(found->Ok_0@, ids, person_list@));
                }
                return found;
            },
        };
        let ghost keys = members.iter().remaining();
        for person in it: members.iter()
            invariant
                person_list.wf(),
                it.seq() == keys,
                keys.no_duplicates(),
                ids.no_duplicates(),
                shows_persons(persons@, ids, person_list@),
                forall|j: int| 0 <= j < ids.len() ==> seen(keys, it.index(), #[trigger] ids[j]),
                forall|i: int|
                    0 <= i < it.index() && person_list@.is_live(*(#[trigger] keys[i]))
                        ==> ids.contains(*keys[i]),
        {
            let ghost index = it.index();
            let ghost before = ids;
            match person_list.person(PersonId::new(*person)) {
                Ok(found) => {
                    persons.push(found);
                    proof {
                        ids = before.push(*person);
                        assert forall|j: int| 0 <= j < ids.len() implies seen(
                            keys,
                            index + 1,
                            #[trigger] ids[j],
                        ) by {
                            if j < before.len() {
                                assert(seen(keys, index, before[j]));
                                let i = choose|i: int|
                                    0 <= i < index && *(#[trigger] keys[i]) == before[j];
                                assert(*keys[i] == ids[j]);
                            } else {
                                assert(*keys[index] == ids[j]);
                            }
                        }
                        assert(!before.contains(*person)) by {
                            if before.contains(*person) {
                                let j = choose|j: int|
                                    0 <= j < before.len() && before[j] == *person;
                                assert(seen(keys, index, before[j]));
                                let i = choose|i: int|
                                    0 <= i < index && *(#[trigger] keys[i]) == before[j];
                                assert(keys[i] == keys[index]);
                            }
                        }
                        assert forall|i: int|
                            0 <= i < index + 1 && person_list@.is_live(
                                *(#[trigger] keys[i]),
                            ) implies ids.contains(*keys[i]) by {
                            if i < index {
                                let j = choose|j: int|
                                    0 <= j < before.len() && before[j] == *keys[i];
                                assert(ids[j] == *keys[i]);
                            } else {
                                assert(ids[ids.len() - 1] == *keys[i]);
                            }
                        }
                    }
                },
                Err(_) => {},
            }
        }
        proof {
            assert(keys.unref().to_set() == members@);
            assert forall|person: u64| ids.to_set().contains(person) implies wanted.contains(
                person,
            ) by {
                let j = choose|j: int| 0 <= j < ids.len() && ids[j] == person;
                assert(seen(keys, keys.len() as int, ids[j]));
                let i = choose|i: int| 0 <= i < keys.len() && *(#[trigger] keys[i]) == ids[j];
                assert(keys.unref()[i] == person);
                assert(keys.unref().to_set().contains(person));
            }
            assert forall|person: u64| wanted.contains(person) implies ids.to_set().contains(
                person,
            ) by {
                assert(keys.unref().to_set().contains(person));
                let i = choose|i: int| 0 <= i < keys.unref().len() && keys.unref()[i] == person;
                assert(*keys[i] == person);
            }
            assert(ids.to_set() =~= wanted);
        }
        let found: Result<Vec<&'a Person>, HrError> = Ok(persons);
        proof {
            assert(enumerates(ids, wanted));
            assert(shows_persons(found->Ok_0@, ids, person_list@));
        }
        found
    }
    /// The departments to which the person belongs, each once, in no
    /// particular order. Unlike a member that is no live person, a
    /// department of the index that is no live department is an error.
    pub fn department_list_by_person<'a>(
        &self,
        person_id: PersonId,
        department_list: &'a mut DepartmentList,
    ) -> (found: Result<Vec<&'a Department>, HrError>)
        requires
            self.wf(),
            old(department_list).wf(),
        ensures
            *final(department_list) == *old(department_list),
            match found {
                Ok(departments) => {
                    &&& forall|department: u64|
                        self@.has_pair(department, person_id@) ==> old(
                            department_list,
                        )@.is_live(department)
                    &&& exists|ids: Seq<u64>|
                        {
                            &&& enumerates(ids, self@.departments(person_id@))
                            &&& #[trigger] shows_departments(
                                departments@,
                                ids,
                                old(department_list)@,
                            )
                        }
                },
                Err(e) => exists|department: u64|
                    #[trigger] self@.has_pair(department, person_id@) && old(
                        department_list,
                    )@.lookup_fault(department) == Some(e),
            },
    {
        let registry: &'a DepartmentList = department_list;
        let person = person_id.value().value();
        let mut departments: Vec<&Department> = Vec::new();
        let ghost mut ids: Seq<u64> = Seq::empty();
        let ghost wanted = self@.departments(person_id@);
        let ghost entries = self.list.iter().remaining();
        for entry in it: self.list.iter()
            invariant
                registry.wf(),
                *registry == *old(department_list),
                person == person_id@,
                it.seq() == entries,
                entries == self.list.iter().remaining(),
                entries.no_duplicates(),
                ids.no_duplicates(),
                shows_departments(departments@, ids, registry@),
                forall|j: int|
                    0 <= j < ids.len() ==> seen_entry(entries, it.index(), #[trigger] ids[j])
                        && self@.has_pair(ids[j], person),
                forall|i: int|
                    0 <= i < it.index() && self@.has_pair(*(#[trigger] entries[i]).0, person)
                        ==> ids.contains(*entries[i].0),
        {
            let ghost index = it.index();
            let ghost before = ids;
            let ghost department = *entry.0;
            proof {
                assert(self.list@.contains_key(department) && self.list@[department] == *entry.1);
            }
            if entry.1.contains(&person) {
                match registry.department(DepartmentId::new(*entry.0)) {
                    Ok(found) => {
                        departments.push(found);
                        proof {
                            ids = before.push(department);
                            assert forall|j: int| 0 <= j < ids.len() implies seen_entry(
                                entries,
                                index + 1,
                                #[trigger] ids[j],
                            ) && self@.has_pair(ids[j], person) by {
                                if j < before.len() {
                                    assert(seen_entry(entries, index, before[j]));
                                    let i = choose|i: int|
                                        0 <= i < index && *(#[trigger] entries[i]).0 == before[j];
                                    assert(*entries[i].0 == ids[j]);
                                } else {
                                    assert(*entries[index].0 == ids[j]);
                                }
                            }
                            assert(!before.contains(department)) by {
                                if before.contains(department) {
                                    let j = choose|j: int|
                                        0 <= j < before.len() && before[j] == department;
                                    assert(seen_entry(entries, index, before[j]));
                                    let i = choose|i: int|
                                        0 <= i < index && *(#[trigger] entries[i]).0 == before[j];
                                    assert(self.list@[*entries[i].0] == *entries[i].1);
                                    assert(entries[i] == entries[index]);
                                }
                            }
                            assert forall|i: int|
                                0 <= i < index + 1 && self@.has_pair(
                                    *(#[trigger] entries[i]).0,
                                    person,
                                ) implies ids.contains(*entries[i].0) by {
                                if i < index {
                                    let j = choose|j: int|
                                        0 <= j < before.len() && before[j] == *entries[i].0;
                                    assert(ids[j] == *entries[i].0);
                                } else {
                                    assert(ids[ids.len() - 1] == *entries[i].0);
                                }
                            }
                        }
                    },
                    Err(e) => {
                        proof {
                            assert(self@.has_pair(department, person_id@));
                            assert(registry@.lookup_fault(department) == Some(e));
                        }
                        return Err(e);
                    },
                }
            }
        }
        proof {
            assert forall|department: u64|
                ids.to_set().contains(department) implies wanted.contains(department) by {
                let j = choose|j: int| 0 <= j < ids.len() && ids[j] == department;
                assert(self@.has_pair(ids[j], person));
            }
            assert forall|department: u64|
                wanted.contains(department) implies ids.to_set().contains(department) by {
                assert(self.list@.contains_key(department));
                assert(entries.contains((&department, &self.list@[department])));
                let i = choose|i: int|
                    0 <= i < entries.len() && entries[i] == (&department, &self.list@[department]);
                assert(*entries[i].0 == department);
            }
            assert(ids.to_set() =~= wanted);
            assert forall|department: u64|
                self@.has_pair(department, person_id@) implies registry@.is_live(department) by {
                assert(wanted.contains(department));
                let j = choose|j: int| 0 <= j < ids.len() && ids[j] == department;
                assert(registry@.slots.contains_key(ids[j]));
            }
        }
        let found: Result<Vec<&'a Department>, HrError> = Ok(departments);
        proof {
            assert(enumerates(ids, wanted));
            assert(shows_departments(found->Ok_0@, ids, registry@));
        }
        found
    }
    /// The first department with an entry above `after`, with its
    /// members, each once, in no particular order.
    pub fn next_after(&self, after: DepartmentId) -> (found: Option<(DepartmentId, Vec<PersonId>)>)
        requires
            self.wf(),
        ensures
            match found {
                Some((id, members)) => self@.is_next_entry(after@, id@) && enumerates(
                    spec_person_numbers(members@),
                    self@.index[id@],
                ),
                None => self@.no_entry_after(after@),
            },
    {
        let max: u64 = self.max_id.value().value();
        let mut cursor: u64 = after.value().value();
        while cursor < max
            invariant
                self.wf(),
                max == self@.highest,
                after@ <= cursor,
                forall|id: u64| after@ < id <= cursor ==> !self@.index.contains_key(id),
            decreases max - cursor,
        {
            cursor = cursor + 1;
            match self.list.get(&cursor) {
                Some(members) => {
                    return Some((DepartmentId::new(cursor), Self::member_ids(members)));
                },
                None => {},
            }
        }
        None
    }

    /// The departments with an entry, in ascending order, each with its
    /// members, each once, in no particular order.
    pub fn iterate(&self) -> (listing: Vec<(DepartmentId, Vec<PersonId>)>)
        requires
            self.wf(),
        ensures
            self@.lists_entries(spec_listed_departments(listing@)),
            forall|i: int|
                0 <= i < listing.len() ==> enumerates(
                    spec_person_numbers((#[trigger] listing[i]).1@),
                    self@.index[listing[i].0@],
                ),
    {
        let max: u64 = self.max_id.value().value();
        let mut cursor: u64 = 0;
        let mut listing: Vec<(DepartmentId, Vec<PersonId>)> = Vec::new();
        while cursor < max
            invariant
                self.wf(),
                max == self@.highest,
                cursor <= max,
                forall|i: int| 0 <= i < listing.len() ==> (#[trigger] listing[i]).0@ <= cursor,
                forall|i: int, j: int|
                    0 <= i < j < listing.len() ==> (#[trigger] listing[i]).0@ < (
                    #[trigger] listing[j]).0@,
                forall|i: int|
                    0 <= i < listing.len() ==> self@.index.contains_key(
                        (#[trigger] listing[i]).0@,
                    ) && enumerates(
                        spec_person_numbers(listing[i].1@),
                        self@.index[listing[i].0@],
                    ),
                forall|id: u64|
                    id <= cursor && self@.index.contains_key(id) ==> exists|i: int|
                        0 <= i < listing.len() && (#[trigger] listing[i]).0@ == id,
            decreases max - cursor,
        {
            cursor = cursor + 1;
            match self.list.get(&cursor) {
                Some(members) => {
                    let ghost before = listing@;
                    listing.push((DepartmentId::new(cursor), Self::member_ids(members)));
                    proof {
                        assert forall|id: u64|
                            id <= cursor && self@.index.contains_key(id) implies exists|i: int|
                            0 <= i < listing.len() && (#[trigger] listing[i]).0@ == id by {
                            if id == cursor {
                                assert(listing[listing.len() - 1].0@ == id);
                            } else {
                                let i = choose|i: int|
                                    0 <= i < before.len() && (#[trigger] before[i]).0@ == id;
                                assert(listing[i].0@ == id);
                            }
                        }
                    }
                },
                None => {},
            }
        }
        proof {
            let departments = spec_listed_departments(listing@);
            assert forall|id: u64| self@.index.contains_key(id) implies departments.contains(
                id,
            ) by {
                let i = choose|i: int| 0 <= i < listing.len() && (#[trigger] listing[i]).0@ == id;
                assert(departments[i] == id);
            }
        }
        listing
    }
}

} // verus!
