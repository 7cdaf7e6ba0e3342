use super::id::PersonId;
use super::name::PersonNameView;
use super::Person;
use crate::hr_app::domain::registry::RegistryView;
use crate::hr_app::error::HrError;
use std::collections::HashMap;
use vstd::prelude::*;

verus! {

broadcast use vstd::std_specs::hash::group_hash_axioms;

/// The names held in a table of persons, slot by slot.
pub open spec fn spec_names(table: Map<u64, Option<Person>>) -> Map<u64, Option<PersonNameView>> {
    Map::new(
        |id: u64| table.contains_key(id),
        |id: u64|
            match table[id] {
                Some(person) => Some(person@),
                None => None,
            },
    )
}

/// Why the creation of a person under `id` is refused, or `None` where it
/// is accepted: an identifier that was ever assigned is refused.
pub open spec fn add_fault(registry: RegistryView<PersonNameView>, id: Option<u64>) -> Option<
    HrError,
> {
    if id is Some && registry.slots.contains_key(id->0) {
        Some(HrError::DuplicateId)
    } else {
        None
    }
}

/// The identifiers of a listing, in its order.
pub open spec fn spec_listed_ids(listing: Seq<(PersonId, String)>) -> Seq<u64> {
    Seq::new(listing.len(), |i: int| listing[i].0@)
}

/// `name` is the displayed name of the live person `id` of `registry`.
pub open spec fn person_named(
    registry: RegistryView<PersonNameView>,
    id: u64,
    name: Seq<char>,
) -> bool {
    registry.lookup(id) matches Ok(person) && name == person.display()
}

/// `listing` holds the live persons of `registry` with their displayed
/// names, in ascending order of identifier.
pub open spec fn lists_persons(
    listing: Seq<(PersonId, String)>,
    registry: RegistryView<PersonNameView>,
) -> bool {
    &&& registry.lists_live_ids(spec_listed_ids(listing))
    &&& forall|i: int|
        0 <= i < listing.len() ==> person_named(
            registry,
            (#[trigger] listing[i]).0@,
            listing[i].1@,
        )
}

/// The number of an optional identifier.
pub open spec fn spec_id_number(id: Option<PersonId>) -> Option<u64> {
    match id {
        Some(id) => Some(id@),
        None => None,
    }
}

/// The registry of persons.
pub struct PersonList {
    max_id: PersonId,
    person_list: HashMap<u64, Option<Person>>,
}

impl View for PersonList {
    type V = RegistryView<PersonNameView>;

    closed spec fn view(&self) -> RegistryView<PersonNameView> {
        RegistryView { highest: self.max_id@, slots: spec_names(self.person_list@) }
    }
}

impl PersonList {
    /// Every live person has a name within its bounds.
    pub closed spec fn names_wf(&self) -> bool {
        forall|id: u64| #[trigger]
            self.person_list@.contains_key(id) ==> (self.person_list@[id] matches Some(person)
                ==> person.wf())
    }

    /// The registry is well-formed and every live person has a name
    /// within its bounds.
    pub open spec fn wf(&self) -> bool {
        &&& self@.wf()
        &&& self.names_wf()
    }

    /// The registry in which no person was created yet.
    pub fn new() -> (list: PersonList)
        ensures
            list.wf(),
            list@ == RegistryView::<PersonNameView>::empty(),
    {
        let max_id = PersonId::new(0);
        let mut list: HashMap<u64, Option<Person>> = HashMap::new();
        list.insert(0, None);
        let made = PersonList { max_id, person_list: list };
        assert(made@.slots =~= RegistryView::<PersonNameView>::empty().slots);
        made
    }

    /// The highest identifier ever assigned.
    pub fn max_id(&self) -> (highest: PersonId)
        ensures
            highest@ == self@.highest,
    {
        self.max_id
    }

    /// Adds `person` under `id`, or under the identifier after the highest
    /// where none is given.
    pub fn add_person(&mut self, person: Person, id: Option<PersonId>) -> (added: Result<
        (),
        HrError,
    >)
        requires
            old(self).wf(),
            person.wf(),
            id is None ==> old(self)@.highest < u64::MAX,
        ensures
            final(self).wf(),
            match add_fault(old(self)@, spec_id_number(id)) {
                Some(e) => added == Err::<(), HrError>(e) && final(self)@ == old(self)@,
                None => added is Ok && final(self)@ == old(self)@.create(
                    person@,
                    spec_id_number(id),
                ),
            },
    {
        let target = match id {
            Some(id) => {
                if self.person_list.contains_key(&id.value().value()) {
                    return Err(HrError::DuplicateId);
                }
                id
            },
            None => self.max_id.next_id(),
        };
        self.person_list.insert(target.value().value(), Some(person));
        if target.greater_than(self.max_id) {
            self.max_id = target;
        }
        proof {
            let after = old(self)@.create(person@, spec_id_number(id));
            assert(self@.slots =~= after.slots);
        }
        Ok(())
    }

    /// Retires `person_id`: the identifier stays, the person goes.
    pub fn delete_person(&mut self, person_id: PersonId) -> (deleted: Result<(), HrError>)
        requires
            old(self).wf(),
        ensures
            final(self).wf(),
            match old(self)@.lookup(person_id@) {
                Ok(_) => deleted is Ok && final(self)@ == old(self)@.delete(person_id@),
                Err(e) => deleted == Err::<(), HrError>(e) && final(self)@ == old(self)@,
            },
    {
        let key = person_id.value().value();
        match self.person_list.get(&key) {
            Some(Some(_)) => {},
            Some(None) => {
                return Err(HrError::AlreadyDeleted);
            },
            None => {
                return Err(HrError::NotFound);
            },
        }
        self.person_list.insert(key, None);
        proof {
            let after = old(self)@.delete(person_id@);
            assert(self@.slots =~= after.slots);
        }
        Ok(())
    }

    /// The person that `person_id` denotes.
    pub fn person(&self, person_id: PersonId) -> (found: Result<&Person, HrError>)
        requires
            self.wf(),
        ensures
            match found {
                Ok(person) => self@.lookup(person_id@) == Ok::<PersonNameView, HrError>(person@)
                    && person.wf(),
                Err(e) => self@.lookup(person_id@) == Err::<PersonNameView, HrError>(e),
            },
    {
        match self.person_list.get(&person_id.value().value()) {
            Some(Some(person)) => Ok(person),
            Some(None) => Err(HrError::AlreadyDeleted),
            None => Err(HrError::NotFound),
        }
    }

    /// The first live person above `after`, with the displayed name.
    pub fn next_after(&self, after: PersonId) -> (found: Option<(PersonId, String)>)
        requires
            self.wf(),
        ensures
            match found {
                Some((id, name)) => self@.is_next_live(after@, id@) && person_named(
                    self@,
                    id@,
                    name@,
                ),
                None => self@.none_live_after(after@),
            },
    {
        let max: u64 = self.max_id.value().value();
        let mut cursor: u64 = after.value().value();
        while cursor < max
            invariant
                self.wf(),
                max == self@.highest,
                after@ <= cursor,
                forall|id: u64| after@ < id <= cursor ==> !self@.is_live(id),
            decreases max - cursor,
        {
            cursor = cursor + 1;
            match self.person_list.get(&cursor) {
                Some(Some(person)) => {
                    return Some((PersonId::new(cursor), person.name()));
                },
                _ => {},
            }
        }
        None
    }

    /// The live persons with their displayed names, in ascending order of
    /// identifier.
    pub fn iterate(&self) -> (listing: Vec<(PersonId, String)>)
        requires
            self.wf(),
        ensures
            lists_persons(listing@, self@),
    {
        let max: u64 = self.max_id.value().value();
        let mut cursor: u64 = 0;
        let mut listing: Vec<(PersonId, String)> = Vec::new();
        while cursor < max
            invariant
                self.wf(),
                max == self@.highest,
                cursor <= max,
                forall|i: int| 0 <= i < listing.len() ==> (#[trigger] listing[i]).0@ <= cursor,
                forall|i: int, j: int|
                    0 <= i < j < listing.len() ==> (#[trigger] listing[i]).0@ < (
                    #[trigger] listing[j]).0@,
                forall|i: int|
                    0 <= i < listing.len() ==> self@.is_live((#[trigger] listing[i]).0@) && (
                    self@.slots[listing[i].0@] matches Some(person) && listing[i].1@
                        == person.display()),
                forall|id: u64|
                    id <= cursor && self@.is_live(id) ==> exists|i: int|
                        0 <= i < listing.len() && (#[trigger] listing[i]).0@ == id,
            decreases max - cursor,
        {
            cursor = cursor + 1;
            match self.person_list.get(&cursor) {
                Some(Some(person)) => {
                    let ghost before = listing@;
                    listing.push((PersonId::new(cursor), person.name()));
                    proof {
                        assert forall|id: u64| id <= cursor && self@.is_live(id) implies exists|
                            i: int,
                        |
                            0 <= i < listing.len() && (#[trigger] listing[i]).0@ == id by {
                            if id == cursor {
                                assert(listing[listing.len() - 1].0@ == id);
                            } else {
                                let i = choose|i: int|
                                    0 <= i < before.len() && (#[trigger] before[i]).0@ == id;
                                assert(listing[i].0@ == id);
                            }
                        }
                    }
                },
                _ => {},
            }
        }
        proof {
            let ids = spec_listed_ids(listing@);
            assert forall|id: u64| self@.is_live(id) implies ids.contains(id) by {
                let i = choose|i: int| 0 <= i < listing.len() && (#[trigger] listing[i]).0@ == id;
                assert(ids[i] == id);
            }
        }
        listing
    }
}

} // verus!
