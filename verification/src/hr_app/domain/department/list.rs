use super::id::DepartmentId;
use super::Department;
use crate::hr_app::domain::registry::RegistryView;
use crate::hr_app::error::HrError;
use std::collections::HashMap;
use vstd::prelude::*;
use vstd::std_specs::iter::IteratorSpec;

verus! {

broadcast use vstd::std_specs::hash::group_hash_axioms;

/// The names held in a table of departments, slot by slot.
pub open spec fn spec_names(table: Map<u64, Option<Department>>) -> Map<u64, Option<Seq<char>>> {
    Map::new(
        |id: u64| table.contains_key(id),
        |id: u64|
            match table[id] {
                Some(department) => Some(department@),
                None => None,
            },
    )
}

/// The slot holds a department called `name`.
pub open spec fn slot_named(slot: Option<Department>, name: Seq<char>) -> bool {
    slot matches Some(department) && department@ == name
}

/// A live department of `registry` is called `name`.
pub open spec fn name_taken(registry: RegistryView<Seq<char>>, name: Seq<char>) -> bool {
    exists|id: u64| #[trigger] registry.is_live(id) && registry.slots[id] == Some(name)
}

/// No two live departments of `registry` share a name.
pub open spec fn unique_names(registry: RegistryView<Seq<char>>) -> bool {
    forall|a: u64, b: u64|
        #![trigger registry.is_live(a), registry.is_live(b)]
        registry.is_live(a) && registry.is_live(b) && a != b ==> registry.slots[a]
            != registry.slots[b]
}

/// Why the creation of a department called `name` under `id` is refused,
/// or `None` where it is accepted. An identifier that was ever assigned
/// is refused before the name is looked at.
pub open spec fn add_fault(
    registry: RegistryView<Seq<char>>,
    name: Seq<char>,
    id: Option<u64>,
) -> Option<HrError> {
    if id is Some && registry.slots.contains_key(id->0) {
        Some(HrError::DuplicateId)
    } else if name_taken(registry, name) {
        Some(HrError::DuplicateName)
    } else {
        None
    }
}

/// Names are unique among the live departments only: once a department
/// is retired, a new department may take its name, under the next
/// identifier or under one that was never assigned.
pub proof fn law_name_free_after_delete(
    registry: RegistryView<Seq<char>>,
    retired: u64,
    id: Option<u64>,
)
    requires
        registry.wf(),
        unique_names(registry),
        registry.is_live(retired),
        id is Some ==> !registry.slots.contains_key(id->0),
    ensures
        name_taken(registry, registry.slots[retired]->0),
        !name_taken(registry.delete(retired), registry.slots[retired]->0),
        add_fault(registry.delete(retired), registry.slots[retired]->0, id) is None,
{
    let after = registry.delete(retired);
    let name = registry.slots[retired]->0;
    if name_taken(after, name) {
        let other = choose|other: u64| #[trigger]
            after.is_live(other) && after.slots[other] == Some(name);
        assert(registry.is_live(other) && registry.is_live(retired));
    }
}

/// Creating and retiring departments keep the registry well-formed and
/// the names of the live departments distinct.
pub proof fn law_names_stay_unique(
    registry: RegistryView<Seq<char>>,
    name: Seq<char>,
    id: Option<u64>,
    retired: u64,
)
    requires
        registry.wf(),
        unique_names(registry),
    ensures
        add_fault(registry, name, id) is None && (id is None ==> registry.highest < u64::MAX) ==> {
            &&& registry.create(name, id).wf()
            &&& unique_names(registry.create(name, id))
        },
        registry.is_live(retired) ==> {
            &&& registry.delete(retired).wf()
            &&& unique_names(registry.delete(retired))
        },
{
    if add_fault(registry, name, id) is None && (id is None ==> registry.highest < u64::MAX) {
        let after = registry.create(name, id);
        let target = registry.target_id(id);
        assert forall|a: u64, b: u64|
            #![trigger after.is_live(a), after.is_live(b)]
            after.is_live(a) && after.is_live(b) && a != b implies after.slots[a]
            != after.slots[b] by {
            if a != target {
                assert(registry.is_live(a));
            }
            if b != target {
                assert(registry.is_live(b));
            }
        }
    }
    if registry.is_live(retired) {
        let after = registry.delete(retired);
        assert forall|a: u64, b: u64|
            #![trigger after.is_live(a), after.is_live(b)]
            after.is_live(a) && after.is_live(b) && a != b implies after.slots[a]
            != after.slots[b] by {
            assert(registry.is_live(a));
            assert(registry.is_live(b));
        }
    }
}

/// The registry of departments.
pub struct DepartmentList {
    max_id: DepartmentId,
    department_list: HashMap<u64, Option<Department>>,
}

impl View for DepartmentList {
    type V = RegistryView<Seq<char>>;

    closed spec fn view(&self) -> RegistryView<Seq<char>> {
        RegistryView { highest: self.max_id@, slots: spec_names(self.department_list@) }
    }
}

/// The identifiers of a listing, in its order.
pub open spec fn spec_listed_ids(listing: Seq<(DepartmentId, String)>) -> Seq<u64> {
    Seq::new(listing.len(), |i: int| listing[i].0@)
}

/// `listing` holds the live departments of `registry` with their names,
/// in ascending order of identifier.
pub open spec fn lists_departments(
    listing: Seq<(DepartmentId, String)>,
    registry: RegistryView<Seq<char>>,
) -> bool {
    &&& registry.lists_live_ids(spec_listed_ids(listing))
    &&& forall|i: int|
        0 <= i < listing.len() ==> registry.slots[(#[trigger] listing[i]).0@] == Some(
            listing[i].1@,
        )
}

/// The number of an optional identifier.
pub open spec fn spec_id_number(id: Option<DepartmentId>) -> Option<u64> {
    match id {
        Some(id) => Some(id@),
        None => None,
    }
}

impl DepartmentList {
    /// Every live department has a name within its bounds.
    pub closed spec fn names_wf(&self) -> bool {
        forall|id: u64| #[trigger]
            self.department_list@.contains_key(id) ==> (self.department_list@[id] matches Some(
                department,
            ) ==> department.wf())
    }

    /// The registry is well-formed, no two live departments share a name,
    /// and every live department has a name within its bounds.
    pub open spec fn wf(&self) -> bool {
        &&& self@.wf()
        &&& unique_names(self@)
        &&& self.names_wf()
    }

    /// The registry in which no department was created yet.
    pub fn new() -> (list: DepartmentList)
        ensures
            list.wf(),
            list@ == RegistryView::<Seq<char>>::empty(),
    {
        let max_id = DepartmentId::new(0);
        let mut list: HashMap<u64, Option<Department>> = HashMap::new();
        list.insert(0, None);
        let made = DepartmentList { max_id, department_list: list };
        assert(made@.slots =~= RegistryView::<Seq<char>>::empty().slots);
        made
    }

    /// The highest identifier ever assigned.
    pub fn max_id(&self) -> (highest: DepartmentId)
        ensures
            highest@ == self@.highest,
    {
        self.max_id
    }

    /// Adds `department` under `id`, or under the identifier after the
    /// highest where none is given.
    pub fn add_department(&mut self, department: Department, id: Option<DepartmentId>) -> (added:
        Result<(), HrError>)
        requires
            old(self).wf(),
            department.wf(),
            id is None ==> old(self)@.highest < u64::MAX,
        ensures
            final(self).wf(),
            match add_fault(old(self)@, department@, spec_id_number(id)) {
                Some(e) => added == Err::<(), HrError>(e) && final(self)@ == old(self)@,
                None => added is Ok && final(self)@ == old(self)@.create(
                    department@,
                    spec_id_number(id),
                ),
            },
    {
        match id {
            Some(id) => {
                if self.department_list.contains_key(&id.value().value()) {
                    return Err(HrError::DuplicateId);
                }
            },
            None => {},
        }
        let new_department_name = department.name();
        if self.has_name(&new_department_name) {
            return Err(HrError::DuplicateName);
        }
        let target = match id {
            Some(id) => id,
            None => self.max_id.next_id(),
        };
        self.department_list.insert(target.value().value(), Some(department));
        if target.greater_than(self.max_id) {
            self.max_id = target;
        }
        proof {
            let after = old(self)@.create(department@, spec_id_number(id));
            assert(self@.slots =~= after.slots);
            law_names_stay_unique(old(self)@, department@, spec_id_number(id), 0);
        }
        Ok(())
    }

    /// Retires `department_id`: the identifier stays, the department goes.
    pub fn delete_department(&mut self, department_id: DepartmentId) -> (deleted: Result<
        (),
        HrError,
    >)
        requires
            old(self).wf(),
        ensures
            final(self).wf(),
            match old(self)@.lookup(department_id@) {
                Ok(_) => deleted is Ok && final(self)@ == old(self)@.delete(department_id@),
                Err(e) => deleted == Err::<(), HrError>(e) && final(self)@ == old(self)@,
            },
    {
        let key = department_id.value().value();
        match self.department_list.get(&key) {
            Some(Some(_)) => {},
            Some(None) => {
                return Err(HrError::AlreadyDeleted);
            },
            None => {
                return Err(HrError::NotFound);
            },
        }
        self.department_list.insert(key, None);
        proof {
            let after = old(self)@.delete(department_id@);
            assert(self@.slots =~= after.slots);
            law_names_stay_unique(old(self)@, Seq::empty(), None, department_id@);
        }
        Ok(())
    }

    /// The department that `department_id` denotes.
    pub fn department(&self, department_id: DepartmentId) -> (found: Result<&Department, HrError>)
        requires
            self.wf(),
        ensures
            match found {
                Ok(department) => self@.lookup(department_id@) == Ok::<Seq<char>, HrError>(
                    department@,
                ) && department.wf(),
                Err(e) => self@.lookup(department_id@) == Err::<Seq<char>, HrError>(e),
            },
    {
        match self.department_list.get(&department_id.value().value()) {
            Some(Some(department)) => Ok(department),
            Some(None) => Err(HrError::AlreadyDeleted),
            None => Err(HrError::NotFound),
        }
    }

    /// The first live department above `after`, with its name.
    pub fn next_after(&self, after: DepartmentId) -> (found: Option<(DepartmentId, String)>)
        requires
            self.wf(),
        ensures
            match found {
                Some((id, name)) => self@.is_next_live(after@, id@) && self@.slots[id@] == Some(
                    name@,
                ),
                None => self@.none_live_after(after@),
            },
    {
        let max: u64 = self.max_id.value().value();
        let mut cursor: u64 = after.value().value();
        while cursor < max
            invariant
                self.wf(),
                max == self@.highest,
                after@ <= cursor,
                forall|id: u64| after@ < id <= cursor ==> !self@.is_live(id),
            decreases max - cursor,
        {
            cursor = cursor + 1;
            match self.department_list.get(&cursor) {
                Some(Some(department)) => {
                    return Some((DepartmentId::new(cursor), department.name()));
                },
                _ => {},
            }
        }
        None
    }

    /// The live departments with their names, in ascending order of
    /// identifier.
    pub fn iterate(&self) -> (listing: Vec<(DepartmentId, String)>)
        requires
            self.wf(),
        ensures
            lists_departments(listing@, self@),
    {
        let max: u64 = self.max_id.value().value();
        let mut cursor: u64 = 0;
        let mut listing: Vec<(DepartmentId, String)> = Vec::new();
        while cursor < max
            invariant
                self.wf(),
                max == self@.highest,
                cursor <= max,
                forall|i: int| 0 <= i < listing.len() ==> (#[trigger] listing[i]).0@ <= cursor,
                forall|i: int, j: int|
                    0 <= i < j < listing.len() ==> (#[trigger] listing[i]).0@ < (
                    #[trigger] listing[j]).0@,
                forall|i: int|
                    0 <= i < listing.len() ==> self@.is_live((#[trigger] listing[i]).0@)
                        && self@.slots[listing[i].0@] == Some(listing[i].1@),
                forall|id: u64|
                    id <= cursor && self@.is_live(id) ==> exists|i: int|
                        0 <= i < listing.len() && (#[trigger] listing[i]).0@ == id,
            decreases max - cursor,
        {
            cursor = cursor + 1;
            match self.department_list.get(&cursor) {
                Some(Some(department)) => {
                    let ghost before = listing@;
                    listing.push((DepartmentId::new(cursor), department.name()));
                    proof {
                        assert forall|id: u64| id <= cursor && self@.is_live(id) implies exists|
                            i: int,
                        |
                            0 <= i < listing.len() && (#[trigger] listing[i]).0@ == id by {
                            if id == cursor {
                                assert(listing[listing.len() - 1].0@ == id);
                            } else {
                                let i = choose|i: int|
                                    0 <= i < before.len() && (#[trigger] before[i]).0@ == id;
                                assert(listing[i].0@ == id);
                            }
                        }
                    }
                },
                _ => {},
            }
        }
        proof {
            let ids = spec_listed_ids(listing@);
            assert forall|id: u64| self@.is_live(id) implies ids.contains(id) by {
                let i = choose|i: int| 0 <= i < listing.len() && (#[trigger] listing[i]).0@ == id;
                assert(ids[i] == id);
            }
        }
        listing
    }

    /// Whether a live department is called `name`.
    fn has_name(&self, name: &String) -> (taken: bool)
        ensures
            taken == name_taken(self@, name@),
    {
        let ghost entries = self.department_list.iter().remaining();
        let mut taken = false;
        for entry in it: self.department_list.iter()
            invariant
                it.seq() == entries,
                taken == exists|i: int|
                    0 <= i < it.index() && slot_named(*(#[trigger] entries[i]).1, name@),
        {
            match entry.1 {
                Some(department) => {
                    if department.name() == *name {
                        taken = true;
                    }
                },
                None => {},
            }
        }
        proof {
            let table = self.department_list@;
            if taken {
                let i = choose|i: int|
                    0 <= i < entries.len() && slot_named(*(#[trigger] entries[i]).1, name@);
                let id = *entries[i].0;
                assert(table.contains_key(id) && table[id] == *entries[i].1);
                assert(self@.is_live(id) && self@.slots[id] == Some(name@));
            }
            if name_taken(self@, name@) {
                let id = choose|id: u64| #[trigger]
                    self@.is_live(id) && self@.slots[id] == Some(name@);
                assert(table.contains_key(id));
                assert(entries.contains((&id, &table[id])));
                let i = choose|i: int| 0 <= i < entries.len() && entries[i] == (&id, &table[id]);
                assert(slot_named(*entries[i].1, name@));
            }
        }
        taken
    }
}

} // verus!
