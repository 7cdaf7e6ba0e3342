pub mod id;
pub mod list;
pub mod name;

use crate::hr_app::error::HrError;
use name::{PersonName, PersonNameView};
use vstd::prelude::*;

verus! {

/// A person. The name is all that is recorded of one.
pub struct Person {
    name: PersonName,
}

impl View for Person {
    type V = PersonNameView;

    closed spec fn view(&self) -> PersonNameView {
        self.name@
    }
}

impl Person {
    /// Both parts of the name are within the bounds of a person's name.
    pub closed spec fn wf(&self) -> bool {
        self.name.wf()
    }

    /// A person with a last name and, where one is known, a first name; each
    /// must have between 1 and 60 characters.
    pub fn new(last_name: &str, first_name: Option<&str>) -> (made: Result<Person, HrError>)
        ensures
            match made {
                Ok(p) => {
                    &&& name::person_name_fault(name::spec_parts(last_name, first_name)) is None
                    &&& p@ == name::spec_parts(last_name, first_name)
                    &&& p.wf()
                },
                Err(e) => {
                    &&& name::person_name_fault(name::spec_parts(last_name, first_name))
                        matches Some(fault)
                    &&& e == HrError::ValidationError(fault)
                },
            },
    {
        match PersonName::new(last_name, first_name) {
            Ok(name) => Ok(Person { name }),
            Err(e) => Err(e),
        }
    }

    /// The name as it is displayed.
    pub fn name(&self) -> (text: String)
        ensures
            text@ == self@.display(),
    {
        self.name.value()
    }

    /// A well-formed person has a name that its bounds accept.
    pub proof fn law_name_within_bounds(&self)
        requires
            self.wf(),
        ensures
            name::person_name_fault(self@) is None,
    {
        self.name.law_name_within_bounds();
    }
}

} // verus!
