use crate::hr_app::domain::name_type::{name_fault, NameType};
use crate::hr_app::error::{HrError, NameFault};
use vstd::prelude::*;

verus! {

/// The shortest department name, in characters.
pub const DEPARTMENT_NAME_MIN_LENGTH: u8 = 1;

/// The longest department name, in characters.
pub const DEPARTMENT_NAME_MAX_LENGTH: u8 = 100;

/// Why `name` is refused as a department name, or `None` where it is accepted.
pub open spec fn department_name_fault(name: Seq<char>) -> Option<NameFault> {
    name_fault(name.len(), DEPARTMENT_NAME_MIN_LENGTH, DEPARTMENT_NAME_MAX_LENGTH)
}

/// The name of a department.
pub struct DepartmentName {
    name: NameType,
}

impl View for DepartmentName {
    type V = Seq<char>;

    closed spec fn view(&self) -> Seq<char> {
        self.name@
    }
}

impl DepartmentName {
    /// The name is within the bounds of a department name.
    pub closed spec fn wf(&self) -> bool {
        &&& self.name.wf()
        &&& self.name.min_length() == DEPARTMENT_NAME_MIN_LENGTH
        &&& self.name.max_length() == DEPARTMENT_NAME_MAX_LENGTH
    }

    /// A department name; it must have between 1 and 100 characters.
    pub fn new(name: &str) -> (made: Result<DepartmentName, HrError>)
        ensures
            match made {
                Ok(n) => department_name_fault(name@) is None && n@ == name@ && n.wf(),
                Err(e) => {
                    &&& department_name_fault(name@) matches Some(fault)
                    &&& e == HrError::ValidationError(fault)
                },
            },
    {
        match NameType::new(name, DEPARTMENT_NAME_MIN_LENGTH, DEPARTMENT_NAME_MAX_LENGTH) {
            Ok(name) => Ok(DepartmentName { name }),
            Err(e) => Err(e),
        }
    }

    /// The name as an owned text, for display.
    pub fn value(&self) -> (text: String)
        ensures
            text@ == self@,
    {
        self.name.value().to_owned()
    }

    /// A well-formed name is one that its bounds accept.
    pub proof fn law_name_within_bounds(&self)
        requires
            self.wf(),
        ensures
            department_name_fault(self@) is None,
    {
    }
}

} // verus!
