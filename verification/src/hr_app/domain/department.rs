pub mod id;
pub mod list;
pub mod name;

use crate::hr_app::error::HrError;
use name::DepartmentName;
use vstd::prelude::*;

verus! {

/// A department. Its name is all that is recorded of it.
pub struct Department {
    name: DepartmentName,
}

impl View for Department {
    type V = Seq<char>;

    closed spec fn view(&self) -> Seq<char> {
        self.name@
    }
}

impl Department {
    /// The name is within the bounds of a department name.
    pub closed spec fn wf(&self) -> bool {
        self.name.wf()
    }

    /// A department called `name`; the name must have between 1 and 100
    /// characters.
    pub fn new(name: &str) -> (made: Result<Department, HrError>)
        ensures
            match made {
                Ok(d) => name::department_name_fault(name@) is None && d@ == name@ && d.wf(),
                Err(e) => {
                    &&& name::department_name_fault(name@) matches Some(fault)
                    &&& e == HrError::ValidationError(fault)
                },
            },
    {
        match DepartmentName::new(name) {
            Ok(name) => Ok(Department { name }),
            Err(e) => Err(e),
        }
    }

    /// The name of the department.
    pub fn name(&self) -> (text: String)
        ensures
            text@ == self@,
    {
        self.name.value()
    }

    /// A well-formed department has a name that its bounds accept.
    pub proof fn law_name_within_bounds(&self)
        requires
            self.wf(),
        ensures
            name::department_name_fault(self@) is None,
    {
        self.name.law_name_within_bounds();
    }
}

} // verus!
