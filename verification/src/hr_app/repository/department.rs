use crate::hr_app::domain::department::list::DepartmentList;
use crate::hr_app::error::HrError;
use vstd::prelude::*;

verus! {

/// A store that keeps the departments between two sessions.
pub trait DepartmentRepository {
    /// Brings every stored department into `department_list`. A store
    /// that does not exist yet holds nothing.
    fn read_all_data(&self, department_list: &mut DepartmentList) -> Result<(), HrError>;

    /// Replaces what the store holds by the live departments of
    /// `department_list`.
    fn overwrite_all_data(&self, department_list: &mut DepartmentList) -> Result<(), HrError>;
}

} // verus!
