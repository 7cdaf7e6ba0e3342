use crate::hr_app::domain::department::list::DepartmentList;
use crate::hr_app::domain::member::MemberList;
use crate::hr_app::domain::person::list::PersonList;
use crate::hr_app::error::HrError;
use vstd::prelude::*;

verus! {

/// A store that keeps the memberships between two sessions.
pub trait MemberRepository {
    /// Brings every stored membership into `member_list`. The persons and
    /// the departments must have been brought in before. A store that
    /// does not exist yet holds nothing.
    fn read_all_data(
        &self,
        member_list: &mut MemberList,
        person_list: &PersonList,
        department_list: &DepartmentList,
    ) -> Result<(), HrError>;

    /// Replaces what the store holds by the memberships of `member_list`.
    fn overwrite_all_data(&self, member_list: &mut MemberList) -> Result<(), HrError>;
}

} // verus!
