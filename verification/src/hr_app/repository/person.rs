use crate::hr_app::domain::person::list::PersonList;
use crate::hr_app::error::HrError;
use vstd::prelude::*;

verus! {

/// A store that keeps the persons between two sessions.
pub trait PersonRepository {
    /// Brings every stored person into `person_list`. A store that does
    /// not exist yet holds nothing.
    fn read_all_data(&self, person_list: &mut PersonList) -> Result<(), HrError>;

    /// Replaces what the store holds by the live persons of `person_list`.
    fn overwrite_all_data(&self, person_list: &mut PersonList) -> Result<(), HrError>;
}

} // verus!
