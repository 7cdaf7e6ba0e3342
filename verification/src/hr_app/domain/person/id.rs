use crate::hr_app::domain::id_type::Id;
use crate::hr_app::text::decimal::decimal;
use vstd::prelude::*;

verus! {

/// The identifier of a person.
#[derive(PartialEq, Eq, Structural, Hash, Copy, Clone, Debug)]
pub struct PersonId {
    value: Id,
}

impl View for PersonId {
    type V = u64;

    closed spec fn view(&self) -> u64 {
        self.value@
    }
}

impl PersonId {
    /// The identifier with the number `value`.
    pub fn new(value: u64) -> (id: PersonId)
        ensures
            id@ == value,
    {
        PersonId { value: Id::new(value) }
    }

    /// The identifier that follows this one.
    pub fn next_id(&self) -> (next: PersonId)
        requires
            self@ < u64::MAX,
        ensures
            next@ == self@ + 1,
    {
        PersonId { value: self.value.next_id() }
    }

    /// The identifier without its kind.
    pub fn value(&self) -> (value: Id)
        ensures
            value@ == self@,
    {
        self.value
    }

    /// Whether this identifier is strictly greater than `another_id`.
    pub fn greater_than(&self, another_id: PersonId) -> (greater: bool)
        ensures
            greater == (self@ > another_id@),
    {
        self.value.greater_than(another_id.value())
    }

    /// The identifier in decimal notation, for display.
    pub fn to_string(&self) -> (text: String)
        ensures
            text@ == decimal(self@ as nat),
    {
        self.value.to_string()
    }

    /// Two identifiers with the same number are the same identifier.
    pub proof fn law_number_determines_id(a: PersonId, b: PersonId)
        ensures
            a@ == b@ <==> a == b,
    {
        Id::law_number_determines_id(a.value, b.value);
    }
}

} // verus!
