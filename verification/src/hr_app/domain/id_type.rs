use crate::hr_app::text::decimal::{decimal, render_decimal};
use vstd::prelude::*;

verus! {

/// An unsigned integer identifier.
#[derive(PartialEq, Eq, Structural, Hash, Copy, Clone, Debug)]
pub struct Id {
    value: u64,
}

impl View for Id {
    type V = u64;

    closed spec fn view(&self) -> u64 {
        self.value
    }
}

impl Id {
    /// The identifier with the number `value`.
    pub fn new(value: u64) -> (id: Id)
        ensures
            id@ == value,
    {
        Id { value }
    }

    /// The identifier that follows this one.
    pub fn next_id(&self) -> (next: Id)
        requires
            self@ < u64::MAX,
        ensures
            next@ == self@ + 1,
    {
        Id { value: self.value + 1 }
    }

    /// The number of the identifier.
    pub fn value(&self) -> (value: u64)
        ensures
            value == self@,
    {
        self.value
    }

    /// Whether this identifier is strictly greater than `another_id`.
    pub fn greater_than(&self, another_id: Id) -> (greater: bool)
        ensures
            greater == (self@ > another_id@),
    {
        self.value > another_id.value()
    }

    /// The identifier in decimal notation, for display.
    pub fn to_string(&self) -> (text: String)
        ensures
            text@ == decimal(self@ as nat),
    {
        render_decimal(self.value)
    }

    /// Two identifiers with the same number are the same identifier.
    pub proof fn law_number_determines_id(a: Id, b: Id)
        ensures
            a@ == b@ <==> a == b,
    {
    }
}

} // verus!
