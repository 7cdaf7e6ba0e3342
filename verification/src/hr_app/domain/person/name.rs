use crate::hr_app::domain::name_type::{name_fault, NameType};
use crate::hr_app::error::{HrError, NameFault};
use vstd::prelude::*;
use vstd::string::StringExecFns;

verus! {

/// The shortest part of a person's name, in characters.
pub const PERSON_NAME_MIN_LENGTH: u8 = 1;

/// The longest part of a person's name, in characters.
pub const PERSON_NAME_MAX_LENGTH: u8 = 60;

/// A person's name as plain texts: a last name, and a first name if one is
/// known.
pub struct PersonNameView {
    pub last_name: Seq<char>,
    pub first_name: Option<Seq<char>>,
}

impl PersonNameView {
    /// The displayed form: the last name alone, or the last name, one
    /// space and the first name.
    pub open spec fn display(self) -> Seq<char> {
        match self.first_name {
            Some(first_name) => self.last_name + seq![' '] + first_name,
            None => self.last_name,
        }
    }
}

/// The two parts of a name as they are handed to a constructor.
pub open spec fn spec_parts(last_name: &str, first_name: Option<&str>) -> PersonNameView {
    PersonNameView {
        last_name: last_name@,
        first_name: match first_name {
            Some(first_name) => Some(first_name@),
            None => None,
        },
    }
}

/// Why one part of a person's name is refused, or `None` where it is accepted.
pub open spec fn name_part_fault(part: Seq<char>) -> Option<NameFault> {
    name_fault(part.len(), PERSON_NAME_MIN_LENGTH, PERSON_NAME_MAX_LENGTH)
}

/// Why a person's name is refused, or `None` where it is accepted. The last
/// name is judged first.
pub open spec fn person_name_fault(name: PersonNameView) -> Option<NameFault> {
    if name_part_fault(name.last_name) is Some {
        name_part_fault(name.last_name)
    } else {
        match name.first_name {
            Some(first_name) => name_part_fault(first_name),
            None => None,
        }
    }
}

/// The name of a person: a last name and an optional first name.
pub struct PersonName {
    last_name: NameType,
    first_name: Option<NameType>,
}

impl View for PersonName {
    type V = PersonNameView;

    closed spec fn view(&self) -> PersonNameView {
        PersonNameView {
            last_name: self.last_name@,
            first_name: match self.first_name {
                Some(first_name) => Some(first_name@),
                None => None,
            },
        }
    }
}

impl PersonName {
    /// Both parts are within the bounds of a part of a name.
    pub closed spec fn wf(&self) -> bool {
        &&& self.last_name.wf()
        &&& self.last_name.min_length() == PERSON_NAME_MIN_LENGTH
        &&& self.last_name.max_length() == PERSON_NAME_MAX_LENGTH
        &&& self.first_name matches Some(first_name) ==> {
            &&& first_name.wf()
            &&& first_name.min_length() == PERSON_NAME_MIN_LENGTH
            &&& first_name.max_length() == PERSON_NAME_MAX_LENGTH
        }
    }

    /// A name made of a last name and, where one is known, a first name;
    /// each must have between 1 and 60 characters.
    pub fn new(last_name: &str, first_name: Option<&str>) -> (made: Result<PersonName, HrError>)
        ensures
            match made {
                Ok(n) => {
                    &&& person_name_fault(spec_parts(last_name, first_name)) is None
                    &&& n@ == spec_parts(last_name, first_name)
                    &&& n.wf()
                },
                Err(e) => {
                    &&& person_name_fault(spec_parts(last_name, first_name)) matches Some(fault)
                    &&& e == HrError::ValidationError(fault)
                },
            },
    {
        let last_name = match NameType::new(
            last_name,
            PERSON_NAME_MIN_LENGTH,
            PERSON_NAME_MAX_LENGTH,
        ) {
            Ok(name) => name,
            Err(e) => {
                return Err(e);
            },
        };
        let first_name = match first_name {
            Some(first_name) => match NameType::new(
                first_name,
                PERSON_NAME_MIN_LENGTH,
                PERSON_NAME_MAX_LENGTH,
            ) {
                Ok(name) => Some(name),
                Err(e) => {
                    return Err(e);
                },
            },
            None => None,
        };
        Ok(PersonName { last_name, first_name })
    }

    /// The displayed form of the name.
    pub fn value(&self) -> (text: String)
        ensures
            text@ == self@.display(),
    {
        let mut text = self.last_name.value().to_owned();
        match &self.first_name {
            Some(first_name) => {
                proof {
                    reveal_strlit(" ");
                }
                text.append(" ");
                text.append(first_name.value());
                assert(" "@ =~= seq![' ']);
            },
            None => {},
        }
        text
    }

    /// A well-formed name is one that its bounds accept.
    pub proof fn law_name_within_bounds(&self)
        requires
            self.wf(),
        ensures
            person_name_fault(self@) is None,
    {
    }
}

} // verus!
