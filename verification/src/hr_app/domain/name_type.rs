use crate::hr_app::error::{HrError, NameFault};
use vstd::prelude::*;
use vstd::string::StrSliceExecFns;

verus! {

/// The reason for which a name of `len` characters is refused under the bounds
/// `min_length` and `max_length`, or `None` where it is accepted. The
/// bounds are judged before the name.
pub open spec fn name_fault(len: nat, min_length: u8, max_length: u8) -> Option<NameFault> {
    if min_length == 0 {
        Some(NameFault::MinLengthZero)
    } else if max_length <= min_length {
        Some(NameFault::MaxNotAboveMin)
    } else if len > max_length {
        Some(NameFault::TooLong)
    } else if len < min_length {
        Some(NameFault::TooShort)
    } else {
        None
    }
}

/// A text whose length, counted in characters, lies between a lower and
/// an upper bound.
pub struct NameType {
    value: String,
    _min_length: u8,
    _max_length: u8,
}

impl View for NameType {
    type V = Seq<char>;

    closed spec fn view(&self) -> Seq<char> {
        self.value@
    }
}

impl NameType {
    /// The lower bound that the text was made with.
    pub closed spec fn min_length(&self) -> u8 {
        self._min_length
    }

    /// The upper bound that the text was made with.
    pub closed spec fn max_length(&self) -> u8 {
        self._max_length
    }

    /// The text respects the bounds it was made with.
    pub open spec fn wf(&self) -> bool {
        name_fault(self@.len(), self.min_length(), self.max_length()) is None
    }

    /// A text of at least `min_length` and at most `max_length` characters.
    /// The lower bound must be positive and the upper bound above it.
    pub fn new(name: &str, min_length: u8, max_length: u8) -> (made: Result<NameType, HrError>)
        ensures
            match made {
                Ok(n) => {
                    &&& name_fault(name@.len(), min_length, max_length) is None
                    &&& n@ == name@
                    &&& n.min_length() == min_length
                    &&& n.max_length() == max_length
                    &&& n.wf()
                },
                Err(e) => {
                    &&& name_fault(name@.len(), min_length, max_length) matches Some(fault)
                    &&& e == HrError::ValidationError(fault)
                },
            },
    {
        if min_length == 0 {
            return Err(HrError::ValidationError(NameFault::MinLengthZero));
        }
        if max_length <= min_length {
            return Err(HrError::ValidationError(NameFault::MaxNotAboveMin));
        }
        let name_length: usize = name.unicode_len();
        if name_length > max_length as usize {
            return Err(HrError::ValidationError(NameFault::TooLong));
        }
        if name_length < min_length as usize {
            return Err(HrError::ValidationError(NameFault::TooShort));
        }
        Ok(NameType { value: name.to_owned(), _min_length: min_length, _max_length: max_length })
    }

    /// The text.
    pub fn value(&self) -> (text: &str)
        ensures
            text@ == self@,
    {
        self.value.as_str()
    }
}

} // verus!
