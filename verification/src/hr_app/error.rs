use vstd::prelude::*;

verus! {

/// Why a bounded name was refused.
#[derive(PartialEq, Eq, Structural, Copy, Clone, Debug)]
pub enum NameFault {
    /// The lower bound is zero.
    MinLengthZero,
    /// The upper bound does not exceed the lower bound.
    MaxNotAboveMin,
    /// The name is longer than the upper bound.
    TooLong,
    /// The name is shorter than the lower bound.
    TooShort,
}

/// Every way an operation of this library can fail.
#[derive(PartialEq, Eq, Structural, Copy, Clone, Debug)]
pub enum HrError {
    /// A name is out of its bounds, or the bounds are misconfigured.
    ValidationError(NameFault),
    /// The identifier is already in the registry, live or retired.
    DuplicateId,
    /// A live department already has that name.
    DuplicateName,
    /// The identifier was never allocated.
    NotFound,
    /// The identifier was allocated and then retired.
    AlreadyDeleted,
    /// The person already belongs to the department.
    AlreadyMember,
    /// The person does not belong to the department.
    NotMember,
    /// A record or a number is malformed.
    FormatError,
    /// The backing store cannot be read or written.
    IoFailure,
}

} // verus!
