use human_management::hr_app::domain::name_type::NameType;
use human_management::hr_app::error::{HrError, NameFault};

#[test]
fn name_type_new_ok() {
    assert!(NameType::new("Bob", 1, 20).is_ok());
}

#[test]
fn new_min_length_bounday_err() {
    assert!(NameType::new("Bob", 0, 20).is_err());
}

#[test]
fn new_min_length_equal_to_max_length_err() {
    assert!(NameType::new("Bob", 20, 20).is_err());
}

#[test]
fn new_max_length_smaller_than_min_length_err() {
    assert!(NameType::new("Bob", 20, 19).is_err());
}

#[test]
fn new_name_length_equal_to_min_length_ok() {
    assert!(NameType::new("abcde", 5, 10).is_ok());
}

#[test]
fn new_name_length_too_short_err() {
    assert!(NameType::new("abcd", 5, 10).is_err());
}

#[test]
fn new_name_length_equal_to_max_length_ok() {
    assert!(NameType::new("abcdefghij", 5, 10).is_ok());
}

#[test]
fn new_name_length_too_large_err() {
    assert!(NameType::new("abcdefghijk", 5, 10).is_err());
}

#[test]
fn name_type_value_ok() {
    let name_type = NameType::new("Alice", 1, 20).unwrap();
    assert_eq!(name_type.value(), "Alice");
}

fn fault(name: &str, min_length: u8, max_length: u8) -> Option<HrError> {
    NameType::new(name, min_length, max_length).err()
}

#[test]
fn each_fault_is_named() {
    assert_eq!(fault("Bob", 0, 20), Some(HrError::ValidationError(NameFault::MinLengthZero)));
    assert_eq!(fault("Bob", 20, 20), Some(HrError::ValidationError(NameFault::MaxNotAboveMin)));
    assert_eq!(fault("Bob", 20, 19), Some(HrError::ValidationError(NameFault::MaxNotAboveMin)));
    assert_eq!(fault("abcdefghijk", 5, 10), Some(HrError::ValidationError(NameFault::TooLong)));
    assert_eq!(fault("abcd", 5, 10), Some(HrError::ValidationError(NameFault::TooShort)));
    assert_eq!(fault("abcde", 5, 10), None);
}

#[test]
fn bounds_are_judged_before_the_name() {
    assert_eq!(fault("", 0, 0), Some(HrError::ValidationError(NameFault::MinLengthZero)));
    assert_eq!(fault("", 3, 2), Some(HrError::ValidationError(NameFault::MaxNotAboveMin)));
}

#[test]
fn length_is_counted_in_characters() {
    // Two characters of three bytes each.
    assert_eq!(fault("\u{4e0b}\u{9053}", 1, 2), None);
    assert_eq!(fault("\u{4e0b}\u{9053}", 2, 3), None);
    assert_eq!(fault("\u{4e0b}\u{9053}", 3, 6), Some(HrError::ValidationError(NameFault::TooShort)));
    assert_eq!(fault("\u{4e0b}\u{9053}\u{4e0b}", 1, 2), Some(HrError::ValidationError(NameFault::TooLong)));
}
