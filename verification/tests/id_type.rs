use human_management::hr_app::domain::id_type::Id;

#[test]
fn next_id_ok() {
    let id = Id::new(1).next_id();
    let ans = Id::new(2);
    assert_eq!(id, ans);
}

#[test]
fn greater_than_true() {
    let small = Id::new(1);
    let large = Id::new(10);
    assert_eq!(large.greater_than(small), true);
}

#[test]
fn greater_than_false() {
    let small = Id::new(1);
    let large = Id::new(10);
    assert_eq!(small.greater_than(large), false);
}

#[test]
fn greater_than_eaual_false() {
    let id1 = Id::new(5);
    let id2 = Id::new(5);
    assert_eq!(id1.greater_than(id2), false);
}

#[test]
fn to_string_ok() {
    let ans = String::from("100");
    let id = Id::new(100);
    assert_eq!(id.to_string(), ans);
}

#[test]
fn to_string_writes_every_digit() {
    assert_eq!(Id::new(0).to_string(), "0");
    assert_eq!(Id::new(7).to_string(), "7");
    assert_eq!(Id::new(10).to_string(), "10");
    assert_eq!(Id::new(1234567890).to_string(), "1234567890");
    assert_eq!(Id::new(u64::MAX).to_string(), "18446744073709551615");
}

#[test]
fn value_gives_the_number_back() {
    assert_eq!(Id::new(42).value(), 42);
    assert_eq!(Id::new(41).next_id().value(), 42);
}
