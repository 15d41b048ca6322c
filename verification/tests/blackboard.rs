use bt_cpp_rust::basic_types::NodeStatus;
use bt_cpp_rust::blackboard::{Blackboard, BlackboardError};
use bt_cpp_rust::value::AnyValue;

#[test]
fn blackboard_test() {
    let status = NodeStatus::Success;
    println!("{}", status.into_string_color());
    let status = NodeStatus::Failure;
    println!("{}", status.into_string_color());
    let status = NodeStatus::Idle;
    println!("{}", status.into_string_color());

    let mut blackboard = Blackboard::new();

    blackboard.write("test", "foo");
    blackboard.write("test int", 500u64);
    blackboard.write("test custom", status);
    blackboard.write("test string_into", "1;2;3;4");

    let val = blackboard.read::<String>("test");
    println!("{:?}", val.unwrap());
    let val = blackboard.read::<u64>("test int");
    println!("{:?}", val.unwrap());
    let val = blackboard.read::<NodeStatus>("test custom");
    println!("{:?}", val.unwrap());
    let val = blackboard.read::<Vec<String>>("test string_into");
    println!("{:?}", val.unwrap());
}

#[test]
fn blackboard_values_come_back() {
    let mut blackboard = Blackboard::new();
    blackboard.write("test", "foo");
    blackboard.write("test int", 500u64);
    blackboard.write("test custom", NodeStatus::Idle);
    blackboard.write("test string_into", "1;2;3;4");
    assert_eq!(blackboard.read::<String>("test"), Ok(String::from("foo")));
    assert_eq!(blackboard.read::<u64>("test int"), Ok(500u64));
    assert_eq!(blackboard.read::<NodeStatus>("test custom"), Ok(NodeStatus::Idle));
    assert_eq!(
        blackboard.read::<Vec<String>>("test string_into"),
        Ok(vec![String::from("1"), String::from("2"), String::from("3"), String::from("4")])
    );
    assert_eq!(blackboard.read::<Vec<u8>>("test string_into"), Ok(vec![1u8, 2, 3, 4]));
}

#[test]
fn read_of_unwritten_key_is_key_not_found() {
    let blackboard = Blackboard::new();
    assert_eq!(blackboard.read::<u64>("nothing"), Err(BlackboardError::KeyNotFound));
    assert!(!blackboard.contains("nothing"));
    assert!(blackboard.get("nothing").is_none());
}

#[test]
fn read_as_another_type_is_type_mismatch() {
    let mut blackboard = Blackboard::new();
    blackboard.write("n", 500u64);
    assert_eq!(blackboard.read::<u32>("n"), Err(BlackboardError::TypeMismatch));
    assert_eq!(blackboard.read::<String>("n"), Err(BlackboardError::TypeMismatch));
    assert_eq!(blackboard.read::<bool>("n"), Err(BlackboardError::TypeMismatch));
    blackboard.write("t", "not a number");
    assert_eq!(blackboard.read::<u32>("t"), Err(BlackboardError::TypeMismatch));
    assert_eq!(blackboard.read::<Vec<u32>>("t"), Err(BlackboardError::TypeMismatch));
}

#[test]
fn write_replaces_value_and_type() {
    let mut blackboard = Blackboard::new();
    blackboard.write("k", 1u8);
    blackboard.write("k", true);
    assert_eq!(blackboard.read::<bool>("k"), Ok(true));
    assert_eq!(blackboard.read::<u8>("k"), Err(BlackboardError::TypeMismatch));
    blackboard.write("other", 7i32);
    assert_eq!(blackboard.read::<bool>("k"), Ok(true));
    assert_eq!(blackboard.read::<i32>("other"), Ok(7));
}

#[test]
fn text_entries_are_read_through_the_value_bridge() {
    let mut blackboard = Blackboard::new();
    blackboard.write("n", "-12");
    blackboard.write("b", String::from("TRUE"));
    blackboard.write("s", "FAILURE");
    assert_eq!(blackboard.read::<i16>("n"), Ok(-12));
    assert_eq!(blackboard.read::<bool>("b"), Ok(true));
    assert_eq!(blackboard.read::<NodeStatus>("s"), Ok(NodeStatus::Failure));
    assert_eq!(blackboard.read::<u16>("n"), Err(BlackboardError::TypeMismatch));
}

#[test]
fn lists_are_stored_with_their_item_type() {
    let mut blackboard = Blackboard::new();
    blackboard.write("l", vec![1u32, 2, 3]);
    assert_eq!(blackboard.read::<Vec<u32>>("l"), Ok(vec![1u32, 2, 3]));
    assert_eq!(blackboard.read::<Vec<u64>>("l"), Err(BlackboardError::TypeMismatch));
    assert_eq!(blackboard.read::<u32>("l"), Err(BlackboardError::TypeMismatch));
    match blackboard.get("l") {
        Some(AnyValue::List(items)) => assert_eq!(items.len(), 3),
        _ => panic!("a list was stored"),
    }
}

#[test]
fn blackboard_error_messages() {
    assert_eq!(BlackboardError::KeyNotFound.message(), "no entry under this key");
    assert_eq!(
        BlackboardError::TypeMismatch.message(),
        "the entry cannot be read as the requested type"
    );
}
