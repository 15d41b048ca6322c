use bt_cpp_rust::basic_types::{
    BTToString, FromText, NodeStatus, NodeType, ParseBoolError, ParseNodeStatusError,
    ParseNodeTypeError, ParsePortDirectionError, PortDirection, StringInto,
};
use bt_cpp_rust::numbers::{parse_signed, parse_unsigned, signed_to_text, unsigned_to_text, ConversionError};
use bt_cpp_rust::text::{split_text, text_eq};

#[test]
fn status_predicates() {
    assert!(!NodeStatus::Idle.is_active());
    assert!(NodeStatus::Running.is_active());
    assert!(NodeStatus::Success.is_active());
    assert!(NodeStatus::Failure.is_active());
    assert!(!NodeStatus::Skipped.is_active());
    assert!(!NodeStatus::Idle.is_completed());
    assert!(!NodeStatus::Running.is_completed());
    assert!(NodeStatus::Success.is_completed());
    assert!(NodeStatus::Failure.is_completed());
    assert!(!NodeStatus::Skipped.is_completed());
}

#[test]
fn status_text_plain_and_coloured() {
    assert_eq!(NodeStatus::Idle.bt_to_string(), "IDLE");
    assert_eq!(NodeStatus::Running.bt_to_string(), "RUNNING");
    assert_eq!(NodeStatus::Success.bt_to_string(), "SUCCESS");
    assert_eq!(NodeStatus::Failure.bt_to_string(), "FAILURE");
    assert_eq!(NodeStatus::Skipped.bt_to_string(), "SKIPPED");
    assert_eq!(NodeStatus::Idle.into_string_color(), "\x1b[36mIDLE\x1b[0m");
    assert_eq!(NodeStatus::Running.into_string_color(), "\x1b[33mRUNNING\x1b[0m");
    assert_eq!(NodeStatus::Success.into_string_color(), "\x1b[32mSUCCESS\x1b[0m");
    assert_eq!(NodeStatus::Failure.into_string_color(), "\x1b[31mFAILURE\x1b[0m");
    assert_eq!(NodeStatus::Skipped.into_string_color(), "\x1b[34mSKIPPED\x1b[0m");
}

#[test]
fn each_status_name_reads_as_its_own_status() {
    for status in [
        NodeStatus::Idle,
        NodeStatus::Running,
        NodeStatus::Success,
        NodeStatus::Failure,
        NodeStatus::Skipped,
    ] {
        let text = status.bt_to_string();
        assert_eq!(NodeStatus::from_text(&text), Ok(status));
    }
    let r: Result<NodeStatus, ParseNodeStatusError> = "Success".string_into();
    assert_eq!(r, Err(ParseNodeStatusError::NoMatch));
}

#[test]
fn node_type_round_trip() {
    for kind in [
        NodeType::Undefined,
        NodeType::Action,
        NodeType::Condition,
        NodeType::Control,
        NodeType::Decorator,
        NodeType::SubTree,
    ] {
        let text = kind.bt_to_string();
        assert_eq!(NodeType::from_text(&text), Ok(kind));
    }
    assert_eq!(NodeType::SubTree.bt_to_string(), "SubTree");
    assert_eq!(NodeType::from_text("subtree"), Err(ParseNodeTypeError::NoMatch));
}

#[test]
fn port_direction_round_trip() {
    for direction in [PortDirection::Input, PortDirection::Output, PortDirection::InOut] {
        let text = direction.bt_to_string();
        assert_eq!(PortDirection::from_text(&text), Ok(direction));
    }
    assert_eq!(PortDirection::from_text("INPUT"), Ok(PortDirection::Input));
    assert_eq!(PortDirection::from_text("OUTPUT"), Ok(PortDirection::Output));
    assert_eq!(PortDirection::from_text("INOUT"), Ok(PortDirection::InOut));
    assert_eq!(PortDirection::from_text("input"), Err(ParsePortDirectionError::NoMatch));
}

#[test]
fn only_six_boolean_literals_parse() {
    assert_eq!(bool::from_text("1"), Ok(true));
    assert_eq!(bool::from_text("true"), Ok(true));
    assert_eq!(bool::from_text("TRUE"), Ok(true));
    assert_eq!(bool::from_text("0"), Ok(false));
    assert_eq!(bool::from_text("false"), Ok(false));
    assert_eq!(bool::from_text("FALSE"), Ok(false));
    for other in ["", "True", "False", "yes", "no", " 1", "1 ", "2", "tRUE", "truee"] {
        assert_eq!(bool::from_text(other), Err(ParseBoolError::ParseError));
    }
    assert_eq!(true.bt_to_string(), "true");
    assert_eq!(false.bt_to_string(), "false");
    assert_eq!(bool::from_text(&true.bt_to_string()), Ok(true));
    assert_eq!(bool::from_text(&false.bt_to_string()), Ok(false));
}

#[test]
fn integers_round_trip_at_their_bounds() {
    assert_eq!(u8::from_text(&u8::MAX.bt_to_string()), Ok(u8::MAX));
    assert_eq!(u16::from_text(&u16::MAX.bt_to_string()), Ok(u16::MAX));
    assert_eq!(u32::from_text(&u32::MAX.bt_to_string()), Ok(u32::MAX));
    assert_eq!(u64::from_text(&u64::MAX.bt_to_string()), Ok(u64::MAX));
    assert_eq!(u128::from_text(&u128::MAX.bt_to_string()), Ok(u128::MAX));
    assert_eq!(usize::from_text(&usize::MAX.bt_to_string()), Ok(usize::MAX));
    assert_eq!(i8::from_text(&i8::MIN.bt_to_string()), Ok(i8::MIN));
    assert_eq!(i16::from_text(&i16::MIN.bt_to_string()), Ok(i16::MIN));
    assert_eq!(i32::from_text(&i32::MIN.bt_to_string()), Ok(i32::MIN));
    assert_eq!(i64::from_text(&i64::MIN.bt_to_string()), Ok(i64::MIN));
    assert_eq!(i128::from_text(&i128::MIN.bt_to_string()), Ok(i128::MIN));
    assert_eq!(isize::from_text(&isize::MIN.bt_to_string()), Ok(isize::MIN));
    assert_eq!(i128::from_text(&i128::MAX.bt_to_string()), Ok(i128::MAX));
    assert_eq!(u64::from_text(&0u64.bt_to_string()), Ok(0));
    assert_eq!(i32::from_text(&(-1i32).bt_to_string()), Ok(-1));
}

#[test]
fn integers_are_written_as_the_standard_library_writes_them() {
    assert_eq!(0u8.bt_to_string(), "0");
    assert_eq!(500u64.bt_to_string(), "500");
    assert_eq!((-128i8).bt_to_string(), "-128");
    assert_eq!(u128::MAX.bt_to_string(), u128::MAX.to_string());
    assert_eq!(i128::MIN.bt_to_string(), i128::MIN.to_string());
    assert_eq!(unsigned_to_text(1_000_000), "1000000");
    assert_eq!(signed_to_text(-42), "-42");
    assert_eq!(signed_to_text(0), "0");
}

#[test]
fn integer_literals_are_read_as_the_standard_library_reads_them() {
    assert_eq!(u8::from_text("255"), Ok(255));
    assert_eq!(u8::from_text("+7"), Ok(7));
    assert_eq!(u8::from_text("007"), Ok(7));
    assert_eq!(i8::from_text("-0"), Ok(0));
    assert_eq!(i8::from_text("-128"), Ok(-128));
    assert_eq!(i8::from_text("+127"), Ok(127));
    assert_eq!(u8::from_text(""), Err(ConversionError::Empty));
    assert_eq!(u8::from_text("+"), Err(ConversionError::InvalidDigit));
    assert_eq!(i8::from_text("-"), Err(ConversionError::InvalidDigit));
    assert_eq!(u8::from_text("-1"), Err(ConversionError::InvalidDigit));
    assert_eq!(u8::from_text("-0"), Err(ConversionError::InvalidDigit));
    assert_eq!(u8::from_text("1_0"), Err(ConversionError::InvalidDigit));
    assert_eq!(u8::from_text(" 1"), Err(ConversionError::InvalidDigit));
    assert_eq!(u8::from_text("1 "), Err(ConversionError::InvalidDigit));
    assert_eq!(u8::from_text("25x"), Err(ConversionError::InvalidDigit));
    assert_eq!(u8::from_text("256"), Err(ConversionError::PosOverflow));
    assert_eq!(u8::from_text("999x"), Err(ConversionError::PosOverflow));
    assert_eq!(i8::from_text("128"), Err(ConversionError::PosOverflow));
    assert_eq!(i8::from_text("-129"), Err(ConversionError::NegOverflow));
    assert_eq!(i8::from_text("-1290x"), Err(ConversionError::NegOverflow));
    assert_eq!(
        u128::from_text("340282366920938463463374607431768211456"),
        Err(ConversionError::PosOverflow)
    );
    assert_eq!(
        i128::from_text("-170141183460469231731687303715884105729"),
        Err(ConversionError::NegOverflow)
    );
    for text in ["", "+", "-", "-1", "25x", "256", "999x", "00300", "+0", "12", "٣"] {
        let ours = u8::from_text(text).ok();
        let theirs = text.parse::<u8>().ok();
        assert_eq!(ours, theirs);
    }
    for text in ["-129", "-128", "--1", "+-1", "127", "128", "-", "1-"] {
        let ours = i8::from_text(text).ok();
        let theirs = text.parse::<i8>().ok();
        assert_eq!(ours, theirs);
    }
    assert_eq!(parse_unsigned("12", 20), Ok(12));
    assert_eq!(parse_unsigned("21", 20), Err(ConversionError::PosOverflow));
    assert_eq!(parse_signed("-21", -20, 20), Err(ConversionError::NegOverflow));
    assert_eq!(parse_signed("-20", -20, 20), Ok(-20));
}

#[test]
fn conversion_error_messages() {
    assert_eq!(ConversionError::Empty.message(), "cannot parse integer from empty string");
    assert_eq!(ConversionError::InvalidDigit.message(), "invalid digit found in string");
    assert_eq!(ConversionError::PosOverflow.message(), "number too large to fit in target type");
    assert_eq!(ConversionError::NegOverflow.message(), "number too small to fit in target type");
    assert_eq!(ParseBoolError::ParseError.message(), "string wasn't one of the expected: 1/0, true/false, TRUE/FALSE");
    assert_eq!(ParseNodeStatusError::NoMatch.message(), "string didn't match any NodeStatus values");
    assert_eq!(ParseNodeTypeError::NoMatch.message(), "string didn't match any NodeType values");
    assert_eq!(
        ParsePortDirectionError::NoMatch.message(),
        "string didn't match any PortDirection values"
    );
}

#[test]
fn strings_are_their_own_text() {
    let s = String::from("a;b");
    assert_eq!(s.bt_to_string(), "a;b");
    assert_eq!(String::from_text("a;b"), Ok(String::from("a;b")));
    assert_eq!("plain".bt_to_string(), "plain");
    let r: Result<String, _> = "x".string_into();
    assert_eq!(r, Ok(String::from("x")));
}

#[test]
fn sequences_use_the_semicolon() {
    assert_eq!(vec![1u32, 2, 3].bt_to_string(), "1;2;3");
    assert_eq!(vec![7i8].bt_to_string(), "7");
    assert_eq!(Vec::<u8>::new().bt_to_string(), "");
    assert_eq!(vec![true, false].bt_to_string(), "true;false");
    assert_eq!(
        vec![NodeStatus::Idle, NodeStatus::Skipped].bt_to_string(),
        "IDLE;SKIPPED"
    );
    let r: Result<Vec<u32>, ConversionError> = "1;2;3".string_into();
    assert_eq!(r, Ok(vec![1, 2, 3]));
    let r: Result<Vec<String>, _> = "1;2;3;4".string_into();
    assert_eq!(r, Ok(vec![String::from("1"), String::from("2"), String::from("3"), String::from("4")]));
    assert_eq!(Vec::<bool>::from_text("1;FALSE"), Ok(vec![true, false]));
    assert_eq!(
        Vec::<NodeStatus>::from_text("SUCCESS;RUNNING"),
        Ok(vec![NodeStatus::Success, NodeStatus::Running])
    );
}

#[test]
fn sequence_parsing_fails_with_the_first_failing_field() {
    assert_eq!(Vec::<u8>::from_text("1;x;300"), Err(ConversionError::InvalidDigit));
    assert_eq!(Vec::<u8>::from_text("1;300;x"), Err(ConversionError::PosOverflow));
    assert_eq!(Vec::<u8>::from_text("1;;2"), Err(ConversionError::Empty));
    assert_eq!(Vec::<u8>::from_text(""), Err(ConversionError::Empty));
    assert_eq!(Vec::<u8>::from_text("1;"), Err(ConversionError::Empty));
    assert_eq!(Vec::<bool>::from_text("true;maybe"), Err(ParseBoolError::ParseError));
}

#[test]
fn sequence_round_trip_and_its_limit() {
    let values = vec![10u16, 0, 65535];
    assert_eq!(Vec::<u16>::from_text(&values.bt_to_string()), Ok(values));
    let texts = vec![String::from("a"), String::from(""), String::from("c")];
    assert_eq!(Vec::<String>::from_text(&texts.bt_to_string()), Ok(texts));
    let broken = vec![String::from("a;b")];
    assert_eq!(
        Vec::<String>::from_text(&broken.bt_to_string()),
        Ok(vec![String::from("a"), String::from("b")])
    );
    assert_eq!(Vec::<String>::from_text(""), Ok(vec![String::new()]));
}

#[test]
fn splitting_keeps_empty_fields() {
    assert_eq!(split_text(""), vec![String::new()]);
    assert_eq!(split_text(";"), vec![String::new(), String::new()]);
    assert_eq!(split_text("a;;b"), vec![String::from("a"), String::new(), String::from("b")]);
    assert_eq!(split_text("é;ü"), vec![String::from("é"), String::from("ü")]);
    assert!(text_eq("é", "é"));
    assert!(!text_eq("a", "b"));
}
