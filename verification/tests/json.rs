use bt_cpp_rust::basic_types::BTToString;

#[test]
fn json_values_are_written_as_compact_json() {
    let mut object = serde_json::Map::new();
    object.insert(String::from("a"), serde_json::Value::from(1));
    object.insert(
        String::from("b"),
        serde_json::Value::Array(vec![serde_json::Value::Bool(true), serde_json::Value::Null]),
    );
    let value = serde_json::Value::Object(object);
    assert_eq!(value.bt_to_string(), "{\"a\":1,\"b\":[true,null]}");
    assert_eq!(serde_json::Value::from("x\"y").bt_to_string(), "\"x\\\"y\"");
    assert_eq!(serde_json::Value::Null.bt_to_string(), "null");
}

#[test]
fn json_sequences_use_the_semicolon() {
    let values = vec![serde_json::Value::from(1), serde_json::Value::from("a")];
    assert_eq!(values.bt_to_string(), "1;\"a\"");
}
