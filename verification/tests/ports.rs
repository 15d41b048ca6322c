use bt_cpp_rust::basic_types::{
    define_ports, NodeType, Port, PortDirection, PortInfo, PortsList, TreeNodeManifest,
};
use bt_cpp_rust::blackboard::{Blackboard, BlackboardError};
use bt_cpp_rust::ports::{parse_binding, NodeConfig, PortBinding, PortError};
use bt_cpp_rust::text_map::TextMap;
use bt_cpp_rust::value::AnyValue;

fn sample_ports() -> PortsList {
    define_ports(vec![
        Port::input("foo"),
        Port::input("bar").default(16u32),
        Port::output("out"),
        Port::input_description("text", "a text"),
    ])
}

#[test]
fn port_builders() {
    let port = Port::input("foo");
    assert_eq!(port.name(), "foo");
    assert_eq!(*port.info().direction(), PortDirection::Input);
    assert_eq!(port.info().description(), "");
    assert!(port.info().default_value().is_none());
    let port = Port::output_description("o", "where it goes");
    assert_eq!(port.name(), "o");
    assert_eq!(*port.info().direction(), PortDirection::Output);
    assert_eq!(port.info().description(), "where it goes");
    let port = Port::input_description("i", "what comes").default(true);
    assert_eq!(port.info().description(), "what comes");
    match port.info().default_value() {
        Some(AnyValue::Bool(true)) => {}
        _ => panic!("the default is the boolean"),
    }
    let port = Port::output("q");
    assert_eq!(*port.info().direction(), PortDirection::Output);
}

#[test]
fn port_info_setters() {
    let mut info = PortInfo::new(PortDirection::InOut);
    assert_eq!(*info.direction(), PortDirection::InOut);
    assert_eq!(info.description(), "");
    assert!(info.default_value().is_none());
    info.set_description(String::from("both ways"));
    info.set_default("seven");
    assert_eq!(info.description(), "both ways");
    match info.default_value() {
        Some(AnyValue::Text(s)) => assert_eq!(s, "seven"),
        _ => panic!("the default is the text"),
    }
    assert_eq!(*info.direction(), PortDirection::InOut);
    let copy = info.clone();
    assert_eq!(copy.description(), "both ways");
}

#[test]
fn ports_list_holds_the_last_declaration() {
    let ports = define_ports(vec![
        Port::input("a"),
        Port::output("b"),
        Port::output_description("a", "again"),
    ]);
    assert!(ports.contains_key("a"));
    assert!(ports.contains_key("b"));
    assert!(!ports.contains_key("c"));
    assert_eq!(*ports.get("a").unwrap().direction(), PortDirection::Output);
    assert_eq!(ports.get("a").unwrap().description(), "again");
    assert!(ports.get("c").is_none());
}

#[test]
fn text_map_insert_hands_back_the_old_value() {
    let mut map: TextMap<u32> = TextMap::new();
    assert_eq!(map.insert(String::from("k"), 1), None);
    assert_eq!(map.insert(String::from("j"), 2), None);
    assert_eq!(map.insert(String::from("k"), 3), Some(1));
    assert_eq!(map.get("k"), Some(&3));
    assert_eq!(map.get("j"), Some(&2));
    assert_eq!(map.get("i"), None);
    assert_eq!(map.len(), 2);
}

#[test]
fn manifest_accessors() {
    let manifest = TreeNodeManifest::new(NodeType::Action, "Dummy", sample_ports(), "a dummy");
    assert_eq!(manifest.node_type(), NodeType::Action);
    assert_eq!(manifest.registration_id(), "Dummy");
    assert_eq!(manifest.description(), "a dummy");
    assert!(manifest.ports().contains_key("foo"));
    let renamed = manifest.with_registration_id("Other");
    assert_eq!(renamed.registration_id(), "Other");
    assert_eq!(renamed.node_type(), NodeType::Action);
}

#[test]
fn braces_mark_a_blackboard_key() {
    match parse_binding("{key}") {
        PortBinding::Reference(k) => assert_eq!(k, "key"),
        _ => panic!("a reference"),
    }
    match parse_binding("{}") {
        PortBinding::Reference(k) => assert_eq!(k, ""),
        _ => panic!("a reference"),
    }
    for literal in ["key", "{key", "key}", "", "{", "}", " {key}"] {
        match parse_binding(literal) {
            PortBinding::Literal(s) => assert_eq!(s, literal),
            _ => panic!("a literal"),
        }
    }
}

#[test]
fn input_of_a_literal_goes_through_the_value_bridge() {
    let mut config = NodeConfig::new(&sample_ports());
    assert_eq!(config.bind("foo", "42"), Ok(()));
    let blackboard = Blackboard::new();
    assert_eq!(config.get_input::<u8>("foo", &blackboard), Ok(42));
    assert_eq!(config.get_input::<String>("foo", &blackboard), Ok(String::from("42")));
    assert_eq!(config.get_input::<bool>("foo", &blackboard), Err(PortError::Conversion));
}

#[test]
fn input_of_a_reference_reads_the_blackboard() {
    let mut config = NodeConfig::new(&sample_ports());
    assert_eq!(config.bind("foo", "{answer}"), Ok(()));
    let mut blackboard = Blackboard::new();
    assert_eq!(
        config.get_input::<u8>("foo", &blackboard),
        Err(PortError::Blackboard(BlackboardError::KeyNotFound))
    );
    blackboard.write("answer", 42u8);
    assert_eq!(config.get_input::<u8>("foo", &blackboard), Ok(42));
    assert_eq!(
        config.get_input::<u16>("foo", &blackboard),
        Err(PortError::Blackboard(BlackboardError::TypeMismatch))
    );
}

#[test]
fn unbound_input_falls_back_to_the_default() {
    let config = NodeConfig::new(&sample_ports());
    let blackboard = Blackboard::new();
    assert_eq!(config.get_input::<u32>("bar", &blackboard), Ok(16));
    assert_eq!(
        config.get_input::<u64>("bar", &blackboard),
        Err(PortError::Blackboard(BlackboardError::TypeMismatch))
    );
    assert_eq!(config.get_input::<u32>("foo", &blackboard), Err(PortError::PortNotResolved));
    assert_eq!(config.get_input::<u32>("nope", &blackboard), Err(PortError::PortNotDeclared));
}

#[test]
fn a_binding_overrides_the_default() {
    let mut config = NodeConfig::new(&sample_ports());
    assert_eq!(config.bind("bar", "3"), Ok(()));
    let blackboard = Blackboard::new();
    assert_eq!(config.get_input::<u32>("bar", &blackboard), Ok(3));
}

#[test]
fn binding_an_undeclared_port_is_refused() {
    let mut config = NodeConfig::new(&sample_ports());
    assert_eq!(config.bind("nope", "1"), Err(PortError::UnknownPort));
    assert!(config.declares("foo"));
    assert!(!config.declares("nope"));
    assert!(config.provided_ports().contains_key("text"));
}

#[test]
fn output_needs_a_blackboard_key() {
    let mut config = NodeConfig::new(&sample_ports());
    let mut blackboard = Blackboard::new();
    assert_eq!(config.set_output("out", 1u8, &mut blackboard), Err(PortError::PortNotResolved));
    assert_eq!(config.bind("out", "literal"), Ok(()));
    assert_eq!(config.set_output("out", 1u8, &mut blackboard), Err(PortError::PortNotResolved));
    assert_eq!(config.bind("out", "{result}"), Ok(()));
    assert_eq!(config.set_output("out", 1u8, &mut blackboard), Ok(()));
    assert_eq!(blackboard.read::<u8>("result"), Ok(1));
    assert_eq!(config.set_output("nope", 1u8, &mut blackboard), Err(PortError::PortNotDeclared));
    assert!(!blackboard.contains("nope"));
}

#[test]
fn port_error_messages() {
    assert_eq!(PortError::PortNotDeclared.message(), "the node type declares no such port");
    assert_eq!(
        PortError::PortNotResolved.message(),
        "the port is bound to nothing that could serve"
    );
    assert_eq!(
        PortError::UnknownPort.message(),
        "a value is given to a port that is not declared"
    );
    assert_eq!(
        PortError::Conversion.message(),
        "the port's literal cannot be read as the requested type"
    );
    assert_eq!(
        PortError::Blackboard(BlackboardError::KeyNotFound).message(),
        "no entry under this key"
    );
}
