use std::cell::RefCell;
use std::rc::Rc;

use bt_cpp_rust::basic_types::{define_ports, NodeStatus, NodeType, Port, TreeNodeManifest};
use bt_cpp_rust::blackboard::Blackboard;
use bt_cpp_rust::document::{parse, parse_xml, Element, ParseError, TreeDefinition, TreeDocument};
use bt_cpp_rust::nodes::{NodeError, TreeNode};
use bt_cpp_rust::ports::{NodeConfig, PortError};
use bt_cpp_rust::printing::{element_to_text, write_element};
use bt_cpp_rust::tree::{ticks_on, BuildError, Factory, NodeConstructor, Pause, Tree};

#[derive(Default)]
struct Counters {
    constructed: u32,
    ticks: u32,
    seen: Vec<String>,
}

struct DummyActionNode {
    name: String,
    counter: u32,
    shared: Rc<RefCell<Counters>>,
}

impl TreeNode for DummyActionNode {
    fn tick(&mut self, config: &NodeConfig, blackboard: &mut Blackboard) -> Result<NodeStatus, NodeError> {
        let foo = config.get_input::<String>("foo", blackboard);
        self.shared.borrow_mut().seen.push(format!("{}:{}", self.name, foo.unwrap()));
        self.counter += 1;
        self.shared.borrow_mut().ticks += 1;
        blackboard.write("bb_test", String::from("this value comes from the blackboard!"));
        match self.counter > 2 {
            true => Ok(NodeStatus::Success),
            false => {
                blackboard.write("foo", String::from("new value!"));
                Ok(NodeStatus::Running)
            }
        }
    }
}

struct MakeDummy {
    shared: Rc<RefCell<Counters>>,
}

impl NodeConstructor for MakeDummy {
    type Leaf = DummyActionNode;

    fn construct(&self, name: &str, _config: &NodeConfig) -> DummyActionNode {
        self.shared.borrow_mut().constructed += 1;
        DummyActionNode { name: String::from(name), counter: 0, shared: self.shared.clone() }
    }
}

struct CountingPause {
    pauses: u32,
}

impl Pause for CountingPause {
    fn pause(&mut self) {
        self.pauses += 1;
    }
}

fn dummy_manifest() -> TreeNodeManifest {
    TreeNodeManifest::new(
        NodeType::Action,
        "",
        define_ports(vec![Port::input("foo"), Port::input("bar").default(16u32)]),
        "",
    )
}

fn factory_with(names: &[&str], shared: &Rc<RefCell<Counters>>) -> Factory<MakeDummy> {
    let mut factory = Factory::new();
    for name in names {
        factory
            .register_stateful(name, MakeDummy { shared: shared.clone() }, dummy_manifest())
            .unwrap();
    }
    factory
}

const MAIN_TREE: &str = r#"<?xml version="1.0" encoding="UTF-8"?>
<root BTCPP_format="4">
    <!-- the tree that is run -->
    <BehaviorTree ID="main">
        <Sequence>
            <DummyNode name="first" foo="{foo}"/>
            <SubTree ID="inner"/>
        </Sequence>
    </BehaviorTree>
    <BehaviorTree ID="inner">
        <Fallback name="choice">
            <Inverter>
                <InnerNode foo="literal" bar="4"></InnerNode>
            </Inverter>
            <CustomNode foo='{foo}' />
        </Fallback>
    </BehaviorTree>
</root>
"#;

#[test]
fn tree_test() {
    let shared = Rc::new(RefCell::new(Counters::default()));
    let mut factory = factory_with(&["DummyNode", "CustomNode", "InnerNode"], &shared);
    let mut blackboard = Blackboard::new();
    blackboard.write("foo", "bar");
    factory.register_bt_from_text(MAIN_TREE).unwrap();
    let mut tree = match factory.instantiate_tree(blackboard, "main") {
        Ok(tree) => tree,
        Err(e) => panic!("Error: {e:?}"),
    };
    let mut pause = CountingPause { pauses: 0 };
    match tree.tick_while_running(&mut pause, 100) {
        Ok(status) => assert_eq!(status, NodeStatus::Success),
        Err(e) => panic!("{}", e.message()),
    }
    assert_eq!(shared.borrow().constructed, 3);
}

#[test]
fn the_instantiated_tree_has_the_shape_of_the_description() {
    let shared = Rc::new(RefCell::new(Counters::default()));
    let mut factory = factory_with(&["DummyNode", "CustomNode", "InnerNode"], &shared);
    factory.register_bt_from_text(MAIN_TREE).unwrap();
    assert_eq!(factory.tree_count(), 2);
    let tree = factory.instantiate_tree(Blackboard::new(), "main").unwrap();
    let root = tree.root();
    assert_eq!(root.name(), "Sequence");
    assert_eq!(root.registration_id(), "Sequence");
    assert_eq!(root.node_type(), NodeType::Control);
    assert_eq!(root.status(), NodeStatus::Idle);
    assert_eq!(root.child_count(), 2);
    assert_eq!(root.child(0).name(), "first");
    assert_eq!(root.child(0).registration_id(), "DummyNode");
    assert_eq!(root.child(0).node_type(), NodeType::Action);
    let sub = root.child(1);
    assert_eq!(sub.node_type(), NodeType::SubTree);
    assert_eq!(sub.registration_id(), "SubTree");
    let choice = sub.child(0);
    assert_eq!(choice.name(), "choice");
    assert_eq!(choice.registration_id(), "Fallback");
    assert_eq!(choice.child(0).node_type(), NodeType::Decorator);
    let inner = choice.child(0).child(0);
    assert_eq!(inner.registration_id(), "InnerNode");
    let blackboard = Blackboard::new();
    assert_eq!(inner.config().get_input::<String>("foo", &blackboard), Ok(String::from("literal")));
    assert_eq!(inner.config().get_input::<u32>("bar", &blackboard), Ok(4));
    assert_eq!(root.child(0).config().get_input::<u32>("bar", &blackboard), Ok(16));
    assert_eq!(choice.child(1).registration_id(), "CustomNode");
}

#[test]
fn end_to_end_three_ticks() {
    let shared = Rc::new(RefCell::new(Counters::default()));
    let mut factory = factory_with(&["DummyNode"], &shared);
    factory
        .register_bt_from_text(
            "<root><BehaviorTree ID=\"main\"><DummyNode foo=\"{foo}\"/></BehaviorTree></root>",
        )
        .unwrap();
    let mut blackboard = Blackboard::new();
    blackboard.write("foo", "start value");
    let mut tree = factory.instantiate_tree(blackboard, "main").unwrap();
    assert!(!tree.blackboard().contains("bb_test"));
    assert_eq!(tree.tick_once().unwrap(), NodeStatus::Running);
    assert!(tree.blackboard().contains("bb_test"));
    assert_eq!(shared.borrow().ticks, 1);
    tree.halt_tree();
    assert_eq!(tree.status(), NodeStatus::Idle);

    let shared = Rc::new(RefCell::new(Counters::default()));
    let mut factory = factory_with(&["DummyNode"], &shared);
    factory
        .register_bt_from_text(
            "<root><BehaviorTree ID=\"main\"><DummyNode foo=\"{foo}\"/></BehaviorTree></root>",
        )
        .unwrap();
    let mut blackboard = Blackboard::new();
    blackboard.write("foo", "start value");
    let mut tree = factory.instantiate_tree(blackboard, "main").unwrap();
    let mut pause = CountingPause { pauses: 0 };
    assert_eq!(tree.tick_while_running(&mut pause, usize::MAX).unwrap(), NodeStatus::Success);
    assert_eq!(shared.borrow().ticks, 3);
    assert_eq!(tree.rounds(), 3);
    assert_eq!(pause.pauses, 2);
    assert_eq!(tree.status(), NodeStatus::Success);
    assert_eq!(
        shared.borrow().seen,
        vec!["DummyNode:start value", "DummyNode:new value!", "DummyNode:new value!"]
    );
    assert_eq!(
        tree.blackboard().read::<String>("bb_test"),
        Ok(String::from("this value comes from the blackboard!"))
    );
    let (root, blackboard) = tree.into_parts();
    assert_eq!(root.status(), NodeStatus::Success);
    assert!(blackboard.contains("foo"));
}

#[test]
fn the_round_budget_stops_the_driver() {
    let shared = Rc::new(RefCell::new(Counters::default()));
    let mut factory = factory_with(&["DummyNode"], &shared);
    factory
        .register_bt_from_text(
            "<root><BehaviorTree ID=\"main\"><DummyNode foo=\"x\"/></BehaviorTree></root>",
        )
        .unwrap();
    let mut tree = factory.instantiate_tree(Blackboard::new(), "main").unwrap();
    let mut pause = CountingPause { pauses: 0 };
    assert_eq!(tree.tick_while_running(&mut pause, 0).unwrap(), NodeStatus::Idle);
    assert_eq!(shared.borrow().ticks, 0);
    assert_eq!(tree.rounds(), 0);
    assert_eq!(tree.tick_while_running(&mut pause, 2).unwrap(), NodeStatus::Running);
    assert_eq!(tree.rounds(), 2);
    assert_eq!(shared.borrow().ticks, 2);
    assert_eq!(pause.pauses, 1);
    assert!(ticks_on(NodeStatus::Running, 1, 2));
    assert!(!ticks_on(NodeStatus::Running, 2, 2));
    assert!(!ticks_on(NodeStatus::Success, 1, 2));
    assert!(!ticks_on(NodeStatus::Failure, 1, 2));
    assert!(ticks_on(NodeStatus::Skipped, 1, 2));
}

#[test]
fn a_failing_tick_stops_the_driver() {
    let shared = Rc::new(RefCell::new(Counters::default()));
    let mut factory = factory_with(&["DummyNode"], &shared);
    factory
        .register_bt_from_text(
            "<root><BehaviorTree ID=\"main\"><RetryUntilSuccessful><DummyNode foo=\"x\"/></RetryUntilSuccessful></BehaviorTree></root>",
        )
        .unwrap();
    let mut tree = factory.instantiate_tree(Blackboard::new(), "main").unwrap();
    let mut pause = CountingPause { pauses: 0 };
    let error = tree.tick_while_running(&mut pause, 10).unwrap_err();
    assert_eq!(error.message(), "the number of attempts cannot be read");
    assert_eq!(shared.borrow().ticks, 0);
}

#[test]
fn unregistered_type_constructs_no_node() {
    let shared = Rc::new(RefCell::new(Counters::default()));
    let mut factory = factory_with(&["DummyNode"], &shared);
    factory
        .register_bt_from_text(
            "<root><BehaviorTree ID=\"main\"><Sequence><DummyNode foo=\"1\"/><Missing/></Sequence></BehaviorTree></root>",
        )
        .unwrap();
    let result = factory.instantiate_tree(Blackboard::new(), "main");
    assert!(matches!(result, Err(BuildError::UnknownNodeType)));
    assert_eq!(shared.borrow().constructed, 0);
}

#[test]
fn mutual_subtrees_are_cyclic() {
    let shared = Rc::new(RefCell::new(Counters::default()));
    let mut factory = factory_with(&["DummyNode"], &shared);
    factory
        .register_bt_from_text(
            "<root>\
               <BehaviorTree ID=\"A\"><Sequence><DummyNode foo=\"1\"/><SubTree ID=\"B\"/></Sequence></BehaviorTree>\
               <BehaviorTree ID=\"B\"><SubTree ID=\"A\"/></BehaviorTree>\
             </root>",
        )
        .unwrap();
    assert!(matches!(
        factory.instantiate_tree(Blackboard::new(), "A"),
        Err(BuildError::CyclicSubTree)
    ));
    assert!(matches!(
        factory.instantiate_tree(Blackboard::new(), "B"),
        Err(BuildError::CyclicSubTree)
    ));
    assert_eq!(shared.borrow().constructed, 0);
}

#[test]
fn a_tree_may_be_used_twice_without_a_cycle() {
    let shared = Rc::new(RefCell::new(Counters::default()));
    let mut factory = factory_with(&["DummyNode"], &shared);
    factory
        .register_bt_from_text(
            "<root>\
               <BehaviorTree ID=\"A\"><Sequence><SubTree ID=\"B\"/><SubTree ID=\"B\"/></Sequence></BehaviorTree>\
               <BehaviorTree ID=\"B\"><DummyNode foo=\"1\"/></BehaviorTree>\
             </root>",
        )
        .unwrap();
    assert_eq!(factory.check_tree("A"), Ok(()));
    assert_eq!(shared.borrow().constructed, 0);
    let tree = factory.instantiate_tree(Blackboard::new(), "A").unwrap();
    assert_eq!(tree.root().child_count(), 2);
    assert_eq!(shared.borrow().constructed, 2);
}

#[test]
fn build_errors() {
    let shared = Rc::new(RefCell::new(Counters::default()));
    let mut factory = factory_with(&["DummyNode"], &shared);
    factory
        .register_bt_from_text(
            "<root>\
               <BehaviorTree ID=\"port\"><DummyNode baz=\"1\"/></BehaviorTree>\
               <BehaviorTree ID=\"sub\"><SubTree ID=\"nowhere\"/></BehaviorTree>\
               <BehaviorTree ID=\"noid\"><SubTree/></BehaviorTree>\
               <BehaviorTree ID=\"leaf\"><DummyNode><DummyNode/></DummyNode></BehaviorTree>\
               <BehaviorTree ID=\"deco\"><Inverter/></BehaviorTree>\
               <BehaviorTree ID=\"subport\"><SubTree ID=\"port\" x=\"1\"/></BehaviorTree>\
               <BehaviorTree ID=\"order\"><Sequence><DummyNode baz=\"1\"/><Missing/></Sequence></BehaviorTree>\
             </root>",
        )
        .unwrap();
    assert_eq!(factory.check_tree("port"), Err(BuildError::Port(PortError::UnknownPort)));
    assert_eq!(factory.check_tree("absent"), Err(BuildError::UnknownSubTree));
    let make = |id: &str| factory.instantiate_tree(Blackboard::new(), id).err();
    assert_eq!(make("port"), Some(BuildError::Port(PortError::UnknownPort)));
    assert_eq!(make("sub"), Some(BuildError::UnknownSubTree));
    assert_eq!(make("noid"), Some(BuildError::UnknownSubTree));
    assert_eq!(make("leaf"), Some(BuildError::InvalidChildren));
    assert_eq!(make("deco"), Some(BuildError::InvalidChildren));
    assert_eq!(make("subport"), Some(BuildError::Port(PortError::UnknownPort)));
    assert_eq!(make("order"), Some(BuildError::Port(PortError::UnknownPort)));
    assert_eq!(make("absent"), Some(BuildError::UnknownSubTree));
    assert_eq!(shared.borrow().constructed, 0);
}

#[test]
fn an_identifier_is_registered_once() {
    let shared = Rc::new(RefCell::new(Counters::default()));
    let mut factory = factory_with(&["DummyNode"], &shared);
    let again = factory.register("DummyNode", MakeDummy { shared: shared.clone() }, dummy_manifest());
    assert_eq!(again, Err(BuildError::DuplicateRegistration));
    let builtin = factory.register("Sequence", MakeDummy { shared: shared.clone() }, dummy_manifest());
    assert_eq!(builtin, Err(BuildError::DuplicateRegistration));
    let reserved = factory.register("SubTree", MakeDummy { shared: shared.clone() }, dummy_manifest());
    assert_eq!(reserved, Err(BuildError::DuplicateRegistration));
    assert_eq!(
        factory.register("Other", MakeDummy { shared: shared.clone() }, dummy_manifest()),
        Ok(())
    );
    assert!(factory.is_registered("Other"));
    assert!(factory.is_registered("Fallback"));
    assert!(factory.is_registered("Parallel"));
    assert!(factory.is_registered("Inverter"));
    assert!(factory.is_registered("RetryUntilSuccessful"));
    assert!(factory.is_registered("SkipIf"));
    assert!(!factory.is_registered("Missing"));
    assert_eq!(factory.manifest("Other").unwrap().registration_id(), "Other");
    assert_eq!(factory.manifest("Parallel").unwrap().node_type(), NodeType::Control);
    assert!(factory.manifest("Parallel").unwrap().ports().contains_key("success_count"));
    assert!(factory.manifest("Missing").is_none());
}

#[test]
fn a_condition_type_makes_conditions() {
    let shared = Rc::new(RefCell::new(Counters::default()));
    let mut factory: Factory<MakeDummy> = Factory::new();
    let manifest = TreeNodeManifest::new(NodeType::Condition, "", define_ports(vec![Port::input("foo")]), "");
    factory.register("Check", MakeDummy { shared: shared.clone() }, manifest).unwrap();
    factory
        .register_bt_from_text("<root><BehaviorTree ID=\"t\"><Check foo=\"x\"/></BehaviorTree></root>")
        .unwrap();
    let mut tree = factory.instantiate_tree(Blackboard::new(), "t").unwrap();
    assert_eq!(tree.root().node_type(), NodeType::Condition);
    assert!(tree.tick_once().is_err());
}

#[test]
fn tree_names_are_unique_in_a_factory() {
    let shared = Rc::new(RefCell::new(Counters::default()));
    let mut factory = factory_with(&["DummyNode"], &shared);
    let text = "<root><BehaviorTree ID=\"t\"><DummyNode/></BehaviorTree></root>";
    assert_eq!(factory.register_bt_from_text(text), Ok(()));
    assert_eq!(factory.register_bt_from_text(text), Err(ParseError::DuplicateTreeId));
    assert_eq!(factory.tree_count(), 1);
    assert_eq!(factory.register_bt_from_text("<root>"), Err(ParseError::UnexpectedEnd));
    let document = TreeDocument::from_element(
        Element::new("root").with_child(
            Element::new("BehaviorTree")
                .with_attribute("ID", "u")
                .with_child(Element::new("DummyNode").with_attribute("foo", "1")),
        ),
    )
    .unwrap();
    assert_eq!(factory.register_document(document), Ok(()));
    assert_eq!(factory.tree_count(), 2);
    assert!(factory.instantiate_tree(Blackboard::new(), "u").is_ok());
}

#[test]
fn elements_are_read_from_text() {
    let element = parse_xml(" <a x=\"1\" y = '2'><b/><!-- c --><c  z=\"\"></c ></a>\n").unwrap();
    assert_eq!(element.tag(), "a");
    assert_eq!(element.attribute_count(), 2);
    assert_eq!(element.attribute_at(0), ("x", "1"));
    assert_eq!(element.attribute_at(1), ("y", "2"));
    assert_eq!(element.attribute("y"), Some("2"));
    assert_eq!(element.attribute("z"), None);
    assert_eq!(element.child_count(), 2);
    assert_eq!(element.child(0).tag(), "b");
    assert_eq!(element.child(1).tag(), "c");
    assert_eq!(element.child(1).attribute("z"), Some(""));
    let quoted = parse_xml("<a x=\"it's\" y='say \"hi\"'/>").unwrap();
    assert_eq!(quoted.attribute("x"), Some("it's"));
    assert_eq!(quoted.attribute("y"), Some("say \"hi\""));
}

#[test]
fn malformed_text_is_refused() {
    let error = |text: &str| parse_xml(text).err();
    assert_eq!(error(""), Some(ParseError::UnexpectedEnd));
    assert_eq!(error("text"), Some(ParseError::ExpectedElement));
    assert_eq!(error("< a/>"), Some(ParseError::InvalidName));
    assert_eq!(error("<1a/>"), Some(ParseError::InvalidName));
    assert_eq!(error("<a x/>"), Some(ParseError::ExpectedEquals));
    assert_eq!(error("<a x=1/>"), Some(ParseError::ExpectedQuote));
    assert_eq!(error("<a x=\"1/>"), Some(ParseError::UnterminatedValue));
    assert_eq!(error("<a x=\"1'/>"), Some(ParseError::UnterminatedValue));
    assert_eq!(error("<a"), Some(ParseError::ExpectedTagEnd));
    assert_eq!(error("<a x=\"1\"y=\"2\"/>"), Some(ParseError::ExpectedTagEnd));
    assert_eq!(error("<a>"), Some(ParseError::UnexpectedEnd));
    assert_eq!(error("<a></b>"), Some(ParseError::MismatchedEndTag));
    assert_eq!(error("<a></a"), Some(ParseError::ExpectedTagEnd));
    assert_eq!(error("<a>text</a>"), Some(ParseError::ExpectedElement));
    assert_eq!(error("<a/><b/>"), Some(ParseError::TrailingContent));
    assert_eq!(error("<a/> x"), Some(ParseError::TrailingContent));
    assert_eq!(error("<a><!-- open</a>"), Some(ParseError::InvalidName));
    assert!(parse_xml("<?xml version=\"1.0\"?><!-- c --><a/><!-- d -->").is_ok());
}

#[test]
fn documents_follow_the_schema() {
    let error = |text: &str| parse(text).err();
    assert_eq!(error("<tree/>"), Some(ParseError::MissingRoot));
    assert_eq!(error("<root><Tree ID=\"a\"><x/></Tree></root>"), Some(ParseError::UnexpectedElement));
    assert_eq!(error("<root><BehaviorTree><x/></BehaviorTree></root>"), Some(ParseError::MissingTreeId));
    assert_eq!(error("<root><BehaviorTree ID=\"a\"/></root>"), Some(ParseError::InvalidTreeBody));
    assert_eq!(
        error("<root><BehaviorTree ID=\"a\"><x/><y/></BehaviorTree></root>"),
        Some(ParseError::InvalidTreeBody)
    );
    assert_eq!(
        error("<root><BehaviorTree ID=\"a\"><x/></BehaviorTree><BehaviorTree ID=\"a\"><y/></BehaviorTree></root>"),
        Some(ParseError::DuplicateTreeId)
    );
    assert_eq!(error("<root><BehaviorTree ID=\"a\"><x></BehaviorTree></root>"), Some(ParseError::MismatchedEndTag));
    let document = parse("<root><BehaviorTree ID=\"a\"><x/></BehaviorTree><BehaviorTree ID=\"b\"><y/></BehaviorTree></root>").unwrap();
    assert_eq!(document.tree_count(), 2);
    assert_eq!(document.tree(0).id(), "a");
    assert_eq!(document.tree(1).id(), "b");
    assert_eq!(document.tree(1).root().tag(), "y");
    assert_eq!(parse("<root/>").unwrap().tree_count(), 0);
    let definition = TreeDefinition::new("t", Element::new("x"));
    assert_eq!(definition.id(), "t");
    let tree: Tree<DummyActionNode> = Tree::new(
        bt_cpp_rust::nodes::Node::control(
            "r",
            "Sequence",
            NodeConfig::new(&define_ports(vec![])),
            bt_cpp_rust::nodes::ControlPolicy::Sequence,
            vec![],
        ),
        Blackboard::new(),
    );
    assert_eq!(tree.status(), NodeStatus::Idle);
}

#[test]
fn elements_are_written_without_spare_space() {
    let element = Element::new("Sequence")
        .with_attribute("name", "top")
        .with_child(Element::new("DummyNode").with_attribute("foo", "{foo}").with_attribute("bar", ""))
        .with_child(Element::new("Inverter").with_child(Element::new("Check")));
    let text = element_to_text(&element);
    assert_eq!(
        text,
        "<Sequence name=\"top\"><DummyNode foo=\"{foo}\" bar=\"\"/><Inverter><Check/></Inverter></Sequence>"
    );
    let mut out = String::from("x");
    write_element(&Element::new("a"), &mut out);
    assert_eq!(out, "x<a/>");
}

#[test]
fn reading_what_was_written_gives_the_element_back() {
    let element = Element::new("root").with_child(
        Element::new("BehaviorTree")
            .with_attribute("ID", "main")
            .with_child(
                Element::new("Fallback")
                    .with_child(Element::new("A").with_attribute("x", "1;2"))
                    .with_child(Element::new("B").with_attribute("y", "it's")),
            ),
    );
    let text = element_to_text(&element);
    let back = parse_xml(&text).unwrap();
    assert_eq!(element_to_text(&back), text);
    assert_eq!(back.tag(), "root");
    assert_eq!(back.child(0).attribute("ID"), Some("main"));
    assert_eq!(back.child(0).child(0).child(1).attribute("y"), Some("it's"));
    assert_eq!(parse(&text).unwrap().tree(0).id(), "main");
}
