use std::cell::RefCell;
use std::rc::Rc;

use bt_cpp_rust::basic_types::{define_ports, NodeStatus, NodeType, Port, PortsList};
use bt_cpp_rust::blackboard::Blackboard;
use bt_cpp_rust::nodes::{
    check_leaf_status, control_step, decorator_step, exhausted, leaf_call, leaf_outcome,
    parallel_outcome, read_thresholds, threshold, ControlPolicy, DecoratorPolicy, ErrorCause,
    LeafCall, LeafKind, Node, NodeError, Step, TreeNode,
};
use bt_cpp_rust::ports::{NodeConfig, PortError};
use bt_cpp_rust::text_map::TextMap;

/// A leaf that gives the answers of a script, one per call, and notes
/// every call.
struct Scripted {
    label: String,
    answers: Vec<NodeStatus>,
    next: usize,
    log: Rc<RefCell<Vec<String>>>,
}

impl Scripted {
    fn answer(&mut self, call: &str) -> Result<NodeStatus, NodeError> {
        self.log.borrow_mut().push(format!("{}:{}", self.label, call));
        let status = self.answers[self.next.min(self.answers.len() - 1)];
        self.next += 1;
        Ok(status)
    }
}

impl TreeNode for Scripted {
    fn tick(&mut self, _config: &NodeConfig, _blackboard: &mut Blackboard) -> Result<NodeStatus, NodeError> {
        self.answer("tick")
    }

    fn on_start(&mut self, _config: &NodeConfig, _blackboard: &mut Blackboard) -> Result<NodeStatus, NodeError> {
        self.answer("start")
    }

    fn on_running(&mut self, _config: &NodeConfig, _blackboard: &mut Blackboard) -> Result<NodeStatus, NodeError> {
        self.answer("running")
    }

    fn on_halted(&mut self, _config: &NodeConfig, _blackboard: &mut Blackboard) {
        self.log.borrow_mut().push(format!("{}:halted", self.label));
    }
}

fn no_ports() -> PortsList {
    TextMap::new()
}

fn leaf(label: &str, kind: LeafKind, answers: Vec<NodeStatus>, log: &Rc<RefCell<Vec<String>>>) -> Node<Scripted> {
    let behavior = Scripted { label: String::from(label), answers, next: 0, log: log.clone() };
    Node::leaf(label, "Scripted", NodeConfig::new(&no_ports()), kind, behavior)
}

fn action(label: &str, answers: Vec<NodeStatus>, log: &Rc<RefCell<Vec<String>>>) -> Node<Scripted> {
    leaf(label, LeafKind::Action, answers, log)
}

fn control(policy: ControlPolicy, children: Vec<Node<Scripted>>) -> Node<Scripted> {
    Node::control("control", "Control", NodeConfig::new(&no_ports()), policy, children)
}

fn calls(log: &Rc<RefCell<Vec<String>>>) -> Vec<String> {
    log.borrow().clone()
}

use NodeStatus::{Failure, Idle, Running, Skipped, Success};

#[test]
fn policy_of_a_sequence() {
    assert_eq!(control_step(ControlPolicy::Sequence, Success), Step::Advance);
    assert_eq!(control_step(ControlPolicy::Sequence, Skipped), Step::Advance);
    assert_eq!(control_step(ControlPolicy::Sequence, Running), Step::Yield);
    assert_eq!(control_step(ControlPolicy::Sequence, Failure), Step::Conclude(Failure));
    assert_eq!(control_step(ControlPolicy::Sequence, Idle), Step::Conclude(Failure));
    assert_eq!(exhausted(ControlPolicy::Sequence), Success);
}

#[test]
fn policy_of_a_fallback() {
    assert_eq!(control_step(ControlPolicy::Fallback, Failure), Step::Advance);
    assert_eq!(control_step(ControlPolicy::Fallback, Skipped), Step::Advance);
    assert_eq!(control_step(ControlPolicy::Fallback, Running), Step::Yield);
    assert_eq!(control_step(ControlPolicy::Fallback, Success), Step::Conclude(Success));
    assert_eq!(exhausted(ControlPolicy::Fallback), Failure);
}

#[test]
fn policy_of_a_parallel() {
    assert_eq!(parallel_outcome(2, 0, 1, 2, 1), Success);
    assert_eq!(parallel_outcome(1, 1, 1, 2, 1), Failure);
    assert_eq!(parallel_outcome(1, 0, 2, 2, 1), Running);
    assert_eq!(parallel_outcome(1, 0, 0, 2, 3), Failure);
    assert_eq!(parallel_outcome(0, 0, 0, 0, 1), Success);
    assert_eq!(threshold(Ok(3), 7), Ok(3));
    assert_eq!(threshold(Err(PortError::PortNotResolved), 7), Ok(7));
    assert_eq!(threshold(Err(PortError::PortNotDeclared), 7), Ok(7));
    assert_eq!(threshold(Err(PortError::Conversion), 7), Err(PortError::Conversion));
}

#[test]
fn policy_of_the_decorators() {
    assert_eq!(decorator_step(DecoratorPolicy::Inverter, Success, 0, 0), Step::Conclude(Failure));
    assert_eq!(decorator_step(DecoratorPolicy::Inverter, Failure, 0, 0), Step::Conclude(Success));
    assert_eq!(decorator_step(DecoratorPolicy::Inverter, Running, 0, 0), Step::Yield);
    assert_eq!(decorator_step(DecoratorPolicy::Inverter, Skipped, 0, 0), Step::Conclude(Skipped));
    assert_eq!(decorator_step(DecoratorPolicy::Retry, Failure, 0, 3), Step::Again);
    assert_eq!(decorator_step(DecoratorPolicy::Retry, Failure, 1, 3), Step::Again);
    assert_eq!(decorator_step(DecoratorPolicy::Retry, Failure, 2, 3), Step::Conclude(Failure));
    assert_eq!(decorator_step(DecoratorPolicy::Retry, Failure, 0, 0), Step::Conclude(Failure));
    assert_eq!(
        decorator_step(DecoratorPolicy::Retry, Failure, u32::MAX, u32::MAX),
        Step::Conclude(Failure)
    );
    assert_eq!(decorator_step(DecoratorPolicy::Retry, Success, 1, 3), Step::Conclude(Success));
    assert_eq!(decorator_step(DecoratorPolicy::SkipIf, Failure, 0, 0), Step::Conclude(Failure));
    assert_eq!(decorator_step(DecoratorPolicy::SkipIf, Success, 0, 0), Step::Conclude(Success));
}

#[test]
fn what_a_leaf_may_answer() {
    assert!(!check_leaf_status(LeafKind::Action, Idle, Idle));
    assert!(check_leaf_status(LeafKind::Action, Idle, Running));
    assert!(check_leaf_status(LeafKind::Action, Idle, Skipped));
    assert!(!check_leaf_status(LeafKind::Action, Running, Skipped));
    assert!(!check_leaf_status(LeafKind::Condition, Idle, Running));
    assert!(!check_leaf_status(LeafKind::Condition, Idle, Skipped));
    assert!(check_leaf_status(LeafKind::Condition, Idle, Success));
    assert!(check_leaf_status(LeafKind::Condition, Idle, Failure));
    assert_eq!(leaf_call(LeafKind::Action, Running), LeafCall::Tick);
    assert_eq!(leaf_call(LeafKind::Condition, Idle), LeafCall::Tick);
    assert_eq!(leaf_call(LeafKind::StatefulAction, Idle), LeafCall::OnStart);
    assert_eq!(leaf_call(LeafKind::StatefulAction, Running), LeafCall::OnRunning);
    assert_eq!(leaf_call(LeafKind::StatefulAction, Success), LeafCall::OnStart);
}

#[test]
fn a_condition_never_reports_running() {
    let log = Rc::new(RefCell::new(Vec::new()));
    let mut blackboard = Blackboard::new();
    let mut node = leaf("c", LeafKind::Condition, vec![Running], &log);
    let error = node.tick(&mut blackboard).unwrap_err();
    assert_eq!(error.cause(), Some(ErrorCause::Status(Running)));
    assert_eq!(error.message(), "a leaf answered with a status that it may not give");
    assert_eq!(node.status(), Idle);
    let mut node = leaf("c", LeafKind::Condition, vec![Success], &log);
    assert_eq!(node.tick(&mut blackboard).unwrap(), Success);
    assert_eq!(node.status(), Success);
    assert_eq!(node.node_type(), NodeType::Condition);
}

#[test]
fn no_leaf_reports_idle() {
    let log = Rc::new(RefCell::new(Vec::new()));
    let mut blackboard = Blackboard::new();
    let mut node = action("a", vec![Idle], &log);
    let error = node.tick(&mut blackboard).unwrap_err();
    assert_eq!(error.cause(), Some(ErrorCause::Status(Idle)));
}

#[test]
fn sequence_waits_on_the_running_child() {
    let log = Rc::new(RefCell::new(Vec::new()));
    let mut blackboard = Blackboard::new();
    let mut node = control(
        ControlPolicy::Sequence,
        vec![
            action("one", vec![Success], &log),
            action("two", vec![Running, Success], &log),
            action("three", vec![Success], &log),
        ],
    );
    assert_eq!(node.tick(&mut blackboard).unwrap(), Running);
    assert_eq!(calls(&log), vec!["one:tick", "two:tick"]);
    assert_eq!(node.status(), Running);
    assert_eq!(node.child(0).status(), Success);
    assert_eq!(node.child(1).status(), Running);
    assert_eq!(node.child(2).status(), Idle);
    assert_eq!(node.tick(&mut blackboard).unwrap(), Success);
    assert_eq!(calls(&log), vec!["one:tick", "two:tick", "two:tick", "three:tick"]);
    assert_eq!(node.status(), Success);
    for at in 0..3 {
        assert_eq!(node.child(at).status(), Success);
    }
}

#[test]
fn sequence_fails_with_the_first_failing_child() {
    let log = Rc::new(RefCell::new(Vec::new()));
    let mut blackboard = Blackboard::new();
    let mut node = control(
        ControlPolicy::Sequence,
        vec![
            action("one", vec![Success], &log),
            action("two", vec![Failure], &log),
            action("three", vec![Success], &log),
        ],
    );
    assert_eq!(node.tick(&mut blackboard).unwrap(), Failure);
    assert_eq!(calls(&log), vec!["one:tick", "two:tick"]);
    assert_eq!(node.child(0).status(), Success);
    assert_eq!(node.child(1).status(), Failure);
    assert_eq!(node.child(2).status(), Idle);
}

#[test]
fn a_concluded_node_starts_anew_with_its_children_at_rest() {
    let log = Rc::new(RefCell::new(Vec::new()));
    let mut blackboard = Blackboard::new();
    let mut node = control(
        ControlPolicy::Sequence,
        vec![
            action("one", vec![Success, Failure], &log),
            action("two", vec![Success], &log),
        ],
    );
    assert_eq!(node.tick(&mut blackboard).unwrap(), Success);
    assert_eq!(node.child(1).status(), Success);
    assert_eq!(node.tick(&mut blackboard).unwrap(), Failure);
    assert_eq!(node.child(0).status(), Failure);
    assert_eq!(node.child(1).status(), Idle);
    assert_eq!(calls(&log), vec!["one:tick", "two:tick", "one:tick"]);
}

#[test]
fn sequence_starts_again_after_it_has_concluded() {
    let log = Rc::new(RefCell::new(Vec::new()));
    let mut blackboard = Blackboard::new();
    let mut node = control(
        ControlPolicy::Sequence,
        vec![action("one", vec![Success], &log), action("two", vec![Success], &log)],
    );
    assert_eq!(node.tick(&mut blackboard).unwrap(), Success);
    assert_eq!(node.tick(&mut blackboard).unwrap(), Success);
    assert_eq!(calls(&log), vec!["one:tick", "two:tick", "one:tick", "two:tick"]);
}

#[test]
fn empty_sequence_succeeds_and_empty_fallback_fails() {
    let mut blackboard = Blackboard::new();
    let mut node = control(ControlPolicy::Sequence, vec![]);
    assert_eq!(node.tick(&mut blackboard).unwrap(), Success);
    let mut node = control(ControlPolicy::Fallback, vec![]);
    assert_eq!(node.tick(&mut blackboard).unwrap(), Failure);
    assert_eq!(node.child_count(), 0);
}

#[test]
fn fallback_stops_at_the_first_success() {
    let log = Rc::new(RefCell::new(Vec::new()));
    let mut blackboard = Blackboard::new();
    let mut node = control(
        ControlPolicy::Fallback,
        vec![
            action("one", vec![Failure], &log),
            action("two", vec![Success], &log),
            action("three", vec![Success], &log),
        ],
    );
    assert_eq!(node.tick(&mut blackboard).unwrap(), Success);
    assert_eq!(calls(&log), vec!["one:tick", "two:tick"]);
    assert_eq!(node.child(0).status(), Failure);
    assert_eq!(node.child(1).status(), Success);
    assert_eq!(node.child(2).status(), Idle);
}

#[test]
fn fallback_fails_when_all_fail() {
    let log = Rc::new(RefCell::new(Vec::new()));
    let mut blackboard = Blackboard::new();
    let mut node = control(
        ControlPolicy::Fallback,
        vec![action("one", vec![Failure], &log), action("two", vec![Failure], &log)],
    );
    assert_eq!(node.tick(&mut blackboard).unwrap(), Failure);
    assert_eq!(calls(&log), vec!["one:tick", "two:tick"]);
}

fn parallel(children: Vec<Node<Scripted>>, success: &str, failure: &str) -> Node<Scripted> {
    let ports = define_ports(vec![Port::input("success_count"), Port::input("failure_count")]);
    let mut config = NodeConfig::new(&ports);
    if !success.is_empty() {
        config.bind("success_count", success).unwrap();
    }
    if !failure.is_empty() {
        config.bind("failure_count", failure).unwrap();
    }
    Node::control("parallel", "Parallel", config, ControlPolicy::Parallel, children)
}

#[test]
fn parallel_ticks_every_child_in_a_round() {
    let log = Rc::new(RefCell::new(Vec::new()));
    let mut blackboard = Blackboard::new();
    let mut node = parallel(
        vec![
            action("one", vec![Running, Success], &log),
            action("two", vec![Success], &log),
            action("three", vec![Running, Running, Success], &log),
        ],
        "2",
        "",
    );
    assert_eq!(node.tick(&mut blackboard).unwrap(), Running);
    assert_eq!(calls(&log), vec!["one:tick", "two:tick", "three:tick"]);
    assert_eq!(node.tick(&mut blackboard).unwrap(), Success);
    assert_eq!(
        calls(&log),
        vec!["one:tick", "two:tick", "three:tick", "one:tick", "three:tick", "three:halted"]
    );
    assert_eq!(node.child(0).status(), Success);
    assert_eq!(node.child(1).status(), Success);
    assert_eq!(node.child(2).status(), Idle);
}

#[test]
fn parallel_fails_at_the_failure_threshold() {
    let log = Rc::new(RefCell::new(Vec::new()));
    let mut blackboard = Blackboard::new();
    let mut node = parallel(
        vec![action("one", vec![Failure], &log), action("two", vec![Running], &log)],
        "",
        "",
    );
    assert_eq!(node.tick(&mut blackboard).unwrap(), Failure);
    assert_eq!(calls(&log), vec!["one:tick", "two:tick", "two:halted"]);
}

#[test]
fn parallel_thresholds_can_come_from_the_blackboard() {
    let log = Rc::new(RefCell::new(Vec::new()));
    let mut blackboard = Blackboard::new();
    let mut node = parallel(
        vec![action("one", vec![Success], &log), action("two", vec![Running], &log)],
        "{enough}",
        "",
    );
    let error = node.tick(&mut blackboard).unwrap_err();
    assert!(matches!(error.cause(), Some(ErrorCause::Port(PortError::Blackboard(_)))));
    blackboard.write("enough", 1usize);
    assert_eq!(node.tick(&mut blackboard).unwrap(), Success);
}

fn decorator(policy: DecoratorPolicy, port: &str, value: &str, child: Node<Scripted>) -> Node<Scripted> {
    let ports = if port.is_empty() { no_ports() } else { define_ports(vec![Port::input(port)]) };
    let mut config = NodeConfig::new(&ports);
    if !port.is_empty() && !value.is_empty() {
        config.bind(port, value).unwrap();
    }
    Node::decorator("decorator", "Decorator", config, policy, child)
}

#[test]
fn inverter_swaps_success_and_failure() {
    let log = Rc::new(RefCell::new(Vec::new()));
    let mut blackboard = Blackboard::new();
    let mut node = decorator(DecoratorPolicy::Inverter, "", "", action("a", vec![Success], &log));
    assert_eq!(node.tick(&mut blackboard).unwrap(), Failure);
    let mut node = decorator(DecoratorPolicy::Inverter, "", "", action("a", vec![Failure], &log));
    assert_eq!(node.tick(&mut blackboard).unwrap(), Success);
    let mut node =
        decorator(DecoratorPolicy::Inverter, "", "", action("a", vec![Running, Failure], &log));
    assert_eq!(node.tick(&mut blackboard).unwrap(), Running);
    assert_eq!(node.child(0).status(), Running);
    assert_eq!(node.tick(&mut blackboard).unwrap(), Success);
    assert_eq!(node.child(0).status(), Failure);
    assert_eq!(node.node_type(), NodeType::Decorator);
    assert_eq!(node.child_count(), 1);
}

#[test]
fn retry_starts_a_failing_child_again() {
    let log = Rc::new(RefCell::new(Vec::new()));
    let mut blackboard = Blackboard::new();
    let mut node = decorator(
        DecoratorPolicy::Retry,
        "num_attempts",
        "3",
        action("a", vec![Failure, Failure, Success], &log),
    );
    assert_eq!(node.tick(&mut blackboard).unwrap(), Running);
    assert_eq!(node.tick(&mut blackboard).unwrap(), Running);
    assert_eq!(node.tick(&mut blackboard).unwrap(), Success);
    assert_eq!(calls(&log).len(), 3);
    let mut node = decorator(
        DecoratorPolicy::Retry,
        "num_attempts",
        "2",
        action("b", vec![Failure], &log),
    );
    assert_eq!(node.tick(&mut blackboard).unwrap(), Running);
    assert_eq!(node.tick(&mut blackboard).unwrap(), Failure);
    let mut node = decorator(DecoratorPolicy::Retry, "num_attempts", "", action("c", vec![Failure], &log));
    let error = node.tick(&mut blackboard).unwrap_err();
    assert_eq!(error.cause(), Some(ErrorCause::Port(PortError::PortNotResolved)));
}

#[test]
fn gate_skips_its_child() {
    let log = Rc::new(RefCell::new(Vec::new()));
    let mut blackboard = Blackboard::new();
    blackboard.write("flag", true);
    let mut node =
        decorator(DecoratorPolicy::SkipIf, "condition", "{flag}", action("a", vec![Success], &log));
    assert_eq!(node.tick(&mut blackboard).unwrap(), Skipped);
    assert!(calls(&log).is_empty());
    assert_eq!(node.status(), Skipped);
    blackboard.write("flag", false);
    assert_eq!(node.tick(&mut blackboard).unwrap(), Success);
    assert_eq!(calls(&log), vec!["a:tick"]);
}

#[test]
fn a_skipped_child_is_passed_over() {
    let log = Rc::new(RefCell::new(Vec::new()));
    let mut blackboard = Blackboard::new();
    let mut node = control(
        ControlPolicy::Sequence,
        vec![
            decorator(DecoratorPolicy::SkipIf, "condition", "1", action("a", vec![Failure], &log)),
            action("b", vec![Success], &log),
        ],
    );
    assert_eq!(node.tick(&mut blackboard).unwrap(), Success);
    assert_eq!(calls(&log), vec!["b:tick"]);
}

#[test]
fn halt_of_a_running_stateful_action() {
    let log = Rc::new(RefCell::new(Vec::new()));
    let mut blackboard = Blackboard::new();
    let mut node = leaf("s", LeafKind::StatefulAction, vec![Running, Running, Success], &log);
    assert_eq!(node.tick(&mut blackboard).unwrap(), Running);
    assert_eq!(node.tick(&mut blackboard).unwrap(), Running);
    assert_eq!(calls(&log), vec!["s:start", "s:running"]);
    node.halt(&mut blackboard);
    assert_eq!(node.status(), Idle);
    assert_eq!(calls(&log), vec!["s:start", "s:running", "s:halted"]);
    assert_eq!(node.tick(&mut blackboard).unwrap(), Success);
    assert_eq!(calls(&log), vec!["s:start", "s:running", "s:halted", "s:start"]);
}

#[test]
fn halt_of_a_node_that_is_not_running_calls_nothing() {
    let log = Rc::new(RefCell::new(Vec::new()));
    let mut blackboard = Blackboard::new();
    let mut node = leaf("s", LeafKind::StatefulAction, vec![Success], &log);
    node.halt(&mut blackboard);
    assert_eq!(node.status(), Idle);
    assert_eq!(node.tick(&mut blackboard).unwrap(), Success);
    node.halt(&mut blackboard);
    assert_eq!(node.status(), Idle);
    assert_eq!(calls(&log), vec!["s:start"]);
}

#[test]
fn halt_reaches_the_children_first() {
    let log = Rc::new(RefCell::new(Vec::new()));
    let mut blackboard = Blackboard::new();
    let inner = control(
        ControlPolicy::Sequence,
        vec![action("one", vec![Success], &log), action("two", vec![Running], &log)],
    );
    let mut node = Node::subtree("sub", "SubTree", NodeConfig::new(&no_ports()), inner);
    assert_eq!(node.tick(&mut blackboard).unwrap(), Running);
    assert_eq!(node.child(0).child(1).status(), Running);
    node.halt(&mut blackboard);
    assert_eq!(calls(&log), vec!["one:tick", "two:tick", "two:halted"]);
    assert_eq!(node.status(), Idle);
    assert_eq!(node.child(0).status(), Idle);
    assert_eq!(node.child(0).child(0).status(), Idle);
    assert_eq!(node.child(0).child(1).status(), Idle);
    assert_eq!(node.node_type(), NodeType::SubTree);
}

#[test]
fn an_error_of_a_leaf_comes_up_unchanged() {
    struct Failing;
    impl TreeNode for Failing {
        fn tick(&mut self, _config: &NodeConfig, _blackboard: &mut Blackboard) -> Result<NodeStatus, NodeError> {
            Err(NodeError::new("broken"))
        }
    }
    let mut blackboard = Blackboard::new();
    let inner = Node::leaf("f", "Failing", NodeConfig::new(&no_ports()), LeafKind::Action, Failing);
    let mut node = Node::control(
        "seq",
        "Sequence",
        NodeConfig::new(&no_ports()),
        ControlPolicy::Sequence,
        vec![inner],
    );
    let error = node.tick(&mut blackboard).unwrap_err();
    assert_eq!(error.message(), "broken");
    assert_eq!(error.cause(), None);
    assert_eq!(node.name(), "seq");
    assert_eq!(node.registration_id(), "Sequence");
    assert_eq!(node.child(0).name(), "f");
    assert!(!node.config().declares("x"));
    assert!(!node.provided_ports().contains_key("x"));
}

#[test]
fn what_a_tick_makes_of_a_leaf_s_answer() {
    assert_eq!(leaf_outcome(LeafKind::Action, Idle, Ok(Running)).unwrap(), Running);
    assert_eq!(leaf_outcome(LeafKind::Condition, Idle, Ok(Failure)).unwrap(), Failure);
    let refused = leaf_outcome(LeafKind::Condition, Idle, Ok(Running)).unwrap_err();
    assert_eq!(refused.message(), "a leaf answered with a status that it may not give");
    assert_eq!(refused.cause(), Some(ErrorCause::Status(Running)));
    let refused = leaf_outcome(LeafKind::StatefulAction, Running, Ok(Skipped)).unwrap_err();
    assert_eq!(refused.cause(), Some(ErrorCause::Status(Skipped)));
    let passed = leaf_outcome(LeafKind::Action, Idle, Err(NodeError::new("broken"))).unwrap_err();
    assert_eq!(passed.message(), "broken");
    assert_eq!(passed.cause(), None);
}

#[test]
fn thresholds_are_read_before_anything_changes() {
    let ports = define_ports(vec![Port::input("success_count"), Port::input("failure_count")]);
    let mut blackboard = Blackboard::new();
    let unbound = NodeConfig::new(&ports);
    assert_eq!(read_thresholds(&unbound, 5, &blackboard).unwrap(), (5, 1));
    let mut bound = NodeConfig::new(&ports);
    bound.bind("success_count", "2").unwrap();
    bound.bind("failure_count", "{limit}").unwrap();
    let error = read_thresholds(&bound, 5, &blackboard).unwrap_err();
    assert_eq!(error.message(), "the failure threshold cannot be read");
    assert!(matches!(error.cause(), Some(ErrorCause::Port(PortError::Blackboard(_)))));
    blackboard.write("limit", 3usize);
    assert_eq!(read_thresholds(&bound, 5, &blackboard).unwrap(), (2, 3));
    let mut broken = NodeConfig::new(&ports);
    broken.bind("success_count", "many").unwrap();
    let error = read_thresholds(&broken, 5, &blackboard).unwrap_err();
    assert_eq!(error.message(), "the success threshold cannot be read");
    assert_eq!(error.cause(), Some(ErrorCause::Port(PortError::Conversion)));
    assert_eq!(read_thresholds(&NodeConfig::new(&no_ports()), 0, &blackboard).unwrap(), (0, 1));
}

#[test]
fn a_node_that_cannot_read_its_ports_is_left_as_it_was() {
    let log = Rc::new(RefCell::new(Vec::new()));
    let mut blackboard = Blackboard::new();
    let mut node = parallel(
        vec![action("one", vec![Running], &log), action("two", vec![Success], &log)],
        "{enough}",
        "",
    );
    assert!(node.tick(&mut blackboard).is_err());
    assert_eq!(node.status(), Idle);
    blackboard.write("enough", 2usize);
    assert_eq!(node.tick(&mut blackboard).unwrap(), Running);
    assert_eq!(node.child(0).status(), Running);
    blackboard.write("enough", "two");
    assert!(node.tick(&mut blackboard).is_err());
    assert_eq!(node.status(), Running);
    assert_eq!(node.child(0).status(), Running);
    assert_eq!(node.child(1).status(), Success);
    assert_eq!(calls(&log), vec!["one:tick", "two:tick"]);
    let mut gate = decorator(DecoratorPolicy::SkipIf, "condition", "{flag}", action("a", vec![Success], &log));
    let error = gate.tick(&mut blackboard).unwrap_err();
    assert_eq!(error.message(), "the condition of a gate cannot be read");
    assert_eq!(gate.status(), Idle);
    let mut retry = decorator(DecoratorPolicy::Retry, "num_attempts", "x", action("b", vec![Success], &log));
    let error = retry.tick(&mut blackboard).unwrap_err();
    assert_eq!(error.message(), "the number of attempts cannot be read");
    assert_eq!(error.cause(), Some(ErrorCause::Port(PortError::Conversion)));
    assert_eq!(retry.status(), Idle);
}

#[test]
fn a_failing_child_leaves_its_parents_running() {
    struct Failing;
    impl TreeNode for Failing {
        fn tick(&mut self, _config: &NodeConfig, _blackboard: &mut Blackboard) -> Result<NodeStatus, NodeError> {
            Err(NodeError::new("broken"))
        }
    }
    let mut blackboard = Blackboard::new();
    let leaf = Node::leaf("f", "Failing", NodeConfig::new(&no_ports()), LeafKind::Action, Failing);
    let inner = Node::decorator("i", "Inverter", NodeConfig::new(&no_ports()), DecoratorPolicy::Inverter, leaf);
    let mut node = Node::subtree("s", "SubTree", NodeConfig::new(&no_ports()), inner);
    let error = node.tick(&mut blackboard).unwrap_err();
    assert_eq!(error.message(), "broken");
    assert_eq!(node.status(), Running);
    assert_eq!(node.child(0).status(), Running);
    assert_eq!(node.child(0).child(0).status(), Idle);
}
