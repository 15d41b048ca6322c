//! Nodes: what a node of a tree is, what one tick does to it under each
//! evaluation policy, and how a halt brings it back to rest.
use vstd::prelude::*;
use crate::basic_types::{NodeStatus, NodeType, PortsList, ports_view};
use crate::blackboard::Blackboard;
use crate::ports::{ConfigView, NodeConfig, PortError, input_spec};
use crate::semantics::{
    attempts_given,
    base_of,
    bases_of,
    count_with,
    decorates,
    decorator_round,
    failed,
    failed_below,
    lemma_ordered_settle,
    lemma_parallel_settle,
    lemma_settle_at_rest,
    ordered_failed,
    ordered_round,
    outcome_view,
    own_ports,
    parallel_failed,
    parallel_report,
    parallel_round,
    port_fails,
    port_gives,
    settle,
    settle_all,
    start_of,
    stops_with,
    threshold_given,
    thresholds_decide,
    thresholds_fail,
    thresholds_read,
    thresholds_report,
    ticked,
};

verus! {

/// What lies behind the failure of a tick.
#[derive(Debug, Clone, Copy, PartialEq, Eq, Structural)]
pub enum ErrorCause {
    /// A port that the node needs could not be read or written.
    Port(PortError),
    /// A leaf answered with a status that it may not give.
    Status(NodeStatus),
}

/// The failure of a tick.
#[derive(Debug)]
pub struct NodeError {
    message: String,
    cause: Option<ErrorCause>,
}

/// The model of a [`NodeError`].
pub struct NodeErrorView {
    pub message: Seq<char>,
    pub cause: Option<ErrorCause>,
}

impl View for NodeError {
    type V = NodeErrorView;

    closed spec fn view(&self) -> NodeErrorView {
        NodeErrorView { message: self.message@, cause: self.cause }
    }
}

impl NodeError {
    /// A failure without known cause.
    pub fn new(message: &str) -> (r: NodeError)
        ensures
            r@ == (NodeErrorView { message: message@, cause: None }),
    {
        NodeError { message: message.to_owned(), cause: None }
    }

    /// A failure that has `cause` behind it.
    pub fn caused_by(message: &str, cause: ErrorCause) -> (r: NodeError)
        ensures
            r@ == (NodeErrorView { message: message@, cause: Some(cause) }),
    {
        NodeError { message: message.to_owned(), cause: Some(cause) }
    }

    pub fn message(&self) -> (r: &str)
        ensures
            r@ == self@.message,
    {
        self.message.as_str()
    }

    pub fn cause(&self) -> (r: Option<ErrorCause>)
        ensures
            r == self@.cause,
    {
        self.cause
    }
}

/// What a tick gives: a status, or the failure of the tick.
pub type NodeResult = Result<NodeStatus, NodeError>;

/// What a leaf does. The engine decides which of these is called, hands
/// the leaf its ports and the blackboard, and judges the status that comes
/// back: nothing is taken on trust from an implementation.
pub trait TreeNode: Sized {
    /// One step of an action or of a condition.
    fn tick(&mut self, config: &NodeConfig, blackboard: &mut Blackboard) -> Result<NodeStatus, NodeError>;

    /// The first step of an execution of a stateful action.
    fn on_start(&mut self, config: &NodeConfig, blackboard: &mut Blackboard) -> Result<
        NodeStatus,
        NodeError,
    > {
        self.tick(config, blackboard)
    }

    /// A further step of an execution of a stateful action that is running.
    fn on_running(&mut self, config: &NodeConfig, blackboard: &mut Blackboard) -> Result<
        NodeStatus,
        NodeError,
    > {
        self.tick(config, blackboard)
    }

    /// Told to a leaf whose running execution is called off.
    fn on_halted(&mut self, config: &NodeConfig, blackboard: &mut Blackboard) {
    }
}

/// How a leaf is executed.
#[derive(Debug, Clone, Copy, PartialEq, Eq, Structural)]
pub enum LeafKind {
    /// Ticked until it concludes.
    Action,
    /// Concludes within the tick.
    Condition,
    /// Started once, then continued until it concludes.
    StatefulAction,
}

/// How a control node combines its children.
#[derive(Debug, Clone, Copy, PartialEq, Eq, Structural)]
pub enum ControlPolicy {
    /// One child after the other, as long as they succeed.
    Sequence,
    /// One child after the other, until one succeeds.
    Fallback,
    /// All children in every round, until enough have succeeded or failed.
    Parallel,
}

/// How a decorator treats its child.
#[derive(Debug, Clone, Copy, PartialEq, Eq, Structural)]
pub enum DecoratorPolicy {
    /// Success and failure of the child change places.
    Inverter,
    /// A child that fails is started again, up to a number of attempts.
    Retry,
    /// The child is passed over if a condition holds when it is to start.
    SkipIf,
}

/// The call that a tick of a leaf makes.
#[derive(Debug, Clone, Copy, PartialEq, Eq, Structural)]
pub enum LeafCall {
    Tick,
    OnStart,
    OnRunning,
}

/// What a composite does after a child has answered.
#[derive(Debug, Clone, Copy, PartialEq, Eq, Structural)]
pub enum Step {
    /// Go on to the next child.
    Advance,
    /// Report `Running` and come back to this child in the next round.
    Yield,
    /// Start the child again in the next round.
    Again,
    /// Bring the children to rest and report this status.
    Conclude(NodeStatus),
}

/// Which call a tick makes on a leaf of this kind and status: a stateful
/// action is continued only while it is running, and started otherwise.
pub open spec fn leaf_call_spec(kind: LeafKind, status: NodeStatus) -> LeafCall {
    match kind {
        LeafKind::StatefulAction => if status == NodeStatus::Running {
            LeafCall::OnRunning
        } else {
            LeafCall::OnStart
        },
        _ => LeafCall::Tick,
    }
}

/// Which call a tick makes on a leaf of this kind and status.
pub fn leaf_call(kind: LeafKind, status: NodeStatus) -> (r: LeafCall)
    ensures
        r == leaf_call_spec(kind, status),
{
    match kind {
        LeafKind::StatefulAction => if status == NodeStatus::Running {
            LeafCall::OnRunning
        } else {
            LeafCall::OnStart
        },
        _ => LeafCall::Tick,
    }
}

/// Whether a leaf of this kind, whose status was `previous`, may answer a
/// tick with `status`. No tick gives `Idle`; a condition concludes within
/// the tick; a leaf is skipped only before it has started.
pub open spec fn leaf_status_allowed(kind: LeafKind, previous: NodeStatus, status: NodeStatus) -> bool {
    match status {
        NodeStatus::Idle => false,
        NodeStatus::Running => kind != LeafKind::Condition,
        NodeStatus::Success | NodeStatus::Failure => true,
        NodeStatus::Skipped => kind != LeafKind::Condition && previous != NodeStatus::Running,
    }
}

/// Whether a leaf may answer a tick with `status`.
pub fn check_leaf_status(kind: LeafKind, previous: NodeStatus, status: NodeStatus) -> (r: bool)
    ensures
        r == leaf_status_allowed(kind, previous, status),
{
    match status {
        NodeStatus::Idle => false,
        NodeStatus::Running => kind != LeafKind::Condition,
        NodeStatus::Success | NodeStatus::Failure => true,
        NodeStatus::Skipped => kind != LeafKind::Condition && previous != NodeStatus::Running,
    }
}

/// The failure of a tick of a leaf that has answered with `status`, which
/// it may not give.
pub open spec fn protocol_error(status: NodeStatus) -> NodeErrorView {
    NodeErrorView {
        message: "a leaf answered with a status that it may not give"@,
        cause: Some(ErrorCause::Status(status)),
    }
}

/// What a tick of a leaf of this kind, whose status was `previous`, makes
/// of what the leaf has given: a failure of the leaf is the failure of the
/// tick; a status that the leaf may give is the status of the tick; any
/// other status is a failure that names it.
pub fn leaf_outcome(kind: LeafKind, previous: NodeStatus, answer: Result<NodeStatus, NodeError>) -> (r:
    Result<NodeStatus, NodeError>)
    ensures
        match answer {
            Err(e) => r == Err::<NodeStatus, NodeError>(e),
            Ok(status) => if leaf_status_allowed(kind, previous, status) {
                r == Ok::<NodeStatus, NodeError>(status)
            } else {
                r matches Err(e) && e@ == protocol_error(status)
            },
        },
{
    match answer {
        Err(e) => Err(e),
        Ok(status) => {
            if check_leaf_status(kind, previous, status) {
                Ok(status)
            } else {
                Err(
                    NodeError::caused_by(
                        "a leaf answered with a status that it may not give",
                        ErrorCause::Status(status),
                    ),
                )
            }
        },
    }
}

/// What a sequence or a fallback does after the child at its cursor has
/// answered with `child`.
///
/// A sequence goes on after a success, waits on a running child, and
/// concludes with failure on the first failure. A fallback goes on after
/// a failure, waits on a running child, and concludes with success on the
/// first success. Both pass over a skipped child.
pub open spec fn control_step_spec(policy: ControlPolicy, child: NodeStatus) -> Step {
    match child {
        NodeStatus::Running => Step::Yield,
        NodeStatus::Skipped => Step::Advance,
        NodeStatus::Idle => Step::Conclude(NodeStatus::Failure),
        NodeStatus::Success => if policy == ControlPolicy::Fallback {
            Step::Conclude(NodeStatus::Success)
        } else {
            Step::Advance
        },
        NodeStatus::Failure => if policy == ControlPolicy::Fallback {
            Step::Advance
        } else {
            Step::Conclude(NodeStatus::Failure)
        },
    }
}

/// What a sequence or a fallback does after a child has answered.
pub fn control_step(policy: ControlPolicy, child: NodeStatus) -> (r: Step)
    ensures
        r == control_step_spec(policy, child),
{
    match child {
        NodeStatus::Running => Step::Yield,
        NodeStatus::Skipped => Step::Advance,
        NodeStatus::Idle => Step::Conclude(NodeStatus::Failure),
        NodeStatus::Success => if policy == ControlPolicy::Fallback {
            Step::Conclude(NodeStatus::Success)
        } else {
            Step::Advance
        },
        NodeStatus::Failure => if policy == ControlPolicy::Fallback {
            Step::Advance
        } else {
            Step::Conclude(NodeStatus::Failure)
        },
    }
}

/// What a sequence or a fallback reports when no child is left: a sequence
/// has seen all succeed, a fallback has seen all fail.
pub open spec fn exhausted_spec(policy: ControlPolicy) -> NodeStatus {
    if policy == ControlPolicy::Fallback {
        NodeStatus::Failure
    } else {
        NodeStatus::Success
    }
}

/// What a sequence or a fallback reports when no child is left.
pub fn exhausted(policy: ControlPolicy) -> (r: NodeStatus)
    ensures
        r == exhausted_spec(policy),
{
    if policy == ControlPolicy::Fallback {
        NodeStatus::Failure
    } else {
        NodeStatus::Success
    }
}

/// What a parallel node reports after a round in which `successes` of its
/// children have succeeded, `failures` have failed and `running` are still
/// running: success as soon as enough have succeeded, failure as soon as
/// enough have failed or none is left running.
pub open spec fn parallel_outcome_spec(
    successes: nat,
    failures: nat,
    running: nat,
    success_threshold: nat,
    failure_threshold: nat,
) -> NodeStatus {
    if successes >= success_threshold {
        NodeStatus::Success
    } else if failures >= failure_threshold || running == 0 {
        NodeStatus::Failure
    } else {
        NodeStatus::Running
    }
}

/// What a parallel node reports after a round with these counts.
pub fn parallel_outcome(
    successes: usize,
    failures: usize,
    running: usize,
    success_threshold: usize,
    failure_threshold: usize,
) -> (r: NodeStatus)
    ensures
        r == parallel_outcome_spec(
            successes as nat,
            failures as nat,
            running as nat,
            success_threshold as nat,
            failure_threshold as nat,
        ),
{
    if successes >= success_threshold {
        NodeStatus::Success
    } else if failures >= failure_threshold || running == 0 {
        NodeStatus::Failure
    } else {
        NodeStatus::Running
    }
}

/// What a decorator does after its child has answered with `child`, when
/// `attempts` earlier executions of the child have failed and at most
/// `max_attempts` are made.
pub open spec fn decorator_step_spec(
    policy: DecoratorPolicy,
    child: NodeStatus,
    attempts: nat,
    max_attempts: nat,
) -> Step {
    match child {
        NodeStatus::Running => Step::Yield,
        NodeStatus::Idle => Step::Conclude(NodeStatus::Failure),
        NodeStatus::Skipped => Step::Conclude(NodeStatus::Skipped),
        NodeStatus::Success => if policy == DecoratorPolicy::Inverter {
            Step::Conclude(NodeStatus::Failure)
        } else {
            Step::Conclude(NodeStatus::Success)
        },
        NodeStatus::Failure => match policy {
            DecoratorPolicy::Inverter => Step::Conclude(NodeStatus::Success),
            DecoratorPolicy::SkipIf => Step::Conclude(NodeStatus::Failure),
            DecoratorPolicy::Retry => if attempts + 1 < max_attempts {
                Step::Again
            } else {
                Step::Conclude(NodeStatus::Failure)
            },
        },
    }
}

/// What a decorator does after its child has answered.
pub fn decorator_step(policy: DecoratorPolicy, child: NodeStatus, attempts: u32, max_attempts: u32) -> (r:
    Step)
    ensures
        r == decorator_step_spec(policy, child, attempts as nat, max_attempts as nat),
{
    match child {
        NodeStatus::Running => Step::Yield,
        NodeStatus::Idle => Step::Conclude(NodeStatus::Failure),
        NodeStatus::Skipped => Step::Conclude(NodeStatus::Skipped),
        NodeStatus::Success => if policy == DecoratorPolicy::Inverter {
            Step::Conclude(NodeStatus::Failure)
        } else {
            Step::Conclude(NodeStatus::Success)
        },
        NodeStatus::Failure => match policy {
            DecoratorPolicy::Inverter => Step::Conclude(NodeStatus::Success),
            DecoratorPolicy::SkipIf => Step::Conclude(NodeStatus::Failure),
            DecoratorPolicy::Retry => if attempts < max_attempts && attempts + 1 < max_attempts {
                Step::Again
            } else {
                Step::Conclude(NodeStatus::Failure)
            },
        },
    }
}

/// What every node holds: its identity, its ports and its status.
#[derive(Debug)]
pub struct NodeCore {
    name: String,
    registration_id: String,
    config: NodeConfig,
    status: NodeStatus,
}

/// A node of a tree, with the nodes below it.
pub enum Node<L> {
    Leaf { base: NodeCore, kind: LeafKind, behavior: L },
    Control { base: NodeCore, policy: ControlPolicy, children: Vec<Node<L>>, cursor: usize },
    Decorator { base: NodeCore, gate: DecoratorPolicy, child: Box<Node<L>>, attempts: u32 },
    SubTree { base: NodeCore, child: Box<Node<L>> },
}

/// What kind of node a node is, with the state that its policy keeps
/// between ticks.
pub enum RoleView {
    Leaf(LeafKind),
    /// The policy, and the place of the child that is ticked next.
    Control(ControlPolicy, nat),
    /// The policy, and how many executions of the child have failed.
    Decorator(DecoratorPolicy, nat),
    SubTree,
}

/// The model of a [`Node`]: everything but what its leaves do.
pub struct NodeView {
    pub name: Seq<char>,
    pub registration_id: Seq<char>,
    pub config: ConfigView,
    pub status: NodeStatus,
    pub role: RoleView,
    pub children: Seq<NodeView>,
}

impl RoleView {
    /// The role with its state as before the first tick.
    pub open spec fn rested(self) -> RoleView {
        match self {
            RoleView::Control(policy, _) => RoleView::Control(policy, 0),
            RoleView::Decorator(policy, _) => RoleView::Decorator(policy, 0),
            other => other,
        }
    }

    /// The category of a node of this role.
    pub open spec fn category(self) -> NodeType {
        match self {
            RoleView::Leaf(LeafKind::Condition) => NodeType::Condition,
            RoleView::Leaf(_) => NodeType::Action,
            RoleView::Control(_, _) => NodeType::Control,
            RoleView::Decorator(_, _) => NodeType::Decorator,
            RoleView::SubTree => NodeType::SubTree,
        }
    }
}

/// The node at rest: idle, with every node below it at rest.
pub open spec fn reset(v: NodeView) -> NodeView
    decreases v,
{
    NodeView {
        status: NodeStatus::Idle,
        role: v.role.rested(),
        children: reset_all(v.children),
        ..v
    }
}

/// Each of the nodes at rest.
pub open spec fn reset_all(s: Seq<NodeView>) -> Seq<NodeView>
    decreases s,
{
    if s.len() == 0 {
        Seq::empty()
    } else {
        reset_all(s.drop_last()).push(reset(s.last()))
    }
}

/// How many nodes a node is made of.
pub open spec fn size(v: NodeView) -> nat
    decreases v,
{
    1 + sizes(v.children)
}

/// How many nodes the nodes of a list are made of.
pub open spec fn sizes(s: Seq<NodeView>) -> nat
    decreases s,
{
    if s.len() == 0 {
        0
    } else {
        sizes(s.drop_last()) + size(s.last())
    }
}

/// A list at rest holds each of its nodes at rest, at the node's place.
pub proof fn lemma_reset_all(s: Seq<NodeView>)
    ensures
        reset_all(s).len() == s.len(),
        forall|i: int| 0 <= i < s.len() ==> (#[trigger] reset_all(s)[i]) == reset(s[i]),
    decreases s.len(),
{
    if s.len() > 0 {
        lemma_reset_all(s.drop_last());
    }
}

/// A node at rest is made of as many nodes as before.
pub proof fn lemma_size_reset(v: NodeView)
    ensures
        size(reset(v)) == size(v),
    decreases v,
{
    lemma_sizes_reset(v.children);
}

/// A list at rest is made of as many nodes as before.
pub proof fn lemma_sizes_reset(s: Seq<NodeView>)
    ensures
        sizes(reset_all(s)) == sizes(s),
    decreases s,
{
    if s.len() > 0 {
        lemma_sizes_reset(s.drop_last());
        lemma_size_reset(s.last());
        assert(reset_all(s).drop_last() =~= reset_all(s.drop_last()));
    }
}

/// A node that is at rest stays as it is when it is brought to rest.
pub proof fn lemma_reset_idempotent(v: NodeView)
    ensures
        reset(reset(v)) == reset(v),
    decreases v,
{
    lemma_reset_all_idempotent(v.children);
}

/// A list that is at rest stays as it is when it is brought to rest.
pub proof fn lemma_reset_all_idempotent(s: Seq<NodeView>)
    ensures
        reset_all(reset_all(s)) == reset_all(s),
    decreases s,
{
    if s.len() > 0 {
        lemma_reset_all_idempotent(s.drop_last());
        lemma_reset_idempotent(s.last());
        assert(reset_all(s).drop_last() =~= reset_all(s.drop_last()));
    }
}

/// A node of a list is made of at most as many nodes as the list.
pub proof fn lemma_sizes_index(s: Seq<NodeView>, i: int)
    requires
        0 <= i < s.len(),
    ensures
        size(s[i]) <= sizes(s),
    decreases s.len(),
{
    if i < s.len() - 1 {
        lemma_sizes_index(s.drop_last(), i);
    }
}

/// Lists whose nodes are the same at rest, place by place, are the same at
/// rest and made of as many nodes.
pub proof fn lemma_same_at_rest(a: Seq<NodeView>, b: Seq<NodeView>)
    requires
        a.len() == b.len(),
        forall|i: int| 0 <= i < a.len() ==> reset(#[trigger] a[i]) == reset(b[i]),
    ensures
        reset_all(a) == reset_all(b),
        sizes(a) == sizes(b),
    decreases a.len(),
{
    if a.len() > 0 {
        lemma_same_at_rest(a.drop_last(), b.drop_last());
        assert(reset(a[a.len() - 1]) == reset(b[a.len() - 1]));
        lemma_size_reset(a.last());
        lemma_size_reset(b.last());
    }
}

impl View for NodeCore {
    type V = NodeView;

    /// The model of a node with this base, as far as the base decides it.
    closed spec fn view(&self) -> NodeView {
        NodeView {
            name: self.name@,
            registration_id: self.registration_id@,
            config: self.config@,
            status: self.status,
            role: RoleView::SubTree,
            children: Seq::empty(),
        }
    }
}

/// The model of a leaf with this base.
pub open spec fn leaf_view(base: NodeView, kind: LeafKind) -> NodeView {
    NodeView { role: RoleView::Leaf(kind), children: Seq::empty(), ..base }
}

/// The model of a control node with this base and these children.
pub open spec fn control_view(base: NodeView, policy: ControlPolicy, children: Seq<NodeView>, cursor: nat) -> NodeView {
    NodeView { role: RoleView::Control(policy, cursor), children, ..base }
}

/// The model of a decorator with this base and this child.
pub open spec fn decorator_view(base: NodeView, policy: DecoratorPolicy, child: NodeView, attempts: nat) -> NodeView {
    NodeView { role: RoleView::Decorator(policy, attempts), children: seq![child], ..base }
}

/// The model of the node that stands for a tree with this root.
pub open spec fn subtree_view(base: NodeView, child: NodeView) -> NodeView {
    NodeView { role: RoleView::SubTree, children: seq![child], ..base }
}

/// The model of a node.
pub closed spec fn node_view<L>(node: Node<L>) -> NodeView
    decreases node,
{
    match node {
        Node::Leaf { base, kind, behavior } => leaf_view(base@, kind),
        Node::Control { base, policy, children, cursor } => control_view(
            base@,
            policy,
            node_views(children@),
            cursor as nat,
        ),
        Node::Decorator { base, gate, child, attempts } => decorator_view(
            base@,
            gate,
            node_view(*child),
            attempts as nat,
        ),
        Node::SubTree { base, child } => subtree_view(base@, node_view(*child)),
    }
}

/// The models of the nodes of a list.
pub closed spec fn node_views<L>(nodes: Seq<Node<L>>) -> Seq<NodeView>
    decreases nodes,
{
    if nodes.len() == 0 {
        Seq::empty()
    } else {
        node_views(nodes.drop_last()).push(node_view(nodes.last()))
    }
}

/// The model of a list holds the model of each node at the node's place.
pub proof fn lemma_node_views<L>(nodes: Seq<Node<L>>)
    ensures
        node_views(nodes).len() == nodes.len(),
        forall|i: int| 0 <= i < nodes.len() ==> (#[trigger] node_views(nodes)[i]) == node_view(nodes[i]),
    decreases nodes.len(),
{
    if nodes.len() > 0 {
        lemma_node_views(nodes.drop_last());
    }
}

/// A list of one node at rest is the node at rest, and is made of as many
/// nodes as the node.
pub proof fn lemma_single(v: NodeView)
    ensures
        reset_all(seq![v]) == seq![reset(v)],
        sizes(seq![v]) == size(v),
{
    assert(seq![v].drop_last() =~= Seq::<NodeView>::empty());
    assert(seq![v].last() == v);
    assert(reset_all(Seq::<NodeView>::empty()).push(reset(v)) =~= seq![reset(v)]);
    assert(sizes(Seq::<NodeView>::empty()) == 0);
    assert(sizes(seq![v]) == sizes(seq![v].drop_last()) + size(seq![v].last()));
}

/// Nodes that are the same at rest, place by place, have models that are
/// the same at rest.
pub proof fn lemma_children_at_rest<L>(now: Seq<Node<L>>, before: Seq<Node<L>>)
    requires
        now.len() == before.len(),
        forall|j: int| 0 <= j < now.len() ==> reset(node_view(#[trigger] now[j])) == reset(node_view(before[j])),
    ensures
        reset_all(node_views(now)) == reset_all(node_views(before)),
        reset_all(reset_all(node_views(now))) == reset_all(node_views(before)),
        sizes(node_views(now)) == sizes(node_views(before)),
{
    lemma_node_views(now);
    lemma_node_views(before);
    lemma_same_at_rest(node_views(now), node_views(before));
    lemma_reset_all_idempotent(node_views(now));
}

impl<L> View for Node<L> {
    type V = NodeView;

    open spec fn view(&self) -> NodeView {
        node_view(*self)
    }
}

/// The threshold that a parallel node works with: what its port gives, and
/// `fallback` where the port is not declared or bound and has no default.
pub open spec fn threshold_spec(read: Result<usize, PortError>, fallback: usize) -> Result<
    usize,
    PortError,
> {
    match read {
        Ok(k) => Ok(k),
        Err(PortError::PortNotResolved) | Err(PortError::PortNotDeclared) => Ok(fallback),
        Err(e) => Err(e),
    }
}

/// The threshold that a parallel node works with.
pub fn threshold(read: Result<usize, PortError>, fallback: usize) -> (r: Result<usize, PortError>)
    ensures
        r == threshold_spec(read, fallback),
{
    match read {
        Ok(k) => Ok(k),
        Err(PortError::PortNotResolved) | Err(PortError::PortNotDeclared) => Ok(fallback),
        Err(e) => Err(e),
    }
}

/// Reads the two thresholds of a parallel node with `children` children,
/// the one for successes first.
pub fn read_thresholds(config: &NodeConfig, children: usize, blackboard: &Blackboard) -> (r: Result<
    (usize, usize),
    NodeError,
>)
    ensures
        match r {
            Ok(thresholds) => thresholds_decide(config@, children, blackboard@) == Ok::<
                (usize, usize),
                NodeErrorView,
            >(thresholds),
            Err(e) => thresholds_decide(config@, children, blackboard@) == Err::<
                (usize, usize),
                NodeErrorView,
            >(e@),
        },
{
    let enough = match threshold(config.get_input::<usize>("success_count", blackboard), children) {
        Ok(k) => k,
        Err(e) => {
            return Err(
                NodeError::caused_by("the success threshold cannot be read", ErrorCause::Port(e)),
            );
        },
    };
    let too_many = match threshold(config.get_input::<usize>("failure_count", blackboard), 1) {
        Ok(k) => k,
        Err(e) => {
            return Err(
                NodeError::caused_by("the failure threshold cannot be read", ErrorCause::Port(e)),
            );
        },
    };
    Ok((enough, too_many))
}

impl NodeCore {
    fn new(name: &str, registration_id: &str, config: NodeConfig) -> (r: NodeCore)
        ensures
            r@ == (NodeView {
                name: name@,
                registration_id: registration_id@,
                config: config@,
                status: NodeStatus::Idle,
                role: RoleView::SubTree,
                children: Seq::empty(),
            }),
    {
        NodeCore {
            name: name.to_owned(),
            registration_id: registration_id.to_owned(),
            config,
            status: NodeStatus::Idle,
        }
    }
}

impl<L: TreeNode> Node<L> {
    /// A leaf that does what `behavior` does.
    pub fn leaf(name: &str, registration_id: &str, config: NodeConfig, kind: LeafKind, behavior: L) -> (r:
        Self)
        ensures
            r@ == (NodeView {
                name: name@,
                registration_id: registration_id@,
                config: config@,
                status: NodeStatus::Idle,
                role: RoleView::Leaf(kind),
                children: Seq::empty(),
            }),
    {
        Node::Leaf { base: NodeCore::new(name, registration_id, config), kind, behavior }
    }

    /// A control node over `children`, in their order.
    pub fn control(
        name: &str,
        registration_id: &str,
        config: NodeConfig,
        policy: ControlPolicy,
        children: Vec<Node<L>>,
    ) -> (r: Self)
        ensures
            r@ == (NodeView {
                name: name@,
                registration_id: registration_id@,
                config: config@,
                status: NodeStatus::Idle,
                role: RoleView::Control(policy, 0),
                children: node_views(children@),
            }),
    {
        Node::Control { base: NodeCore::new(name, registration_id, config), policy, children, cursor: 0 }
    }

    /// A decorator of `child`.
    pub fn decorator(
        name: &str,
        registration_id: &str,
        config: NodeConfig,
        policy: DecoratorPolicy,
        child: Node<L>,
    ) -> (r: Self)
        ensures
            r@ == (NodeView {
                name: name@,
                registration_id: registration_id@,
                config: config@,
                status: NodeStatus::Idle,
                role: RoleView::Decorator(policy, 0),
                children: seq![child@],
            }),
    {
        Node::Decorator {
            base: NodeCore::new(name, registration_id, config),
            gate: policy,
            child: Box::new(child),
            attempts: 0,
        }
    }

    /// The node that stands for another tree, whose root is `child`.
    pub fn subtree(name: &str, registration_id: &str, config: NodeConfig, child: Node<L>) -> (r: Self)
        ensures
            r@ == (NodeView {
                name: name@,
                registration_id: registration_id@,
                config: config@,
                status: NodeStatus::Idle,
                role: RoleView::SubTree,
                children: seq![child@],
            }),
    {
        Node::SubTree { base: NodeCore::new(name, registration_id, config), child: Box::new(child) }
    }

    fn base(&self) -> (r: &NodeCore)
        ensures
            r@.name == self@.name,
            r@.registration_id == self@.registration_id,
            r@.config == self@.config,
            r@.status == self@.status,
    {
        match self {
            Node::Leaf { base, .. } => base,
            Node::Control { base, .. } => base,
            Node::Decorator { base, .. } => base,
            Node::SubTree { base, .. } => base,
        }
    }

    pub fn name(&self) -> (r: &str)
        ensures
            r@ == self@.name,
    {
        self.base().name.as_str()
    }

    pub fn registration_id(&self) -> (r: &str)
        ensures
            r@ == self@.registration_id,
    {
        self.base().registration_id.as_str()
    }

    pub fn status(&self) -> (r: NodeStatus)
        ensures
            r == self@.status,
    {
        self.base().status
    }

    pub fn config(&self) -> (r: &NodeConfig)
        ensures
            r@ == self@.config,
    {
        &self.base().config
    }

    /// The ports that the node's type declares.
    pub fn provided_ports(&self) -> (r: &PortsList)
        ensures
            ports_view(*r) == self@.config.ports,
    {
        self.base().config.provided_ports()
    }

    /// The category of the node.
    pub fn node_type(&self) -> (r: NodeType)
        ensures
            r == self@.role.category(),
    {
        match self {
            Node::Leaf { kind, .. } => match kind {
                LeafKind::Condition => NodeType::Condition,
                _ => NodeType::Action,
            },
            Node::Control { .. } => NodeType::Control,
            Node::Decorator { .. } => NodeType::Decorator,
            Node::SubTree { .. } => NodeType::SubTree,
        }
    }

    /// How many children the node has.
    pub fn child_count(&self) -> (r: usize)
        ensures
            r == self@.children.len(),
    {
        match self {
            Node::Leaf { .. } => 0,
            Node::Control { children, .. } => {
                proof {
                    lemma_node_views(children@);
                }
                children.len()
            },
            Node::Decorator { .. } => 1,
            Node::SubTree { .. } => 1,
        }
    }

    /// The child at `at`.
    pub fn child(&self, at: usize) -> (r: &Node<L>)
        requires
            at < self@.children.len(),
        ensures
            r@ == self@.children[at as int],
    {
        match self {
            Node::Leaf { .. } => {
                proof {
                    assert(false);
                }
                self
            },
            Node::Control { children, .. } => {
                proof {
                    lemma_node_views(children@);
                }
                &children[at]
            },
            Node::Decorator { child, .. } => child,
            Node::SubTree { child, .. } => child,
        }
    }

    /// Calls off what is running in this node and below it, children first,
    /// and brings all of it to rest.
    pub fn halt(&mut self, blackboard: &mut Blackboard)
        ensures
            final(self)@ == reset(old(self)@),
        decreases size(old(self)@), 1int,
    {
        match self {
            Node::Leaf { base, kind, behavior } => {
                if base.status == NodeStatus::Running {
                    behavior.on_halted(&base.config, blackboard);
                }
                base.status = NodeStatus::Idle;
            },
            Node::Control { base, policy, children, cursor } => {
                Self::halt_all(children, blackboard);
                *cursor = 0;
                base.status = NodeStatus::Idle;
            },
            Node::Decorator { base, gate, child, attempts } => {
                let ghost before = node_view(**child);
                proof {
                    lemma_single(before);
                }
                child.halt(blackboard);
                *attempts = 0;
                base.status = NodeStatus::Idle;
            },
            Node::SubTree { base, child } => {
                let ghost before = node_view(**child);
                proof {
                    lemma_single(before);
                }
                child.halt(blackboard);
                base.status = NodeStatus::Idle;
            },
        }
    }

    /// Halts each of the nodes.
    fn halt_all(children: &mut Vec<Node<L>>, blackboard: &mut Blackboard)
        ensures
            node_views(final(children)@) == reset_all(node_views(old(children)@)),
        decreases sizes(node_views(old(children)@)), 2int,
    {
        let n = children.len();
        let mut i: usize = 0;
        while i < n
            invariant
                i <= n,
                n == children.len(),
                n == old(children).len(),
                forall|j: int| 0 <= j < i ==> (#[trigger] children[j])@ == reset(old(children)[j]@),
                forall|j: int| i <= j < n ==> (#[trigger] children[j]) == old(children)[j],
            decreases n - i,
        {
            proof {
                lemma_node_views(old(children)@);
                lemma_sizes_index(node_views(old(children)@), i as int);
            }
            children[i].halt(blackboard);
            i += 1;
        }
        proof {
            lemma_node_views(children@);
            lemma_node_views(old(children)@);
            lemma_reset_all(node_views(old(children)@));
            assert(node_views(children@) =~= reset_all(node_views(old(children)@)));
        }
    }

    /// Brings each of the nodes that is running to rest.
    fn settle_children(children: &mut Vec<Node<L>>, blackboard: &mut Blackboard)
        ensures
            node_views(final(children)@) == settle_all(node_views(old(children)@)),
        decreases sizes(node_views(old(children)@)), 2int,
    {
        let n = children.len();
        let mut i: usize = 0;
        while i < n
            invariant
                i <= n,
                n == children.len(),
                n == old(children).len(),
                forall|j: int| 0 <= j < i ==> (#[trigger] children[j])@ == settle(old(children)[j]@),
                forall|j: int| i <= j < n ==> (#[trigger] children[j]) == old(children)[j],
            decreases n - i,
        {
            if children[i].status() == NodeStatus::Running {
                proof {
                    lemma_node_views(old(children)@);
                    lemma_sizes_index(node_views(old(children)@), i as int);
                }
                children[i].halt(blackboard);
            }
            i += 1;
        }
        proof {
            lemma_node_views(children@);
            lemma_node_views(old(children)@);
            assert(node_views(children@) =~= settle_all(node_views(old(children)@)));
        }
    }

    /// Advances the node by one step and reports its status.
    ///
    /// The node graph stays the same graph, whatever comes of the tick. If
    /// the tick reports a status, the graph is left as a tick that reports
    /// this status leaves it. A tick fails only where a leaf fails or a
    /// port cannot be read, and then the graph is left as a tick that fails
    /// in this way leaves it. What the node's own ports decide on the
    /// blackboard as it is, is what the tick gives, and nothing is changed
    /// if that is a failure; where they decide nothing, a failure has come
    /// from below. A parallel node reports what the counts give with the
    /// thresholds that it has on the blackboard as it is.
    pub fn tick(&mut self, blackboard: &mut Blackboard) -> (r: Result<NodeStatus, NodeError>)
        ensures
            reset(final(self)@) == reset(old(self)@),
            r matches Ok(s) ==> ticked(old(self)@, final(self)@, s),
            r matches Err(e) ==> failed(old(self)@, final(self)@, e@),
            own_ports(old(self)@, old(blackboard)@) matches Some(decided) ==> outcome_view(r) == decided
                && (decided is Err ==> final(self)@ == old(self)@ && final(blackboard)@
                == old(blackboard)@),
            own_ports(old(self)@, old(blackboard)@) is None ==> (r matches Err(e) ==> failed_below(
                old(self)@,
                final(self)@,
                e@,
            )),
            old(self)@.role matches RoleView::Control(policy, _) && policy == ControlPolicy::Parallel
                ==> (thresholds_decide(
                old(self)@.config,
                old(self)@.children.len() as usize,
                old(blackboard)@,
            ) matches Ok(thresholds) ==> (r matches Ok(s) ==> s == parallel_report(
                final(self)@.children,
                thresholds.0,
                thresholds.1,
            ))),
        decreases size(old(self)@), 1int,
    {
        match self {
            Node::Leaf { base, kind, behavior } => Self::tick_leaf(base, *kind, behavior, blackboard),
            Node::Control { base, policy, children, cursor } => Self::tick_control(
                base,
                *policy,
                children,
                cursor,
                blackboard,
            ),
            Node::Decorator { base, gate, child, attempts } => {
                proof {
                    lemma_single(node_view(**child));
                }
                Self::tick_decorator(base, *gate, child, attempts, blackboard)
            },
            Node::SubTree { base, child } => {
                proof {
                    lemma_single(node_view(**child));
                }
                Self::tick_subtree(base, child, blackboard)
            },
        }
    }

    /// One tick of a leaf: makes the call that the leaf's kind and status
    /// ask for, and takes the answer if the leaf may give it.
    fn tick_leaf(base: &mut NodeCore, kind: LeafKind, behavior: &mut L, blackboard: &mut Blackboard) -> (r:
        Result<NodeStatus, NodeError>)
        ensures
            reset(leaf_view(final(base)@, kind)) == reset(leaf_view(old(base)@, kind)),
            r matches Ok(s) ==> ticked(leaf_view(old(base)@, kind), leaf_view(final(base)@, kind), s),
            r matches Err(e) ==> failed_below(
                leaf_view(old(base)@, kind),
                leaf_view(final(base)@, kind),
                e@,
            ),
            r is Err ==> final(base)@ == old(base)@,
    {
        let previous = base.status;
        let answer = match leaf_call(kind, previous) {
            LeafCall::Tick => behavior.tick(&base.config, blackboard),
            LeafCall::OnStart => behavior.on_start(&base.config, blackboard),
            LeafCall::OnRunning => behavior.on_running(&base.config, blackboard),
        };
        match leaf_outcome(kind, previous, answer) {
            Err(e) => Err(e),
            Ok(status) => {
                base.status = status;
                Ok(status)
            },
        }
    }

    /// One tick of a control node.
    fn tick_control(
        base: &mut NodeCore,
        policy: ControlPolicy,
        children: &mut Vec<Node<L>>,
        cursor: &mut usize,
        blackboard: &mut Blackboard,
    ) -> (r: Result<NodeStatus, NodeError>)
        ensures
            ({
                let before = control_view(
                    old(base)@,
                    policy,
                    node_views(old(children)@),
                    *old(cursor) as nat,
                );
                let after = control_view(
                    final(base)@,
                    policy,
                    node_views(final(children)@),
                    *final(cursor) as nat,
                );
                &&& reset(after) == reset(before)
                &&& r matches Ok(s) ==> ticked(before, after, s)
                &&& r matches Err(e) ==> failed(before, after, e@)
                &&& own_ports(before, old(blackboard)@) matches Some(decided) ==> outcome_view(r)
                    == decided && final(base)@ == old(base)@ && final(children)@ == old(children)@
                    && *final(cursor) == *old(cursor) && final(blackboard)@ == old(blackboard)@
                &&& own_ports(before, old(blackboard)@) is None ==> (r matches Err(e)
                    ==> failed_below(before, after, e@))
                &&& policy == ControlPolicy::Parallel ==> (thresholds_decide(
                    before.config,
                    before.children.len() as usize,
                    old(blackboard)@,
                ) matches Ok(thresholds) ==> (r matches Ok(s) ==> s == parallel_report(
                    after.children,
                    thresholds.0,
                    thresholds.1,
                )))
            }),
        decreases sizes(node_views(old(children)@)), 3int,
    {
        let n = children.len();
        let ghost views = node_views(children@);
        let ghost status = base@.status;
        proof {
            lemma_node_views(children@);
            lemma_reset_all_idempotent(views);
            lemma_sizes_reset(views);
            lemma_reset_all(views);
        }
        let (enough, too_many) = if policy == ControlPolicy::Parallel {
            match read_thresholds(&base.config, n, blackboard) {
                Ok(thresholds) => {
                    assert(threshold_given(base@.config, "success_count"@, n, thresholds.0)
                        && threshold_given(base@.config, "failure_count"@, 1, thresholds.1)) by {
                        assert(thresholds_decide(base@.config, n, blackboard@) == Ok::<
                            (usize, usize),
                            NodeErrorView,
                        >(thresholds));
                    }
                    thresholds
                },
                Err(e) => {
                    assert(thresholds_fail(base@.config, n, e@)) by {
                        assert(thresholds_decide(base@.config, n, blackboard@) == Err::<
                            (usize, usize),
                            NodeErrorView,
                        >(e@));
                    }
                    return Err(e);
                },
            }
        } else {
            (0, 0)
        };
        if base.status != NodeStatus::Running {
            Self::halt_all(children, blackboard);
            *cursor = 0;
        } else if *cursor > n {
            *cursor = n;
        }
        base.status = NodeStatus::Running;
        let ghost found = node_views(children@);
        let ghost start = *cursor as int;
        proof {
            lemma_node_views(children@);
            assert(found == bases_of(status, views));
            assert(start == start_of(status, *old(cursor) as nat, views.len()));
        }
        let answer = match policy {
            ControlPolicy::Parallel => Self::tick_parallel(enough, too_many, children, blackboard),
            _ => Self::tick_in_order(policy, children, cursor, blackboard),
        };
        match answer {
            Err(e) => {
                proof {
                    lemma_node_views(children@);
                    if policy == ControlPolicy::Parallel {
                        assert(thresholds_read(base@.config, n));
                    }
                }
                Err(e)
            },
            Ok(outcome) => {
                if outcome != NodeStatus::Running {
                    let ghost mid = node_views(children@);
                    Self::settle_children(children, blackboard);
                    base.status = outcome;
                    proof {
                        lemma_settle_at_rest(mid);
                        if policy == ControlPolicy::Parallel {
                            lemma_parallel_settle(found, mid, enough, too_many);
                        } else {
                            lemma_ordered_settle(policy, found, start, mid, *cursor as int, outcome);
                        }
                    }
                }
                proof {
                    if policy == ControlPolicy::Parallel {
                        assert(thresholds_report(base@.config, n, node_views(children@), outcome));
                    }
                }
                Ok(outcome)
            },
        }
    }

    /// One round of a sequence or a fallback: ticks the children from the
    /// cursor on, one after the other, until one makes the node wait or
    /// conclude, or none is left.
    fn tick_in_order(
        policy: ControlPolicy,
        children: &mut Vec<Node<L>>,
        cursor: &mut usize,
        blackboard: &mut Blackboard,
    ) -> (r: Result<NodeStatus, NodeError>)
        requires
            *old(cursor) <= old(children).len(),
            policy != ControlPolicy::Parallel,
        ensures
            reset_all(node_views(final(children)@)) == reset_all(node_views(old(children)@)),
            r matches Ok(s) ==> s != NodeStatus::Idle && ordered_round(
                policy,
                node_views(old(children)@),
                *old(cursor) as int,
                node_views(final(children)@),
                *final(cursor) as int,
                s,
                false,
            ),
            r matches Err(e) ==> ordered_failed(
                policy,
                node_views(old(children)@),
                *old(cursor) as int,
                node_views(final(children)@),
                *final(cursor) as int,
                e@,
            ),
        decreases sizes(node_views(old(children)@)), 2int,
    {
        let n = children.len();
        let ghost base = node_views(old(children)@);
        let ghost start = *cursor as int;
        proof {
            lemma_node_views(old(children)@);
        }
        while *cursor < n
            invariant
                n == children.len(),
                n == old(children).len(),
                start == *old(cursor),
                start <= *cursor <= n,
                base == node_views(old(children)@),
                forall|j: int| 0 <= j < n ==> reset((#[trigger] children[j])@) == reset(old(children)[j]@),
                forall|j: int|
                    start <= j < *cursor ==> ticked(
                        old(children)[j]@,
                        (#[trigger] children[j])@,
                        children[j]@.status,
                    ) && control_step_spec(policy, children[j]@.status) == Step::Advance,
                forall|j: int|
                    0 <= j < start || *cursor <= j < n ==> (#[trigger] children[j]) == old(children)[j],
            decreases n - *cursor,
        {
            let at = *cursor;
            proof {
                lemma_node_views(old(children)@);
                lemma_sizes_index(node_views(old(children)@), at as int);
            }
            let answer = match children[at].tick(blackboard) {
                Ok(status) => status,
                Err(e) => {
                    proof {
                        lemma_children_at_rest(children@, old(children)@);
                        Self::lemma_ordered_failed(policy, old(children)@, start, children@, at as int, e@);
                    }
                    return Err(e);
                },
            };
            match control_step(policy, answer) {
                Step::Advance => {
                    *cursor = at + 1;
                },
                Step::Conclude(outcome) => {
                    proof {
                        lemma_children_at_rest(children@, old(children)@);
                        Self::lemma_ordered(policy, old(children)@, start, children@, at as int, outcome);
                    }
                    return Ok(outcome);
                },
                _ => {
                    proof {
                        lemma_children_at_rest(children@, old(children)@);
                        Self::lemma_ordered(
                            policy,
                            old(children)@,
                            start,
                            children@,
                            at as int,
                            NodeStatus::Running,
                        );
                    }
                    return Ok(NodeStatus::Running);
                },
            }
        }
        proof {
            lemma_children_at_rest(children@, old(children)@);
            Self::lemma_ordered(policy, old(children)@, start, children@, n as int, exhausted_spec(policy));
        }
        Ok(exhausted(policy))
    }

    /// Children that were ticked from `start` up to `stop` as a sequence or
    /// a fallback ticks them are the children after a round of it.
    proof fn lemma_ordered(
        policy: ControlPolicy,
        before: Seq<Node<L>>,
        start: int,
        after: Seq<Node<L>>,
        stop: int,
        s: NodeStatus,
    )
        requires
            after.len() == before.len(),
            0 <= start <= stop <= after.len(),
            stop == after.len() ==> s == exhausted_spec(policy),
            forall|j: int|
                start <= j < stop ==> ticked(
                    node_view(before[j]),
                    node_view(#[trigger] after[j]),
                    node_view(after[j]).status,
                ) && control_step_spec(policy, node_view(after[j]).status) == Step::Advance,
            stop < after.len() ==> ticked(
                node_view(before[stop]),
                node_view(after[stop]),
                node_view(after[stop]).status,
            ) && stops_with(policy, node_view(after[stop]).status, s),
            forall|j: int| 0 <= j < start || stop < j < after.len() ==> (#[trigger] after[j]) == before[j],
        ensures
            ordered_round(policy, node_views(before), start, node_views(after), stop, s, false),
    {
        lemma_node_views(before);
        lemma_node_views(after);
        let base = node_views(before);
        let views = node_views(after);
        assert forall|i: int| #![trigger views[i]] 0 <= i < views.len() implies if start <= i < stop {
            &&& ticked(base[i], views[i], views[i].status)
            &&& control_step_spec(policy, views[i].status) == Step::Advance
        } else if i == stop {
            &&& ticked(base[i], views[i], views[i].status)
            &&& stops_with(policy, views[i].status, s)
        } else {
            views[i] == base[i]
        } by {
            assert(views[i] == node_view(after[i]));
            assert(base[i] == node_view(before[i]));
        }
    }

    /// Children that were ticked from `start` up to `stop` as a sequence or
    /// a fallback ticks them, the last of them with a tick that has failed,
    /// are the children after a round of it that has failed.
    proof fn lemma_ordered_failed(
        policy: ControlPolicy,
        before: Seq<Node<L>>,
        start: int,
        after: Seq<Node<L>>,
        stop: int,
        e: NodeErrorView,
    )
        requires
            after.len() == before.len(),
            0 <= start <= stop < after.len(),
            forall|j: int|
                start <= j < stop ==> ticked(
                    node_view(before[j]),
                    node_view(#[trigger] after[j]),
                    node_view(after[j]).status,
                ) && control_step_spec(policy, node_view(after[j]).status) == Step::Advance,
            failed(node_view(before[stop]), node_view(after[stop]), e),
            forall|j: int| 0 <= j < start || stop < j < after.len() ==> (#[trigger] after[j]) == before[j],
        ensures
            ordered_failed(policy, node_views(before), start, node_views(after), stop, e),
    {
        lemma_node_views(before);
        lemma_node_views(after);
        let base = node_views(before);
        let views = node_views(after);
        assert forall|i: int| #![trigger views[i]] 0 <= i < views.len() implies if start <= i < stop {
            &&& ticked(base[i], views[i], views[i].status)
            &&& control_step_spec(policy, views[i].status) == Step::Advance
        } else if i == stop {
            failed(base[i], views[i], e)
        } else {
            views[i] == base[i]
        } by {
            assert(views[i] == node_view(after[i]));
            assert(base[i] == node_view(before[i]));
        }
    }

    /// Children of a parallel node of which those before `at` were ticked
    /// unless they had concluded, and the one at `at` with a tick that has
    /// failed, are the children after a round of it that has failed.
    proof fn lemma_parallel_failed(before: Seq<Node<L>>, after: Seq<Node<L>>, at: int, e: NodeErrorView)
        requires
            after.len() == before.len(),
            0 <= at < after.len(),
            node_view(before[at]).status != NodeStatus::Success,
            node_view(before[at]).status != NodeStatus::Failure,
            failed(node_view(before[at]), node_view(after[at]), e),
            forall|j: int|
                0 <= j < at ==> if node_view(before[j]).status == NodeStatus::Success || node_view(
                    before[j],
                ).status == NodeStatus::Failure {
                    node_view(#[trigger] after[j]) == node_view(before[j])
                } else {
                    ticked(node_view(before[j]), node_view(after[j]), node_view(after[j]).status)
                },
            forall|j: int| at < j < after.len() ==> (#[trigger] after[j]) == before[j],
        ensures
            parallel_failed(node_views(before), node_views(after), e),
    {
        lemma_node_views(before);
        lemma_node_views(after);
        let base = node_views(before);
        let views = node_views(after);
        assert(failed(base[at], views[at], e));
        assert(base.len() == before.len());
        assert forall|i: int| #![trigger views[i]] 0 <= i < views.len() && i != at implies if i > at
            || base[i].status == NodeStatus::Success || base[i].status == NodeStatus::Failure {
            views[i] == base[i]
        } else {
            ticked(base[i], views[i], views[i].status)
        } by {
            assert(views[i] == node_view(after[i]));
            assert(base[i] == node_view(before[i]));
        }
        assert(views[at] == node_view(after[at]));
    }

    /// One round of a parallel node with these thresholds: ticks every child
    /// that has not concluded, counts, and reports what the counts give.
    fn tick_parallel(
        enough: usize,
        too_many: usize,
        children: &mut Vec<Node<L>>,
        blackboard: &mut Blackboard,
    ) -> (r: Result<NodeStatus, NodeError>)
        ensures
            reset_all(node_views(final(children)@)) == reset_all(node_views(old(children)@)),
            r matches Ok(s) ==> s != NodeStatus::Idle && parallel_round(
                node_views(old(children)@),
                node_views(final(children)@),
                false,
            ),
            r matches Ok(s) ==> s == parallel_report(node_views(final(children)@), enough, too_many),
            r matches Err(e) ==> parallel_failed(
                node_views(old(children)@),
                node_views(final(children)@),
                e@,
            ),
        decreases sizes(node_views(old(children)@)), 2int,
    {
        let n = children.len();
        proof {
            lemma_node_views(children@);
        }
        let mut successes: usize = 0;
        let mut failures: usize = 0;
        let mut running: usize = 0;
        let mut i: usize = 0;
        let ghost mut seen: Seq<NodeView> = Seq::empty();
        while i < n
            invariant
                i <= n,
                n == children.len(),
                n == old(children).len(),
                seen.len() == i,
                successes == count_with(seen, NodeStatus::Success),
                failures == count_with(seen, NodeStatus::Failure),
                running == count_with(seen, NodeStatus::Running),
                count_with(seen, NodeStatus::Idle) == 0,
                successes <= i,
                failures <= i,
                running <= i,
                forall|j: int| 0 <= j < n ==> reset((#[trigger] children[j])@) == reset(old(children)[j]@),
                forall|j: int| 0 <= j < i ==> (#[trigger] children[j])@ == seen[j],
                forall|j: int|
                    0 <= j < i ==> if old(children)[j]@.status == NodeStatus::Success || old(
                        children,
                    )[j]@.status == NodeStatus::Failure {
                        (#[trigger] children[j])@ == old(children)[j]@
                    } else {
                        ticked(old(children)[j]@, children[j]@, children[j]@.status)
                    },
                forall|j: int| i <= j < n ==> (#[trigger] children[j]) == old(children)[j],
            decreases n - i,
        {
            proof {
                lemma_node_views(old(children)@);
                lemma_sizes_index(node_views(old(children)@), i as int);
            }
            let settled = children[i].status();
            let answer = if settled == NodeStatus::Success || settled == NodeStatus::Failure {
                settled
            } else {
                match children[i].tick(blackboard) {
                    Ok(status) => status,
                    Err(e) => {
                        proof {
                            lemma_children_at_rest(children@, old(children)@);
                            Self::lemma_parallel_failed(old(children)@, children@, i as int, e@);
                        }
                        return Err(e);
                    },
                }
            };
            proof {
                let longer = seen.push(children[i as int]@);
                assert(longer.drop_last() =~= seen);
                seen = longer;
            }
            match answer {
                NodeStatus::Success => {
                    successes += 1;
                },
                NodeStatus::Failure => {
                    failures += 1;
                },
                NodeStatus::Running => {
                    running += 1;
                },
                _ => {},
            }
            i += 1;
        }
        let outcome = parallel_outcome(successes, failures, running, enough, too_many);
        proof {
            lemma_children_at_rest(children@, old(children)@);
            lemma_node_views(children@);
            lemma_node_views(old(children)@);
            let base = node_views(old(children)@);
            let views = node_views(children@);
            assert(views =~= seen);
            assert forall|j: int| #![trigger views[j]] 0 <= j < views.len() implies if base[j].status
                == NodeStatus::Success || base[j].status == NodeStatus::Failure {
                views[j] == base[j]
            } else {
                ticked(base[j], views[j], views[j].status)
            } by {
                assert(views[j] == children[j]@);
                assert(base[j] == old(children)[j]@);
            }
            assert(base.len() as usize == n);
            assert(crate::semantics::count_open(views) == running);
            assert(outcome != NodeStatus::Idle);
            assert(parallel_round(base, views, false));
        }
        Ok(outcome)
    }

    /// One tick of a decorator.
    fn tick_decorator(
        base: &mut NodeCore,
        gate: DecoratorPolicy,
        child: &mut Box<Node<L>>,
        attempts: &mut u32,
        blackboard: &mut Blackboard,
    ) -> (r: Result<NodeStatus, NodeError>)
        ensures
            ({
                let before = decorator_view(
                    old(base)@,
                    gate,
                    node_view(**old(child)),
                    *old(attempts) as nat,
                );
                let after = decorator_view(
                    final(base)@,
                    gate,
                    node_view(**final(child)),
                    *final(attempts) as nat,
                );
                &&& reset(after) == reset(before)
                &&& r matches Ok(s) ==> ticked(before, after, s)
                &&& r matches Err(e) ==> failed(before, after, e@)
                &&& own_ports(before, old(blackboard)@) matches Some(decided) ==> outcome_view(r)
                    == decided && (decided is Err ==> final(base)@ == old(base)@
                    && node_view(**final(child)) == node_view(**old(child))
                    && *final(attempts) == *old(attempts)
                    && final(blackboard)@ == old(blackboard)@)
                &&& own_ports(before, old(blackboard)@) is None ==> (r matches Err(e)
                    ==> failed_below(before, after, e@))
            }),
        decreases size(node_view(**old(child))), 3int,
    {
        let ghost first = node_view(**child);
        let ghost status = base@.status;
        proof {
            lemma_single(first);
            lemma_single(reset(first));
            lemma_reset_idempotent(first);
            lemma_size_reset(first);
        }
        let fresh = base.status != NodeStatus::Running;
        let skip = if fresh && gate == DecoratorPolicy::SkipIf {
            match base.config.get_input::<bool>("condition", blackboard) {
                Ok(flag) => {
                    assert(port_gives::<bool>(base@.config, "condition"@, flag)) by {
                        assert(input_spec::<bool>(base@.config, blackboard@, "condition"@) == Ok::<
                            bool,
                            PortError,
                        >(flag));
                    }
                    flag
                },
                Err(e) => {
                    assert(port_fails::<bool>(base@.config, "condition"@, e)) by {
                        assert(input_spec::<bool>(base@.config, blackboard@, "condition"@) == Err::<
                            bool,
                            PortError,
                        >(e));
                    }
                    return Err(
                        NodeError::caused_by("the condition of a gate cannot be read", ErrorCause::Port(e)),
                    );
                },
            }
        } else {
            false
        };
        let max_attempts: u32 = if gate == DecoratorPolicy::Retry {
            match base.config.get_input::<u32>("num_attempts", blackboard) {
                Ok(k) => {
                    assert(port_gives::<u32>(base@.config, "num_attempts"@, k)) by {
                        assert(input_spec::<u32>(base@.config, blackboard@, "num_attempts"@) == Ok::<
                            u32,
                            PortError,
                        >(k));
                    }
                    k
                },
                Err(e) => {
                    assert(port_fails::<u32>(base@.config, "num_attempts"@, e)) by {
                        assert(input_spec::<u32>(base@.config, blackboard@, "num_attempts"@) == Err::<
                            u32,
                            PortError,
                        >(e));
                    }
                    return Err(
                        NodeError::caused_by("the number of attempts cannot be read", ErrorCause::Port(e)),
                    );
                },
            }
        } else {
            0
        };
        assert(attempts_given(gate, base@.config, max_attempts));
        assert(fresh && gate == DecoratorPolicy::SkipIf ==> port_gives::<bool>(
            base@.config,
            "condition"@,
            skip,
        ));
        if fresh {
            child.halt(blackboard);
            *attempts = 0;
        }
        let ghost found = node_view(**child);
        let ghost counted = *attempts as nat;
        proof {
            assert(found == base_of(status, first));
            lemma_single(found);
            lemma_size_reset(found);
            lemma_reset_idempotent(found);
        }
        if skip {
            base.status = NodeStatus::Skipped;
            proof {
                assert(decorator_round(
                    gate,
                    base@.config,
                    fresh,
                    found,
                    counted,
                    node_view(**child),
                    *attempts as nat,
                    NodeStatus::Skipped,
                ));
            }
            return Ok(NodeStatus::Skipped);
        }
        base.status = NodeStatus::Running;
        let answer = match child.tick(blackboard) {
            Ok(status) => status,
            Err(e) => {
                proof {
                    lemma_single(node_view(**child));
                }
                return Err(e);
            },
        };
        proof {
            lemma_single(node_view(**child));
            lemma_single(reset(node_view(**child)));
            lemma_reset_idempotent(node_view(**child));
        }
        match decorator_step(gate, answer, *attempts, max_attempts) {
            Step::Again => {
                child.halt(blackboard);
                *attempts = *attempts + 1;
                proof {
                    lemma_single(node_view(**child));
                    assert(decorator_round(
                        gate,
                        base@.config,
                        fresh,
                        found,
                        counted,
                        node_view(**child),
                        *attempts as nat,
                        NodeStatus::Running,
                    ));
                }
                Ok(NodeStatus::Running)
            },
            Step::Conclude(outcome) => {
                base.status = outcome;
                proof {
                    assert(decorates(gate, answer, counted, max_attempts as nat, outcome));
                    assert(decorator_round(
                        gate,
                        base@.config,
                        fresh,
                        found,
                        counted,
                        node_view(**child),
                        *attempts as nat,
                        outcome,
                    ));
                }
                Ok(outcome)
            },
            _ => {
                proof {
                    assert(decorates(gate, answer, counted, max_attempts as nat, NodeStatus::Running));
                    assert(decorator_round(
                        gate,
                        base@.config,
                        fresh,
                        found,
                        counted,
                        node_view(**child),
                        *attempts as nat,
                        NodeStatus::Running,
                    ));
                }
                Ok(NodeStatus::Running)
            },
        }
    }

    /// One tick of the node that stands for another tree.
    fn tick_subtree(base: &mut NodeCore, child: &mut Box<Node<L>>, blackboard: &mut Blackboard) -> (r:
        Result<NodeStatus, NodeError>)
        ensures
            ({
                let before = subtree_view(old(base)@, node_view(**old(child)));
                let after = subtree_view(final(base)@, node_view(**final(child)));
                &&& reset(after) == reset(before)
                &&& r matches Ok(s) ==> ticked(before, after, s)
                &&& r matches Err(e) ==> failed_below(before, after, e@)
            }),
        decreases size(node_view(**old(child))), 3int,
    {
        let ghost first = node_view(**child);
        proof {
            lemma_single(first);
            lemma_single(reset(first));
            lemma_reset_idempotent(first);
            lemma_size_reset(first);
        }
        if base.status != NodeStatus::Running {
            child.halt(blackboard);
        }
        base.status = NodeStatus::Running;
        let answer = match child.tick(blackboard) {
            Ok(status) => status,
            Err(e) => {
                proof {
                    lemma_single(node_view(**child));
                }
                return Err(e);
            },
        };
        proof {
            lemma_single(node_view(**child));
        }
        base.status = answer;
        Ok(answer)
    }
}

} // verus!
