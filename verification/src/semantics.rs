//! What a tick does to a node graph, as a relation between the graph before
//! and after the tick and the status that the tick reports, and as another
//! between the graph before and after a tick that fails and its failure.
//!
//! What the leaves answer is not decided here. The relation says what the
//! rest follows from their answers: which children a node ticks, which it
//! leaves alone, which it brings to rest, and what it reports. The answers
//! themselves are there to see: a node that was ticked keeps the status that
//! it answered with until its parent starts anew or is halted.
use vstd::prelude::*;
use crate::basic_types::NodeStatus;
use crate::nodes::{
    ControlPolicy,
    DecoratorPolicy,
    ErrorCause,
    NodeErrorView,
    NodeView,
    RoleView,
    Step,
    control_step_spec,
    decorator_step_spec,
    exhausted_spec,
    leaf_status_allowed,
    lemma_reset_all,
    parallel_outcome_spec,
    reset,
    reset_all,
    threshold_spec,
};
use crate::ports::{ConfigView, PortError, input_spec};
use crate::value::{AnyValueView, Storable};

verus! {

/// Whether the input port `name` gives `value` on some blackboard. A port
/// that is bound to a literal gives the same on every blackboard.
pub open spec fn port_gives<T: Storable>(config: ConfigView, name: Seq<char>, value: T::V) -> bool {
    exists|contents: Map<Seq<char>, AnyValueView>| #[trigger]
        input_spec::<T>(config, contents, name) == Ok::<T::V, PortError>(value)
}

/// Whether a parallel node works with the threshold `value`: what the port
/// `name` gives on some blackboard, or `fallback` where the port gives
/// nothing.
pub open spec fn threshold_given(config: ConfigView, name: Seq<char>, fallback: usize, value: usize) -> bool {
    exists|contents: Map<Seq<char>, AnyValueView>|
        threshold_spec(#[trigger] input_spec::<usize>(config, contents, name), fallback) == Ok::<
            usize,
            PortError,
        >(value)
}

/// Whether a decorator works with at most `max_attempts` attempts: what the
/// port `num_attempts` of a retrying decorator gives on some blackboard. The
/// other decorators count no attempts.
pub open spec fn attempts_given(policy: DecoratorPolicy, config: ConfigView, max_attempts: u32) -> bool {
    policy == DecoratorPolicy::Retry ==> port_gives::<u32>(config, "num_attempts"@, max_attempts)
}

/// The node as its parent leaves it when the parent concludes: at rest if
/// it was running, else as it is.
pub open spec fn settle(v: NodeView) -> NodeView {
    if v.status == NodeStatus::Running {
        reset(v)
    } else {
        v
    }
}

/// Each of the nodes as its parent leaves it when the parent concludes.
pub open spec fn settle_all(s: Seq<NodeView>) -> Seq<NodeView> {
    Seq::new(s.len(), |i: int| settle(s[i]))
}

/// How many of the nodes have the status `status`.
pub open spec fn count_with(s: Seq<NodeView>, status: NodeStatus) -> nat
    decreases s.len(),
{
    if s.len() == 0 {
        0
    } else {
        count_with(s.drop_last(), status) + if s.last().status == status {
            1nat
        } else {
            0nat
        }
    }
}

/// How many of the nodes have not concluded: they are running, or were
/// running and have been brought to rest.
pub open spec fn count_open(s: Seq<NodeView>) -> nat {
    count_with(s, NodeStatus::Running) + count_with(s, NodeStatus::Idle)
}

/// The child as the tick of its parent finds it: as it is while the parent
/// is running, at rest when the parent starts anew.
pub open spec fn base_of(parent: NodeStatus, child: NodeView) -> NodeView {
    if parent == NodeStatus::Running {
        child
    } else {
        reset(child)
    }
}

/// The children as the tick of their parent finds them.
pub open spec fn bases_of(parent: NodeStatus, children: Seq<NodeView>) -> Seq<NodeView> {
    if parent == NodeStatus::Running {
        children
    } else {
        reset_all(children)
    }
}

/// The place of the first child that a sequence or a fallback ticks: its
/// cursor while it is running, the first place when it starts anew.
pub open spec fn start_of(parent: NodeStatus, cursor: nat, children: nat) -> int {
    if parent != NodeStatus::Running {
        0
    } else if cursor <= children {
        cursor as int
    } else {
        children as int
    }
}

/// What a sequence or a fallback reports when the child that it stops at
/// has answered with `child`.
pub open spec fn stops_with(policy: ControlPolicy, child: NodeStatus, s: NodeStatus) -> bool {
    match control_step_spec(policy, child) {
        Step::Yield => s == NodeStatus::Running,
        Step::Conclude(outcome) => s == outcome,
        _ => false,
    }
}

/// What a decorator reports when its child has answered with `child`.
pub open spec fn decorates(
    policy: DecoratorPolicy,
    child: NodeStatus,
    attempts: nat,
    max_attempts: nat,
    s: NodeStatus,
) -> bool {
    match decorator_step_spec(policy, child, attempts, max_attempts) {
        Step::Yield => s == NodeStatus::Running,
        Step::Conclude(outcome) => s == outcome,
        _ => false,
    }
}

/// A tick of the node `before` that reports `s` leaves the node `after`.
///
/// The node keeps its name, type and ports, and has the status `s`, which is
/// not `Idle`. A leaf answers with what its kind allows. A composite that
/// was not running starts anew, with its children at rest; then its children
/// are ticked as its policy says, each of them in the same way; and if it
/// concludes, a child that is still running is brought to rest.
pub open spec fn ticked(before: NodeView, after: NodeView, s: NodeStatus) -> bool
    decreases after, 1int,
{
    &&& s != NodeStatus::Idle
    &&& after.name == before.name
    &&& after.registration_id == before.registration_id
    &&& after.config == before.config
    &&& after.status == s
    &&& reset(after) == reset(before)
    &&& match before.role {
        RoleView::Leaf(kind) => {
            &&& after.role == before.role
            &&& after.children.len() == 0
            &&& leaf_status_allowed(kind, before.status, s)
        },
        RoleView::Control(policy, cursor) => {
            &&& after.role matches RoleView::Control(same, stop)
            &&& same == policy
            &&& if policy == ControlPolicy::Parallel {
                &&& stop == start_of(before.status, cursor, before.children.len())
                &&& thresholds_report(
                    before.config,
                    before.children.len() as usize,
                    after.children,
                    s,
                )
                &&& parallel_round(
                    bases_of(before.status, before.children),
                    after.children,
                    s != NodeStatus::Running,
                )
            } else {
                ordered_round(
                    policy,
                    bases_of(before.status, before.children),
                    start_of(before.status, cursor, before.children.len()),
                    after.children,
                    stop as int,
                    s,
                    s != NodeStatus::Running,
                )
            }
        },
        RoleView::Decorator(policy, attempts) => {
            &&& after.role matches RoleView::Decorator(same, counted)
            &&& same == policy
            &&& before.children.len() == 1
            &&& after.children.len() == 1
            &&& decorator_round(
                policy,
                before.config,
                before.status != NodeStatus::Running,
                base_of(before.status, before.children[0]),
                if before.status == NodeStatus::Running {
                    attempts
                } else {
                    0
                },
                after.children[0],
                counted,
                s,
            )
        },
        RoleView::SubTree => {
            &&& after.role == before.role
            &&& before.children.len() == 1
            &&& after.children.len() == 1
            &&& ticked(base_of(before.status, before.children[0]), after.children[0], s)
        },
    }
}

/// One round of a sequence or a fallback that finds its children as `base`,
/// starts at `start`, stops at `stop` and reports `s`.
///
/// The children from `start` up to `stop` were ticked and have answered so
/// that the node went on. The child at `stop` was ticked and has answered
/// so that the node reports `s`; if `stop` is behind the last child, the
/// node reports what its policy gives when no child is left. No other child
/// was ticked. With `settled`, the children that were not ticked are left
/// as a node that concludes leaves them.
pub open spec fn ordered_round(
    policy: ControlPolicy,
    base: Seq<NodeView>,
    start: int,
    after: Seq<NodeView>,
    stop: int,
    s: NodeStatus,
    settled: bool,
) -> bool
    decreases after, 2int,
{
    &&& after.len() == base.len()
    &&& 0 <= start <= stop <= after.len()
    &&& stop == after.len() ==> s == exhausted_spec(policy)
    &&& forall|i: int|
        #![trigger after[i]]
        0 <= i < after.len() ==> if start <= i < stop {
            &&& ticked(base[i], after[i], after[i].status)
            &&& control_step_spec(policy, after[i].status) == Step::Advance
        } else if i == stop {
            &&& ticked(base[i], after[i], after[i].status)
            &&& stops_with(policy, after[i].status, s)
        } else {
            after[i] == if settled {
                settle(base[i])
            } else {
                base[i]
            }
        }
}

/// Whether a parallel node with this many children, whose round has left
/// its children as `children`, reports `s`: what the counts of the
/// children's statuses give with the thresholds that the node has on some
/// blackboard.
pub open spec fn thresholds_report(
    config: ConfigView,
    count: usize,
    children: Seq<NodeView>,
    s: NodeStatus,
) -> bool {
    exists|enough: usize, too_many: usize|
        {
            &&& #[trigger] threshold_given(config, "success_count"@, count, enough)
            &&& #[trigger] threshold_given(config, "failure_count"@, 1, too_many)
            &&& s == parallel_report(children, enough, too_many)
        }
}

/// One round of a parallel node that finds its children as `base`.
///
/// A child that had concluded is left alone. Every other child was ticked.
/// With `settled`, a child that was running after its tick has been brought
/// to rest.
pub open spec fn parallel_round(base: Seq<NodeView>, after: Seq<NodeView>, settled: bool) -> bool
    decreases after, 2int,
{
    &&& after.len() == base.len()
    &&& forall|i: int|
        #![trigger after[i]]
        0 <= i < after.len() ==> if base[i].status == NodeStatus::Success || base[i].status
            == NodeStatus::Failure {
            after[i] == base[i]
        } else if settled && after[i].status == NodeStatus::Idle {
            after[i] == reset(base[i])
        } else {
            &&& ticked(base[i], after[i], after[i].status)
            &&& settled ==> after[i].status != NodeStatus::Running
        }
}

/// One tick of a decorator that finds its child as `base`, after
/// `attempts` failed executions of the child, and reports `s`.
///
/// A gate whose condition holds when it starts anew reports `Skipped` and
/// does not tick its child. Else the child was ticked, and the decorator
/// reports what its policy makes of the child's answer; a child that has
/// failed and is to be tried again has been brought to rest, and the
/// failure is counted.
pub open spec fn decorator_round(
    policy: DecoratorPolicy,
    config: ConfigView,
    fresh: bool,
    base: NodeView,
    attempts: nat,
    after: NodeView,
    counted: nat,
    s: NodeStatus,
) -> bool
    decreases after, 2int,
{
    ||| {
        &&& policy == DecoratorPolicy::SkipIf
        &&& fresh
        &&& s == NodeStatus::Skipped
        &&& after == base
        &&& counted == attempts
        &&& port_gives::<bool>(config, "condition"@, true)
    }
    ||| exists|max_attempts: u32|
        {
            &&& #[trigger] attempts_given(policy, config, max_attempts)
            &&& policy == DecoratorPolicy::SkipIf && fresh ==> port_gives::<bool>(
                config,
                "condition"@,
                false,
            )
            &&& {
                ||| {
                    &&& s == NodeStatus::Running
                    &&& after == reset(base)
                    &&& counted == attempts + 1
                    &&& decorator_step_spec(
                        policy,
                        NodeStatus::Failure,
                        attempts,
                        max_attempts as nat,
                    ) == Step::Again
                }
                ||| {
                    &&& ticked(base, after, after.status)
                    &&& counted == attempts
                    &&& decorates(policy, after.status, attempts, max_attempts as nat, s)
                }
            }
        }
}

/// The failure of a tick for want of a port: the message says what could
/// not be read, and the cause is what the port gave instead.
pub open spec fn port_failure(message: Seq<char>, error: PortError) -> NodeErrorView {
    NodeErrorView { message, cause: Some(ErrorCause::Port(error)) }
}

/// Whether the input port `name` fails with `error` on some blackboard.
pub open spec fn port_fails<T: Storable>(config: ConfigView, name: Seq<char>, error: PortError) -> bool {
    exists|contents: Map<Seq<char>, AnyValueView>| #[trigger]
        input_spec::<T>(config, contents, name) == Err::<T::V, PortError>(error)
}

/// Whether a parallel node can have both of its thresholds, on some
/// blackboard each.
pub open spec fn thresholds_read(config: ConfigView, children: usize) -> bool {
    exists|enough: usize, too_many: usize|
        #![trigger threshold_given(config, "success_count"@, children, enough), threshold_given(config, "failure_count"@, 1, too_many)]
        threshold_given(config, "success_count"@, children, enough) && threshold_given(
            config,
            "failure_count"@,
            1,
            too_many,
        )
}

/// The thresholds that a parallel node with this many children works with
/// on a blackboard with these contents, the one for successes first, or the
/// failure of the node where one of them cannot be read.
pub open spec fn thresholds_decide(
    config: ConfigView,
    children: usize,
    contents: Map<Seq<char>, AnyValueView>,
) -> Result<(usize, usize), NodeErrorView> {
    match threshold_spec(input_spec::<usize>(config, contents, "success_count"@), children) {
        Err(error) => Err(port_failure("the success threshold cannot be read"@, error)),
        Ok(enough) => match threshold_spec(
            input_spec::<usize>(config, contents, "failure_count"@),
            1,
        ) {
            Err(error) => Err(port_failure("the failure threshold cannot be read"@, error)),
            Ok(too_many) => Ok((enough, too_many)),
        },
    }
}

/// Whether a parallel node fails before it does anything, with `e`: on some
/// blackboard, one of its thresholds cannot be read.
pub open spec fn thresholds_fail(config: ConfigView, children: usize, e: NodeErrorView) -> bool {
    exists|contents: Map<Seq<char>, AnyValueView>| #[trigger]
        thresholds_decide(config, children, contents) == Err::<(usize, usize), NodeErrorView>(e)
}

/// Whether a decorator fails before it does anything, with `e`: a gate
/// that starts anew cannot read its condition, or a retrying decorator
/// cannot read the number of attempts.
pub open spec fn decorator_port_fails(
    policy: DecoratorPolicy,
    config: ConfigView,
    fresh: bool,
    e: NodeErrorView,
) -> bool {
    ||| policy == DecoratorPolicy::SkipIf && fresh && exists|error: PortError| #[trigger]
        port_fails::<bool>(config, "condition"@, error) && e == port_failure(
            "the condition of a gate cannot be read"@,
            error,
        )
    ||| policy == DecoratorPolicy::Retry && exists|error: PortError| #[trigger]
        port_fails::<u32>(config, "num_attempts"@, error) && e == port_failure(
            "the number of attempts cannot be read"@,
            error,
        )
}

/// What a tick gives, with the failure as its model.
pub open spec fn outcome_view(r: Result<NodeStatus, crate::nodes::NodeError>) -> Result<
    NodeStatus,
    NodeErrorView,
> {
    match r {
        Ok(s) => Ok(s),
        Err(e) => Err(e@),
    }
}

/// What the ports of a decorator decide on a blackboard with these
/// contents, before its child is looked at: a gate that starts anew and
/// cannot read its condition fails, and one whose condition holds reports
/// `Skipped`; a retrying decorator that cannot read the number of attempts
/// fails. Where the ports decide nothing, the child is ticked.
pub open spec fn ports_decide(
    policy: DecoratorPolicy,
    config: ConfigView,
    fresh: bool,
    contents: Map<Seq<char>, AnyValueView>,
) -> Option<Result<NodeStatus, NodeErrorView>> {
    if policy == DecoratorPolicy::SkipIf && fresh {
        match input_spec::<bool>(config, contents, "condition"@) {
            Err(error) => Some(
                Err(port_failure("the condition of a gate cannot be read"@, error)),
            ),
            Ok(flag) => if flag {
                Some(Ok(NodeStatus::Skipped))
            } else {
                None
            },
        }
    } else if policy == DecoratorPolicy::Retry {
        match input_spec::<u32>(config, contents, "num_attempts"@) {
            Err(error) => Some(
                Err(port_failure("the number of attempts cannot be read"@, error)),
            ),
            Ok(_) => None,
        }
    } else {
        None
    }
}

/// What the ports of the node itself decide on a blackboard with these
/// contents, before anything is changed: the failure of a parallel node
/// that cannot read a threshold, and what the ports of a decorator decide.
/// Where they decide nothing, the tick goes on to the children.
pub open spec fn own_ports(node: NodeView, contents: Map<Seq<char>, AnyValueView>) -> Option<
    Result<NodeStatus, NodeErrorView>,
> {
    match node.role {
        RoleView::Decorator(policy, _) => ports_decide(
            policy,
            node.config,
            node.status != NodeStatus::Running,
            contents,
        ),
        RoleView::Control(policy, _) => if policy == ControlPolicy::Parallel {
            match thresholds_decide(node.config, node.children.len() as usize, contents) {
                Err(e) => Some(Err(e)),
                Ok(_) => None,
            }
        } else {
            None
        },
        _ => None,
    }
}

/// Whether the node fails before it does anything, with `e`, for want of
/// one of its own ports on some blackboard.
pub open spec fn ports_fail(node: NodeView, e: NodeErrorView) -> bool {
    match node.role {
        RoleView::Decorator(policy, _) => decorator_port_fails(
            policy,
            node.config,
            node.status != NodeStatus::Running,
            e,
        ),
        RoleView::Control(policy, _) => policy == ControlPolicy::Parallel && thresholds_fail(
            node.config,
            node.children.len() as usize,
            e,
        ),
        _ => false,
    }
}

/// A tick of the node `before` that fails with `e` leaves the node `after`.
///
/// A tick fails only where a leaf fails or answers with what it may not
/// give, or where a node cannot read a port that it needs. A node that
/// cannot read its own ports is left as it was. Else the failure has come
/// from below.
pub open spec fn failed(before: NodeView, after: NodeView, e: NodeErrorView) -> bool
    decreases after, 1int,
{
    &&& after.name == before.name
    &&& after.registration_id == before.registration_id
    &&& after.config == before.config
    &&& reset(after) == reset(before)
    &&& {
        ||| after == before && ports_fail(before, e)
        ||| failed_below(before, after, e)
    }
}

/// A tick of the node `before` leaves the node `after` when it fails with
/// `e` for what a leaf in it has done, not for the node's own ports.
///
/// A leaf that fails is left as it was. Every other node is left running,
/// with its children as far as the round has come: those before the
/// failing child as their ticks have left them, the failing child as its
/// failing tick has left it, and those behind it as the round has found
/// them.
pub open spec fn failed_below(before: NodeView, after: NodeView, e: NodeErrorView) -> bool
    decreases after, 0int,
{
    match before.role {
        RoleView::Leaf(_) => after == before,
        RoleView::Control(policy, cursor) => {
            &&& after.status == NodeStatus::Running
            &&& after.role matches RoleView::Control(same, stop)
            &&& same == policy
            &&& if policy == ControlPolicy::Parallel {
                &&& stop == start_of(before.status, cursor, before.children.len())
                &&& thresholds_read(before.config, before.children.len() as usize)
                &&& parallel_failed(bases_of(before.status, before.children), after.children, e)
            } else {
                ordered_failed(
                    policy,
                    bases_of(before.status, before.children),
                    start_of(before.status, cursor, before.children.len()),
                    after.children,
                    stop as int,
                    e,
                )
            }
        },
        RoleView::Decorator(policy, attempts) => {
            &&& after.status == NodeStatus::Running
            &&& after.role == RoleView::Decorator(
                policy,
                if before.status == NodeStatus::Running {
                    attempts
                } else {
                    0
                },
            )
            &&& before.children.len() == 1
            &&& after.children.len() == 1
            &&& failed(base_of(before.status, before.children[0]), after.children[0], e)
        },
        RoleView::SubTree => {
            &&& after.status == NodeStatus::Running
            &&& after.role == before.role
            &&& before.children.len() == 1
            &&& after.children.len() == 1
            &&& failed(base_of(before.status, before.children[0]), after.children[0], e)
        },
    }
}

/// What a parallel node reports after a round that has left its children
/// as `children`, with these thresholds.
pub open spec fn parallel_report(children: Seq<NodeView>, enough: usize, too_many: usize) -> NodeStatus {
    parallel_outcome_spec(
        count_with(children, NodeStatus::Success),
        count_with(children, NodeStatus::Failure),
        count_open(children),
        enough as nat,
        too_many as nat,
    )
}

/// One round of a sequence or a fallback that finds its children as `base`,
/// starts at `start` and fails at `stop` with `e`.
///
/// The children from `start` up to `stop` were ticked and have answered so
/// that the node went on. The tick of the child at `stop` has failed with
/// `e`. No other child was ticked.
pub open spec fn ordered_failed(
    policy: ControlPolicy,
    base: Seq<NodeView>,
    start: int,
    after: Seq<NodeView>,
    stop: int,
    e: NodeErrorView,
) -> bool
    decreases after, 2int,
{
    &&& after.len() == base.len()
    &&& 0 <= start <= stop < after.len()
    &&& forall|i: int|
        #![trigger after[i]]
        0 <= i < after.len() ==> if start <= i < stop {
            &&& ticked(base[i], after[i], after[i].status)
            &&& control_step_spec(policy, after[i].status) == Step::Advance
        } else if i == stop {
            failed(base[i], after[i], e)
        } else {
            after[i] == base[i]
        }
}

/// One round of a parallel node that finds its children as `base` and
/// fails with `e`.
///
/// The tick of a child has failed with `e`, the children before it that
/// had not concluded were ticked, and no child behind it was ticked.
pub open spec fn parallel_failed(base: Seq<NodeView>, after: Seq<NodeView>, e: NodeErrorView) -> bool
    decreases after, 2int,
{
    &&& after.len() == base.len()
    &&& exists|at: int|
        #![trigger after[at]]
        {
            &&& 0 <= at < after.len()
            &&& base[at].status != NodeStatus::Success
            &&& base[at].status != NodeStatus::Failure
            &&& failed(base[at], after[at], e)
            &&& forall|i: int|
                #![trigger after[i]]
                0 <= i < after.len() && i != at ==> if i > at || base[i].status
                    == NodeStatus::Success || base[i].status == NodeStatus::Failure {
                    after[i] == base[i]
                } else {
                    ticked(base[i], after[i], after[i].status)
                }
        }
}

/// A sequence or a fallback that has no child left to tick does not fail:
/// it reports what its policy gives when no child is left.
pub proof fn lemma_nothing_left(before: NodeView, after: NodeView)
    requires
        before.role matches RoleView::Control(policy, cursor) && policy != ControlPolicy::Parallel
            && start_of(before.status, cursor, before.children.len()) == before.children.len(),
    ensures
        forall|e: NodeErrorView| !failed(before, after, e),
        forall|s: NodeStatus|
            ticked(before, after, s) ==> s == exhausted_spec(before.role->Control_0),
{
    lemma_reset_all(before.children);
    let policy = before.role->Control_0;
    let base = bases_of(before.status, before.children);
    let start = start_of(before.status, before.role->Control_1, before.children.len());
    assert forall|e: NodeErrorView| !failed(before, after, e) by {
        if failed(before, after, e) {
            assert(failed_below(before, after, e));
            assert(ordered_failed(policy, base, start, after.children, after.role->Control_1 as int, e));
        }
    }
    assert forall|s: NodeStatus| ticked(before, after, s) implies s == exhausted_spec(policy) by {
        assert(ordered_round(
            policy,
            base,
            start,
            after.children,
            after.role->Control_1 as int,
            s,
            s != NodeStatus::Running,
        ));
    }
}

/// A condition never reports `Running`: it concludes within the tick.
pub proof fn lemma_condition_concludes(before: NodeView, after: NodeView, s: NodeStatus)
    requires
        ticked(before, after, s),
        before.role == RoleView::Leaf(crate::nodes::LeafKind::Condition),
    ensures
        s == NodeStatus::Success || s == NodeStatus::Failure,
{
}

/// A node that concludes leaves no child running.
pub proof fn lemma_concluded_children(before: NodeView, after: NodeView, s: NodeStatus)
    requires
        ticked(before, after, s),
        s != NodeStatus::Running,
    ensures
        forall|i: int| 0 <= i < after.children.len() ==> (#[trigger] after.children[i]).status
            != NodeStatus::Running,
{
    reveal_with_fuel(ticked, 2);
    let children = after.children;
    assert forall|i: int| 0 <= i < children.len() implies (#[trigger] children[i]).status
        != NodeStatus::Running by {
        match before.role {
            RoleView::Leaf(_) => {},
            RoleView::Control(policy, cursor) => {
                let base = bases_of(before.status, before.children);
                if policy == ControlPolicy::Parallel {
                    assert(parallel_round(base, children, true));
                } else {
                    let start = start_of(before.status, cursor, before.children.len());
                    let stop = after.role->Control_1 as int;
                    assert(ordered_round(policy, base, start, children, stop, s, true));
                    if start <= i < stop {
                    } else if i == stop {
                        assert(stops_with(policy, children[i].status, s));
                    } else {
                        assert(children[i] == settle(base[i]));
                    }
                }
            },
            RoleView::Decorator(policy, attempts) => {
                assert(i == 0);
                if before.status != NodeStatus::Running {
                    assert(base_of(before.status, before.children[0]).status == NodeStatus::Idle);
                }
            },
            RoleView::SubTree => {
                assert(i == 0);
            },
        }
    }
}

/// Nodes that are brought to rest where they are running are the same
/// nodes at rest.
pub proof fn lemma_settle_at_rest(s: Seq<NodeView>)
    ensures
        reset_all(settle_all(s)) == reset_all(s),
{
    lemma_reset_all(s);
    lemma_reset_all(settle_all(s));
    assert forall|i: int| 0 <= i < s.len() implies reset(settle_all(s)[i]) == reset(s[i]) by {
        crate::nodes::lemma_reset_idempotent(s[i]);
    }
    assert(reset_all(settle_all(s)) =~= reset_all(s));
}

/// Bringing the running nodes to rest changes no count of nodes that have
/// concluded, nor the count of those that have not.
pub proof fn lemma_settle_counts(s: Seq<NodeView>)
    ensures
        count_with(settle_all(s), NodeStatus::Success) == count_with(s, NodeStatus::Success),
        count_with(settle_all(s), NodeStatus::Failure) == count_with(s, NodeStatus::Failure),
        count_open(settle_all(s)) == count_open(s),
    decreases s.len(),
{
    if s.len() > 0 {
        lemma_settle_counts(s.drop_last());
        assert(settle_all(s).drop_last() =~= settle_all(s.drop_last()));
        assert(settle_all(s).last() == settle(s.last()));
    }
}

/// A round of a sequence or a fallback that concludes: once the running
/// children are brought to rest, the round is the settled round.
pub proof fn lemma_ordered_settle(
    policy: ControlPolicy,
    base: Seq<NodeView>,
    start: int,
    mid: Seq<NodeView>,
    stop: int,
    s: NodeStatus,
)
    requires
        ordered_round(policy, base, start, mid, stop, s, false),
        s != NodeStatus::Running,
    ensures
        ordered_round(policy, base, start, settle_all(mid), stop, s, true),
{
    let after = settle_all(mid);
    assert forall|i: int| #![trigger after[i]] 0 <= i < after.len() implies if start <= i < stop {
        &&& ticked(base[i], after[i], after[i].status)
        &&& control_step_spec(policy, after[i].status) == Step::Advance
    } else if i == stop {
        &&& ticked(base[i], after[i], after[i].status)
        &&& stops_with(policy, after[i].status, s)
    } else {
        after[i] == settle(base[i])
    } by {
        assert(after[i] == settle(mid[i]));
    }
}

/// A round of a parallel node that concludes: once the running children are
/// brought to rest, the round is the settled round, and the counts that the
/// node reports from are the same.
pub proof fn lemma_parallel_settle(base: Seq<NodeView>, mid: Seq<NodeView>, enough: usize, too_many: usize)
    requires
        parallel_round(base, mid, false),
    ensures
        parallel_round(base, settle_all(mid), true),
        parallel_report(settle_all(mid), enough, too_many) == parallel_report(mid, enough, too_many),
{
    let after = settle_all(mid);
    lemma_settle_counts(mid);
    assert forall|i: int| #![trigger after[i]] 0 <= i < after.len() implies if base[i].status
        == NodeStatus::Success || base[i].status == NodeStatus::Failure {
        after[i] == base[i]
    } else if after[i].status == NodeStatus::Idle {
        after[i] == reset(base[i])
    } else {
        &&& ticked(base[i], after[i], after[i].status)
        &&& after[i].status != NodeStatus::Running
    } by {
        assert(after[i] == settle(mid[i]));
    }
}

/// A sequence or a fallback that starts anew stops at the first child
/// whose answer does not let it go on: no child behind that one is ticked,
/// and the node reports what its policy makes of that answer.
pub proof fn lemma_stops_at_first(before: NodeView, after: NodeView, s: NodeStatus, at: int)
    requires
        ticked(before, after, s),
        before.role matches RoleView::Control(policy, _) && policy != ControlPolicy::Parallel,
        before.status != NodeStatus::Running,
        0 <= at < after.children.len(),
        forall|i: int|
            0 <= i < at ==> control_step_spec(
                before.role->Control_0,
                (#[trigger] after.children[i]).status,
            ) == Step::Advance,
        control_step_spec(before.role->Control_0, after.children[at].status) != Step::Advance,
    ensures
        after.role == RoleView::Control(before.role->Control_0, at as nat),
        stops_with(before.role->Control_0, after.children[at].status, s),
        forall|i: int|
            at < i < after.children.len() ==> (#[trigger] after.children[i]) == reset(
                before.children[i],
            ),
{
    let policy = before.role->Control_0;
    let base = bases_of(before.status, before.children);
    let stop = after.role->Control_1 as int;
    let children = after.children;
    let settled = s != NodeStatus::Running;
    assert(ordered_round(policy, base, 0, children, stop, s, settled));
    lemma_reset_all(before.children);
    if stop < at {
        assert(stops_with(policy, children[stop].status, s));
    } else if stop > at {
        assert(control_step_spec(policy, children[at].status) == Step::Advance);
    }
    assert(stop == at);
    assert(stops_with(policy, children[at].status, s));
    assert forall|i: int| at < i < children.len() implies (#[trigger] children[i]) == reset(
        before.children[i],
    ) by {
        assert(children[i] == if settled {
            settle(base[i])
        } else {
            base[i]
        });
        assert(base[i] == reset(before.children[i]));
    }
}

/// A sequence that starts anew and whose first child succeeds while its
/// second child is running reports `Running` and has not ticked a third
/// child.
pub proof fn lemma_sequence_waits(before: NodeView, after: NodeView, s: NodeStatus)
    requires
        ticked(before, after, s),
        before.role matches RoleView::Control(policy, _) && policy == ControlPolicy::Sequence,
        before.status != NodeStatus::Running,
        after.children.len() >= 2,
        after.children[0].status == NodeStatus::Success,
        after.children[1].status == NodeStatus::Running,
    ensures
        s == NodeStatus::Running,
        forall|i: int|
            2 <= i < after.children.len() ==> (#[trigger] after.children[i]) == reset(
                before.children[i],
            ),
{
    lemma_stops_at_first(before, after, s, 1);
}

/// A fallback that starts anew and whose first child fails while its second
/// child succeeds reports `Success` and has not ticked a third child.
pub proof fn lemma_fallback_succeeds(before: NodeView, after: NodeView, s: NodeStatus)
    requires
        ticked(before, after, s),
        before.role matches RoleView::Control(policy, _) && policy == ControlPolicy::Fallback,
        before.status != NodeStatus::Running,
        after.children.len() >= 2,
        after.children[0].status == NodeStatus::Failure,
        after.children[1].status == NodeStatus::Success,
    ensures
        s == NodeStatus::Success,
        forall|i: int|
            2 <= i < after.children.len() ==> (#[trigger] after.children[i]) == reset(
                before.children[i],
            ),
{
    lemma_stops_at_first(before, after, s, 1);
}

/// A sequence that reports `Success` has seen no child fail: each of its
/// children has succeeded or was passed over.
pub proof fn lemma_sequence_success(before: NodeView, after: NodeView)
    requires
        ticked(before, after, NodeStatus::Success),
        before.role matches RoleView::Control(policy, _) && policy == ControlPolicy::Sequence,
        before.status != NodeStatus::Running,
    ensures
        forall|i: int|
            0 <= i < after.children.len() ==> (#[trigger] after.children[i]).status
                == NodeStatus::Success || after.children[i].status == NodeStatus::Skipped,
{
    let base = bases_of(before.status, before.children);
    let stop = after.role->Control_1 as int;
    let children = after.children;
    assert(ordered_round(ControlPolicy::Sequence, base, 0, children, stop, NodeStatus::Success, true));
    if stop < children.len() {
        assert(stops_with(ControlPolicy::Sequence, children[stop].status, NodeStatus::Success));
    }
    assert forall|i: int| 0 <= i < children.len() implies (#[trigger] children[i]).status
        == NodeStatus::Success || children[i].status == NodeStatus::Skipped by {
        assert(control_step_spec(ControlPolicy::Sequence, children[i].status) == Step::Advance);
    }
}

/// A stateful action that is halted is idle, and its next tick starts it
/// anew: it is not continued.
pub proof fn lemma_halted_action_starts_anew(v: NodeView)
    ensures
        reset(v).status == NodeStatus::Idle,
        crate::nodes::leaf_call_spec(crate::nodes::LeafKind::StatefulAction, reset(v).status)
            == crate::nodes::LeafCall::OnStart,
{
}

/// Whether nothing is left in mid-execution below a node that is not
/// running itself: every node below `v` that is running has a parent that
/// is running.
pub open spec fn orderly(v: NodeView) -> bool
    decreases v,
{
    forall|i: int|
        #![trigger v.children[i]]
        0 <= i < v.children.len() ==> orderly(v.children[i]) && (v.children[i].status
            == NodeStatus::Running ==> v.status == NodeStatus::Running)
}

/// A node at rest is orderly.
pub proof fn lemma_rest_is_orderly(v: NodeView)
    ensures
        orderly(reset(v)),
    decreases v,
{
    lemma_reset_all(v.children);
    let r = reset(v);
    assert forall|i: int| #![trigger r.children[i]] 0 <= i < r.children.len() implies orderly(
        r.children[i],
    ) && (r.children[i].status == NodeStatus::Running ==> r.status == NodeStatus::Running) by {
        lemma_rest_is_orderly(v.children[i]);
    }
}

/// A tick keeps a node graph orderly: when a node concludes, nothing below
/// it is left in mid-execution.
pub proof fn lemma_tick_keeps_order(before: NodeView, after: NodeView, s: NodeStatus)
    requires
        ticked(before, after, s),
        orderly(before),
    ensures
        orderly(after),
    decreases after,
{
    let children = after.children;
    if s != NodeStatus::Running {
        lemma_concluded_children(before, after, s);
    }
    lemma_reset_all(before.children);
    assert forall|i: int| #![trigger children[i]] 0 <= i < children.len() implies orderly(
        children[i],
    ) by {
        match before.role {
            RoleView::Leaf(_) => {},
            RoleView::Control(policy, cursor) => {
                let base = bases_of(before.status, before.children);
                assert(base.len() == children.len() && before.children.len() == children.len()) by {
                    if policy == ControlPolicy::Parallel {
                        assert(parallel_round(base, children, s != NodeStatus::Running));
                    } else {
                        assert(ordered_round(
                            policy,
                            base,
                            start_of(before.status, cursor, before.children.len()),
                            children,
                            after.role->Control_1 as int,
                            s,
                            s != NodeStatus::Running,
                        ));
                    }
                }
                assert(orderly(base[i])) by {
                    if before.status == NodeStatus::Running {
                        assert(orderly(before.children[i]));
                    } else {
                        lemma_rest_is_orderly(before.children[i]);
                    }
                }
                lemma_rest_is_orderly(base[i]);
                if policy == ControlPolicy::Parallel {
                    assert(parallel_round(base, children, s != NodeStatus::Running));
                    if base[i].status == NodeStatus::Success || base[i].status
                        == NodeStatus::Failure {
                    } else if s != NodeStatus::Running && children[i].status == NodeStatus::Idle {
                    } else {
                        lemma_tick_keeps_order(base[i], children[i], children[i].status);
                    }
                } else {
                    let start = start_of(before.status, cursor, before.children.len());
                    let stop = after.role->Control_1 as int;
                    assert(ordered_round(
                        policy,
                        base,
                        start,
                        children,
                        stop,
                        s,
                        s != NodeStatus::Running,
                    ));
                    if start <= i <= stop {
                        lemma_tick_keeps_order(base[i], children[i], children[i].status);
                    }
                }
            },
            RoleView::Decorator(policy, attempts) => {
                assert(i == 0);
                let base = base_of(before.status, before.children[0]);
                assert(orderly(base)) by {
                    if before.status == NodeStatus::Running {
                        assert(orderly(before.children[0]));
                    } else {
                        lemma_rest_is_orderly(before.children[0]);
                    }
                }
                lemma_rest_is_orderly(base);
                assert(decorator_round(
                    policy,
                    before.config,
                    before.status != NodeStatus::Running,
                    base,
                    if before.status == NodeStatus::Running {
                        attempts
                    } else {
                        0
                    },
                    children[0],
                    after.role->Decorator_1,
                    s,
                ));
                if children[0] != base && children[0] != reset(base) {
                    assert(ticked(base, children[0], children[0].status));
                    lemma_tick_keeps_order(base, children[0], children[0].status);
                }
            },
            RoleView::SubTree => {
                assert(i == 0);
                let base = base_of(before.status, before.children[0]);
                assert(orderly(base)) by {
                    if before.status == NodeStatus::Running {
                        assert(orderly(before.children[0]));
                    } else {
                        lemma_rest_is_orderly(before.children[0]);
                    }
                }
                lemma_tick_keeps_order(base, children[0], s);
            },
        }
    }
}

} // verus!
