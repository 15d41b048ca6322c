//! The factory, which knows the node types and the trees and makes node
//! graphs of them, and the tree, which drives a node graph tick by tick.
use vstd::prelude::*;
use crate::basic_types::{
    ManifestView,
    NodeStatus,
    NodeType,
    PortDirection,
    PortInfo,
    PortInfoView,
    PortsList,
    TreeNodeManifest,
    ports_view,
};
use crate::blackboard::Blackboard;
use crate::document::{
    Element,
    ElementView,
    ParseError,
    TreeDefView,
    TreeDefinition,
    TreeDocument,
    attribute_value,
    find_tree,
    has_tree,
    lemma_tree_index,
    lemma_weights_index,
    parse,
    parse_document,
    tree_index,
    trees_view,
    weight,
    weights,
};
use crate::nodes::{
    ControlPolicy,
    DecoratorPolicy,
    LeafKind,
    Node,
    NodeError,
    NodeView,
    RoleView,
    TreeNode,
    lemma_node_views,
    node_views,
    reset,
    reset_all,
};
use crate::ports::{ConfigView, NodeConfig, PortError, binding_of};
use crate::semantics::{failed, ticked};
use crate::text::text_eq;
use crate::text_map::TextMap;
use crate::value::AnyValueView;

verus! {

/// Why a node type cannot be registered or a tree cannot be made.
#[derive(Debug, Clone, Copy, PartialEq, Eq, Structural)]
pub enum BuildError {
    /// An element names a node type that is not registered.
    UnknownNodeType,
    /// No tree has the name that is asked for.
    UnknownSubTree,
    /// A tree holds itself, directly or through other trees.
    CyclicSubTree,
    /// The identifier is taken.
    DuplicateRegistration,
    /// An element has children that its node type cannot take: a leaf has
    /// some, or a decorator has not exactly one.
    InvalidChildren,
    /// An attribute of an element cannot be bound to a port.
    Port(PortError),
}

/// Makes the leaves of one node type.
pub trait NodeConstructor {
    type Leaf: TreeNode;

    /// A leaf for the node instance of this name and these ports.
    fn construct(&self, name: &str, config: &NodeConfig) -> Self::Leaf;
}

/// What is done between two rounds of ticking, while the root is running.
pub trait Pause {
    fn pause(&mut self);
}

/// What a registered node type makes.
#[derive(Debug, Clone, Copy, PartialEq, Eq, Structural)]
pub enum RoleKind {
    Leaf(LeafKind),
    Control(ControlPolicy),
    Decorator(DecoratorPolicy),
}

enum Builder<C> {
    Leaf(LeafKind, C),
    Control(ControlPolicy),
    Decorator(DecoratorPolicy),
}

struct Registration<C> {
    manifest: TreeNodeManifest,
    builder: Builder<C>,
}

/// The model of a registered node type.
pub struct RegistrationView {
    pub manifest: ManifestView,
    pub role: RoleKind,
}

impl<C> View for Registration<C> {
    type V = RegistrationView;

    closed spec fn view(&self) -> RegistrationView {
        RegistrationView {
            manifest: self.manifest@,
            role: match self.builder {
                Builder::Leaf(kind, _) => RoleKind::Leaf(kind),
                Builder::Control(policy) => RoleKind::Control(policy),
                Builder::Decorator(policy) => RoleKind::Decorator(policy),
            },
        }
    }
}

/// The tag of the element that stands for another tree.
pub open spec fn subtree_tag() -> Seq<char> {
    "SubTree"@
}

/// Whether an attribute of this name says something of the node itself,
/// not of one of its ports.
pub open spec fn reserved_attribute(name: Seq<char>) -> bool {
    name == "name"@ || name == "ID"@
}

/// The name of the node that an element describes: its attribute `name`,
/// or its tag where it has none.
pub open spec fn node_name(element: ElementView) -> Seq<char> {
    match attribute_value(element.attributes, "name"@) {
        Some(name) => name,
        None => element.tag,
    }
}

/// The configuration that a list of attributes gives a node of a type
/// with these ports: each attribute binds the port of its name, a later
/// one over an earlier one, and the first attribute that names no port
/// is an error.
pub open spec fn plan_config(
    ports: Map<Seq<char>, PortInfoView>,
    attributes: Seq<(Seq<char>, Seq<char>)>,
) -> Result<ConfigView, PortError>
    decreases attributes.len(),
{
    if attributes.len() == 0 {
        Ok(ConfigView { ports, bindings: Map::empty() })
    } else {
        match plan_config(ports, attributes.drop_last()) {
            Err(e) => Err(e),
            Ok(config) => if reserved_attribute(attributes.last().0) {
                Ok(config)
            } else if !ports.contains_key(attributes.last().0) {
                Err(PortError::UnknownPort)
            } else {
                Ok(
                    ConfigView {
                        bindings: config.bindings.insert(
                            attributes.last().0,
                            binding_of(attributes.last().1),
                        ),
                        ..config
                    },
                )
            },
        }
    }
}

/// The node graph that an element describes, at rest, or what is wrong
/// with the first element, in the order of the text, that describes none.
///
/// `path` holds the names of the trees that the element lies in, from the
/// outermost one inwards. `fuel` bounds how many more trees may be entered.
pub open spec fn plan_element(
    registry: Map<Seq<char>, RegistrationView>,
    trees: Seq<TreeDefView>,
    element: ElementView,
    path: Seq<Seq<char>>,
    fuel: nat,
) -> Result<NodeView, BuildError>
    decreases fuel, element, 0int,
{
    if element.tag == subtree_tag() {
        match attribute_value(element.attributes, "ID"@) {
            None => Err(BuildError::UnknownSubTree),
            Some(id) => if path.contains(id) {
                Err(BuildError::CyclicSubTree)
            } else {
                match tree_index(trees, id) {
                    None => Err(BuildError::UnknownSubTree),
                    Some(at) => match plan_config(Map::empty(), element.attributes) {
                        Err(e) => Err(BuildError::Port(e)),
                        Ok(config) => if fuel == 0 || !(0 <= at < trees.len()) {
                            Err(BuildError::CyclicSubTree)
                        } else {
                            match plan_element(
                                registry,
                                trees,
                                trees[at].root,
                                path.push(id),
                                (fuel - 1) as nat,
                            ) {
                                Err(e) => Err(e),
                                Ok(child) => Ok(
                                    NodeView {
                                        name: node_name(element),
                                        registration_id: element.tag,
                                        config,
                                        status: NodeStatus::Idle,
                                        role: RoleView::SubTree,
                                        children: seq![child],
                                    },
                                ),
                            }
                        },
                    },
                }
            },
        }
    } else if !registry.contains_key(element.tag) {
        Err(BuildError::UnknownNodeType)
    } else {
        let entry = registry[element.tag];
        match plan_config(entry.manifest.ports, element.attributes) {
            Err(e) => Err(BuildError::Port(e)),
            Ok(config) => match entry.role {
                RoleKind::Leaf(kind) => if element.children.len() != 0 {
                    Err(BuildError::InvalidChildren)
                } else {
                    Ok(
                        NodeView {
                            name: node_name(element),
                            registration_id: element.tag,
                            config,
                            status: NodeStatus::Idle,
                            role: RoleView::Leaf(kind),
                            children: Seq::empty(),
                        },
                    )
                },
                RoleKind::Decorator(policy) => if element.children.len() != 1 {
                    Err(BuildError::InvalidChildren)
                } else {
                    match plan_element(registry, trees, element.children[0], path, fuel) {
                        Err(e) => Err(e),
                        Ok(child) => Ok(
                            NodeView {
                                name: node_name(element),
                                registration_id: element.tag,
                                config,
                                status: NodeStatus::Idle,
                                role: RoleView::Decorator(policy, 0),
                                children: seq![child],
                            },
                        ),
                    }
                },
                RoleKind::Control(policy) => match plan_children(
                    registry,
                    trees,
                    element.children,
                    path,
                    fuel,
                ) {
                    Err(e) => Err(e),
                    Ok(children) => Ok(
                        NodeView {
                            name: node_name(element),
                            registration_id: element.tag,
                            config,
                            status: NodeStatus::Idle,
                            role: RoleView::Control(policy, 0),
                            children,
                        },
                    ),
                },
            },
        }
    }
}

/// The node graphs that the elements of a list describe.
pub open spec fn plan_children(
    registry: Map<Seq<char>, RegistrationView>,
    trees: Seq<TreeDefView>,
    elements: Seq<ElementView>,
    path: Seq<Seq<char>>,
    fuel: nat,
) -> Result<Seq<NodeView>, BuildError>
    decreases fuel, elements, 1int,
{
    if elements.len() == 0 {
        Ok(Seq::empty())
    } else {
        match plan_children(registry, trees, elements.drop_last(), path, fuel) {
            Err(e) => Err(e),
            Ok(front) => match plan_element(registry, trees, elements.last(), path, fuel) {
                Err(e) => Err(e),
                Ok(node) => Ok(front.push(node)),
            },
        }
    }
}

/// The model of a factory.
pub struct FactoryView {
    /// The node types, by identifier.
    pub registry: Map<Seq<char>, RegistrationView>,
    /// The trees, in the order in which they were added.
    pub trees: Seq<TreeDefView>,
}

/// The node graph that the tree named `id` describes.
pub open spec fn plan_tree(factory: FactoryView, id: Seq<char>) -> Result<NodeView, BuildError> {
    match tree_index(factory.trees, id) {
        None => Err(BuildError::UnknownSubTree),
        Some(at) => plan_element(
            factory.registry,
            factory.trees,
            factory.trees[at].root,
            seq![id],
            factory.trees.len(),
        ),
    }
}

/// An element of a node type that is not registered describes no node
/// graph: the error is `UnknownNodeType`.
pub proof fn lemma_unregistered_type(
    registry: Map<Seq<char>, RegistrationView>,
    trees: Seq<TreeDefView>,
    element: ElementView,
    path: Seq<Seq<char>>,
    fuel: nat,
)
    requires
        element.tag != subtree_tag(),
        !registry.contains_key(element.tag),
    ensures
        plan_element(registry, trees, element, path, fuel) == Err::<NodeView, BuildError>(
            BuildError::UnknownNodeType,
        ),
{
}

/// A list of elements describes node graphs only if each of its elements
/// does.
pub proof fn lemma_plan_children_each(
    registry: Map<Seq<char>, RegistrationView>,
    trees: Seq<TreeDefView>,
    elements: Seq<ElementView>,
    path: Seq<Seq<char>>,
    fuel: nat,
    at: int,
)
    requires
        0 <= at < elements.len(),
        plan_children(registry, trees, elements, path, fuel) is Ok,
    ensures
        plan_element(registry, trees, elements[at], path, fuel) is Ok,
    decreases elements.len(),
{
    if at < elements.len() - 1 {
        lemma_plan_children_each(registry, trees, elements.drop_last(), path, fuel, at);
    }
}

/// A tree that holds a tree of its own name, as the element at its root,
/// cannot be made: the error is `CyclicSubTree`.
pub proof fn lemma_self_reference(factory: FactoryView, id: Seq<char>)
    requires
        tree_index(factory.trees, id) matches Some(at) && factory.trees[at].root.tag
            == subtree_tag() && attribute_value(factory.trees[at].root.attributes, "ID"@) == Some(
            id,
        ),
    ensures
        plan_tree(factory, id) == Err::<NodeView, BuildError>(BuildError::CyclicSubTree),
{
    assert(seq![id][0] == id);
}

/// A node graph that is made is at rest: every node of it is idle.
pub proof fn lemma_plan_at_rest(
    registry: Map<Seq<char>, RegistrationView>,
    trees: Seq<TreeDefView>,
    element: ElementView,
    path: Seq<Seq<char>>,
    fuel: nat,
)
    requires
        plan_element(registry, trees, element, path, fuel) is Ok,
    ensures
        reset(plan_element(registry, trees, element, path, fuel)->Ok_0) == plan_element(
            registry,
            trees,
            element,
            path,
            fuel,
        )->Ok_0,
    decreases fuel, element, 0int,
{
    let node = plan_element(registry, trees, element, path, fuel)->Ok_0;
    if element.tag == subtree_tag() {
        let id = attribute_value(element.attributes, "ID"@)->Some_0;
        let at = tree_index(trees, id)->Some_0;
        lemma_plan_at_rest(registry, trees, trees[at].root, path.push(id), (fuel - 1) as nat);
        crate::nodes::lemma_single(node.children[0]);
        assert(node.children =~= seq![node.children[0]]);
    } else {
        match registry[element.tag].role {
            RoleKind::Leaf(_) => {
                assert(reset_all(node.children) =~= node.children);
            },
            RoleKind::Decorator(_) => {
                lemma_plan_at_rest(registry, trees, element.children[0], path, fuel);
                crate::nodes::lemma_single(node.children[0]);
                assert(node.children =~= seq![node.children[0]]);
            },
            RoleKind::Control(_) => {
                lemma_plan_all_at_rest(registry, trees, element.children, path, fuel);
            },
        }
    }
}

/// As [`lemma_plan_at_rest`], for a list of elements.
pub proof fn lemma_plan_all_at_rest(
    registry: Map<Seq<char>, RegistrationView>,
    trees: Seq<TreeDefView>,
    elements: Seq<ElementView>,
    path: Seq<Seq<char>>,
    fuel: nat,
)
    requires
        plan_children(registry, trees, elements, path, fuel) is Ok,
    ensures
        reset_all(plan_children(registry, trees, elements, path, fuel)->Ok_0) == plan_children(
            registry,
            trees,
            elements,
            path,
            fuel,
        )->Ok_0,
    decreases fuel, elements, 1int,
{
    let nodes = plan_children(registry, trees, elements, path, fuel)->Ok_0;
    if elements.len() == 0 {
        assert(reset_all(nodes) =~= nodes);
    } else {
        lemma_plan_all_at_rest(registry, trees, elements.drop_last(), path, fuel);
        lemma_plan_at_rest(registry, trees, elements.last(), path, fuel);
        assert(nodes.drop_last() =~= plan_children(
            registry,
            trees,
            elements.drop_last(),
            path,
            fuel,
        )->Ok_0);
    }
}

/// The names of the trees.
pub open spec fn tree_names(trees: Seq<TreeDefView>) -> Seq<Seq<char>> {
    Seq::new(trees.len(), |i: int| trees[i].id)
}

/// Distinct names of trees are at most as many as there are trees.
pub proof fn lemma_distinct_names(trees: Seq<TreeDefView>, path: Seq<Seq<char>>)
    requires
        path.no_duplicates(),
        forall|i: int| 0 <= i < path.len() ==> has_tree(trees, #[trigger] path[i]),
    ensures
        path.len() <= trees.len(),
{
    let names = tree_names(trees);
    path.unique_seq_to_set();
    names.lemma_cardinality_of_set();
    assert(path.to_set().subset_of(names.to_set())) by {
        assert forall|id: Seq<char>| path.to_set().contains(id) implies names.to_set().contains(
            id,
        ) by {
            let i = choose|i: int| 0 <= i < path.len() && path[i] == id;
            assert(has_tree(trees, path[i]));
            let k = choose|k: int| 0 <= k < trees.len() && (#[trigger] trees[k]).id == id;
            assert(names[k] == id);
        }
    }
    vstd::seq_lib::seq_to_set_is_finite(names);
    vstd::set_lib::lemma_len_subset(path.to_set(), names.to_set());
}

/// The bound on the trees that are entered never decides: on a path of
/// distinct names of trees, with room left for every tree that is not on
/// the path, a larger bound gives the same plan. So a tree is refused as
/// cyclic only where it holds a tree that it lies in.
pub proof fn lemma_fuel_is_enough(
    registry: Map<Seq<char>, RegistrationView>,
    trees: Seq<TreeDefView>,
    element: ElementView,
    path: Seq<Seq<char>>,
    fuel: nat,
)
    requires
        path.no_duplicates(),
        forall|i: int| 0 <= i < path.len() ==> has_tree(trees, #[trigger] path[i]),
        fuel + path.len() > trees.len(),
    ensures
        plan_element(registry, trees, element, path, fuel) == plan_element(
            registry,
            trees,
            element,
            path,
            fuel + 1,
        ),
    decreases fuel, element, 0int,
{
    if element.tag == subtree_tag() {
        match attribute_value(element.attributes, "ID"@) {
            None => {},
            Some(id) => {
                if !path.contains(id) {
                    lemma_tree_index(trees, id);
                    match tree_index(trees, id) {
                        None => {},
                        Some(at) => {
                            let longer = path.push(id);
                            assert(longer.no_duplicates()) by {
                                assert forall|i: int, j: int|
                                    0 <= i < longer.len() && 0 <= j < longer.len() && i
                                        != j implies longer[i] != longer[j] by {
                                    if i < path.len() && j < path.len() {
                                    } else if i < path.len() {
                                        assert(path.contains(path[i]));
                                    } else {
                                        assert(path.contains(path[j]));
                                    }
                                }
                            }
                            assert forall|i: int| 0 <= i < longer.len() implies has_tree(
                                trees,
                                #[trigger] longer[i],
                            ) by {
                                if i == path.len() {
                                    assert(trees[at].id == id);
                                } else {
                                    assert(longer[i] == path[i]);
                                }
                            }
                            lemma_distinct_names(trees, longer);
                            assert(fuel >= 2);
                            lemma_fuel_is_enough(
                                registry,
                                trees,
                                trees[at].root,
                                longer,
                                (fuel - 1) as nat,
                            );
                            assert(((fuel - 1) as nat + 1) as nat == fuel);
                        },
                    }
                }
            },
        }
    } else if registry.contains_key(element.tag) {
        match registry[element.tag].role {
            RoleKind::Leaf(_) => {},
            RoleKind::Decorator(_) => {
                if element.children.len() == 1 {
                    lemma_fuel_is_enough(registry, trees, element.children[0], path, fuel);
                }
            },
            RoleKind::Control(_) => {
                lemma_fuel_is_enough_all(registry, trees, element.children, path, fuel);
            },
        }
    }
}

/// As [`lemma_fuel_is_enough`], for a list of elements.
pub proof fn lemma_fuel_is_enough_all(
    registry: Map<Seq<char>, RegistrationView>,
    trees: Seq<TreeDefView>,
    elements: Seq<ElementView>,
    path: Seq<Seq<char>>,
    fuel: nat,
)
    requires
        path.no_duplicates(),
        forall|i: int| 0 <= i < path.len() ==> has_tree(trees, #[trigger] path[i]),
        fuel + path.len() > trees.len(),
    ensures
        plan_children(registry, trees, elements, path, fuel) == plan_children(
            registry,
            trees,
            elements,
            path,
            fuel + 1,
        ),
    decreases fuel, elements, 1int,
{
    if elements.len() > 0 {
        lemma_fuel_is_enough_all(registry, trees, elements.drop_last(), path, fuel);
        lemma_fuel_is_enough(registry, trees, elements.last(), path, fuel);
    }
}

/// The plan of a tree does not depend on the bound: with room for one
/// more tree it is the same.
pub proof fn lemma_plan_tree_unbounded(factory: FactoryView, id: Seq<char>)
    requires
        tree_index(factory.trees, id) matches Some(at),
    ensures
        plan_tree(factory, id) == plan_element(
            factory.registry,
            factory.trees,
            factory.trees[tree_index(factory.trees, id)->Some_0].root,
            seq![id],
            factory.trees.len() + 1,
        ),
{
    lemma_tree_index(factory.trees, id);
    let at = tree_index(factory.trees, id)->Some_0;
    assert(seq![id][0] == id);
    lemma_fuel_is_enough(
        factory.registry,
        factory.trees,
        factory.trees[at].root,
        seq![id],
        factory.trees.len(),
    );
}

/// Two trees of which each holds the other, as the element at its root,
/// cannot be made: the error is `CyclicSubTree`.
pub proof fn lemma_mutual_reference(factory: FactoryView, first: Seq<char>, second: Seq<char>)
    requires
        first != second,
        tree_index(factory.trees, first) matches Some(at) && factory.trees[at].root.tag
            == subtree_tag() && attribute_value(factory.trees[at].root.attributes, "ID"@) == Some(
            second,
        ) && plan_config(Map::empty(), factory.trees[at].root.attributes) is Ok,
        tree_index(factory.trees, second) matches Some(at) && factory.trees[at].root.tag
            == subtree_tag() && attribute_value(factory.trees[at].root.attributes, "ID"@) == Some(
            first,
        ),
    ensures
        plan_tree(factory, first) == Err::<NodeView, BuildError>(BuildError::CyclicSubTree),
{
    reveal_with_fuel(plan_element, 2);
    lemma_tree_index(factory.trees, first);
    lemma_tree_index(factory.trees, second);
    let path = seq![first];
    assert(path[0] == first);
    assert(!path.contains(second));
    assert(path.push(second)[0] == first);
    assert(path.push(second).contains(first));
}

/// What is wrong with the first elements of a list is wrong with the list.
pub proof fn lemma_plan_children_error(
    registry: Map<Seq<char>, RegistrationView>,
    trees: Seq<TreeDefView>,
    elements: Seq<ElementView>,
    path: Seq<Seq<char>>,
    fuel: nat,
    k: int,
)
    requires
        0 <= k <= elements.len(),
        plan_children(registry, trees, elements.take(k), path, fuel) is Err,
    ensures
        plan_children(registry, trees, elements, path, fuel) == plan_children(
            registry,
            trees,
            elements.take(k),
            path,
            fuel,
        ),
    decreases elements.len() - k,
{
    if k == elements.len() {
        assert(elements.take(k) =~= elements);
    } else {
        assert(elements.drop_last().take(k) =~= elements.take(k));
        lemma_plan_children_error(registry, trees, elements.drop_last(), path, fuel, k);
    }
}

/// An attribute that cannot be bound makes every longer list of attributes
/// fail in the same way.
pub proof fn lemma_plan_config_error(
    ports: Map<Seq<char>, PortInfoView>,
    attributes: Seq<(Seq<char>, Seq<char>)>,
    k: int,
)
    requires
        0 <= k <= attributes.len(),
        plan_config(ports, attributes.take(k)) is Err,
    ensures
        plan_config(ports, attributes) == plan_config(ports, attributes.take(k)),
    decreases attributes.len() - k,
{
    if k == attributes.len() {
        assert(attributes.take(k) =~= attributes);
    } else {
        assert(attributes.drop_last().take(k) =~= attributes.take(k));
        lemma_plan_config_error(ports, attributes.drop_last(), k);
    }
}

/// The configuration that the attributes of `element` give a node of a
/// type with these ports.
pub fn configure(ports: &PortsList, element: &Element) -> (r: Result<NodeConfig, PortError>)
    ensures
        match r {
            Ok(config) => plan_config(ports_view(*ports), element@.attributes) == Ok::<
                ConfigView,
                PortError,
            >(config@),
            Err(e) => plan_config(ports_view(*ports), element@.attributes) == Err::<
                ConfigView,
                PortError,
            >(e),
        },
{
    let mut config = NodeConfig::new(ports);
    let n = element.attribute_count();
    let ghost attributes = element@.attributes;
    let mut i: usize = 0;
    assert(attributes.take(0) =~= Seq::empty());
    while i < n
        invariant
            i <= n,
            n == attributes.len(),
            attributes == element@.attributes,
            config@.ports == ports_view(*ports),
            plan_config(ports_view(*ports), attributes.take(i as int)) == Ok::<ConfigView, PortError>(
                config@,
            ),
        decreases n - i,
    {
        let (name, value) = element.attribute_at(i);
        let ghost before = config@;
        let ghost longer = attributes.take(i + 1);
        proof {
            assert(longer.drop_last() =~= attributes.take(i as int));
            assert(longer.last() == attributes[i as int]);
            assert(longer.last().0 == name@);
            assert(longer.last().1 == value@);
            assert(plan_config(ports_view(*ports), longer.drop_last()) == Ok::<ConfigView, PortError>(
                before,
            ));
        }
        if !(text_eq(name, "name") || text_eq(name, "ID")) {
            match config.bind(name, value) {
                Ok(()) => {},
                Err(e) => {
                    proof {
                        lemma_plan_config_error(ports_view(*ports), attributes, i + 1);
                    }
                    return Err(e);
                },
            }
        }
        i += 1;
    }
    assert(attributes.take(n as int) =~= attributes);
    Ok(config)
}

/// Whether `r` is what making the planned node graph gives: the plan's
/// error, or, unless this is a rehearsal, a node graph with the planned
/// model.
pub open spec fn assembled<L>(plan: Result<NodeView, BuildError>, r: Result<Option<Node<L>>, BuildError>, dry: bool) -> bool {
    match plan {
        Err(e) => r == Err::<Option<Node<L>>, BuildError>(e),
        Ok(v) => match r {
            Ok(Some(node)) => !dry && node@ == v,
            Ok(None) => dry,
            Err(_) => false,
        },
    }
}

/// As [`assembled`], for a list of node graphs.
pub open spec fn assembled_all<L>(
    plan: Result<Seq<NodeView>, BuildError>,
    r: Result<Option<Vec<Node<L>>>, BuildError>,
    dry: bool,
) -> bool {
    match plan {
        Err(e) => r == Err::<Option<Vec<Node<L>>>, BuildError>(e),
        Ok(vs) => match r {
            Ok(Some(nodes)) => !dry && node_views(nodes@) == vs,
            Ok(None) => dry,
            Err(_) => false,
        },
    }
}

/// The ports of a node type without ports.
fn no_ports() -> (r: PortsList)
    ensures
        ports_view(r) == Map::<Seq<char>, PortInfoView>::empty(),
{
    let ports: PortsList = TextMap::new();
    assert(ports_view(ports) =~= Map::<Seq<char>, PortInfoView>::empty());
    ports
}

/// The ports of a node type with one input port.
fn one_input(name: &str) -> (r: PortsList)
    ensures
        ports_view(r) == Map::<Seq<char>, PortInfoView>::empty().insert(name@, input_port()),
{
    let mut ports: PortsList = TextMap::new();
    ports.insert(name.to_owned(), PortInfo::new(PortDirection::Input));
    assert(ports_view(ports) =~= Map::<Seq<char>, PortInfoView>::empty().insert(name@, input_port()));
    ports
}

/// The ports of a node type with two input ports.
fn two_inputs(first: &str, second: &str) -> (r: PortsList)
    ensures
        ports_view(r) == Map::<Seq<char>, PortInfoView>::empty().insert(first@, input_port()).insert(
            second@,
            input_port(),
        ),
{
    let mut ports = one_input(first);
    ports.insert(second.to_owned(), PortInfo::new(PortDirection::Input));
    assert(ports_view(ports) =~= Map::<Seq<char>, PortInfoView>::empty().insert(
        first@,
        input_port(),
    ).insert(second@, input_port()));
    ports
}

/// An input port without description and default.
pub open spec fn input_port() -> PortInfoView {
    PortInfoView {
        direction: PortDirection::Input,
        description: Seq::empty(),
        default_value: None,
    }
}

/// A node type that the factory knows from the start.
pub open spec fn builtin(
    id: Seq<char>,
    node_type: NodeType,
    ports: Map<Seq<char>, PortInfoView>,
    role: RoleKind,
) -> RegistrationView {
    RegistrationView {
        manifest: ManifestView { node_type, registration_id: id, ports, description: ""@ },
        role,
    }
}

/// The node types that a factory knows from the start: the three control
/// nodes and the three decorators.
pub open spec fn builtin_registry() -> Map<Seq<char>, RegistrationView> {
    Map::<Seq<char>, RegistrationView>::empty().insert(
        "Sequence"@,
        builtin(
            "Sequence"@,
            NodeType::Control,
            Map::empty(),
            RoleKind::Control(ControlPolicy::Sequence),
        ),
    ).insert(
        "Fallback"@,
        builtin(
            "Fallback"@,
            NodeType::Control,
            Map::empty(),
            RoleKind::Control(ControlPolicy::Fallback),
        ),
    ).insert(
        "Parallel"@,
        builtin(
            "Parallel"@,
            NodeType::Control,
            Map::<Seq<char>, PortInfoView>::empty().insert("success_count"@, input_port()).insert(
                "failure_count"@,
                input_port(),
            ),
            RoleKind::Control(ControlPolicy::Parallel),
        ),
    ).insert(
        "Inverter"@,
        builtin(
            "Inverter"@,
            NodeType::Decorator,
            Map::empty(),
            RoleKind::Decorator(DecoratorPolicy::Inverter),
        ),
    ).insert(
        "RetryUntilSuccessful"@,
        builtin(
            "RetryUntilSuccessful"@,
            NodeType::Decorator,
            Map::<Seq<char>, PortInfoView>::empty().insert("num_attempts"@, input_port()),
            RoleKind::Decorator(DecoratorPolicy::Retry),
        ),
    ).insert(
        "SkipIf"@,
        builtin(
            "SkipIf"@,
            NodeType::Decorator,
            Map::<Seq<char>, PortInfoView>::empty().insert("condition"@, input_port()),
            RoleKind::Decorator(DecoratorPolicy::SkipIf),
        ),
    )
}

/// How a leaf of a node type of this category is executed.
pub open spec fn leaf_kind_of(node_type: NodeType) -> LeafKind {
    if node_type == NodeType::Condition {
        LeafKind::Condition
    } else {
        LeafKind::Action
    }
}

/// Whether one of the `added` trees has the name of a tree in `known`.
pub open spec fn clashes(known: Seq<TreeDefView>, added: Seq<TreeDefView>) -> bool {
    exists|i: int| 0 <= i < added.len() && has_tree(known, (#[trigger] added[i]).id)
}

/// Whether `path` holds `id`.
fn contains_text(path: &Vec<String>, id: &str) -> (r: bool)
    ensures
        r == path.deep_view().contains(id@),
{
    let mut i: usize = 0;
    while i < path.len()
        invariant
            i <= path.len(),
            forall|j: int| 0 <= j < i ==> path.deep_view()[j] != id@,
        decreases path.len() - i,
    {
        if text_eq(path[i].as_str(), id) {
            assert(path.deep_view()[i as int] == id@);
            return true;
        }
        i += 1;
    }
    false
}

/// A copy of `path` with `id` at its end.
fn extend_path(path: &Vec<String>, id: &str) -> (r: Vec<String>)
    ensures
        r.deep_view() == path.deep_view().push(id@),
{
    let mut out: Vec<String> = Vec::new();
    let mut i: usize = 0;
    while i < path.len()
        invariant
            i <= path.len(),
            out.len() == i,
            forall|j: int| 0 <= j < i ==> out[j]@ == path[j]@,
        decreases path.len() - i,
    {
        out.push(path[i].clone());
        i += 1;
    }
    out.push(id.to_owned());
    assert(out.deep_view() =~= path.deep_view().push(id@));
    out
}

/// The registry of node types and the trees that can be made of them.
pub struct Factory<C> {
    registrations: TextMap<Registration<C>>,
    trees: Vec<TreeDefinition>,
}

impl<C> View for Factory<C> {
    type V = FactoryView;

    closed spec fn view(&self) -> FactoryView {
        FactoryView {
            registry: self.registrations@.map_values(|r: Registration<C>| r@),
            trees: trees_view(self.trees@),
        }
    }
}

impl<C: NodeConstructor> Factory<C> {
    fn add(&mut self, id: &str, node_type: NodeType, ports: PortsList, builder: Builder<C>)
        requires
            !(builder is Leaf),
        ensures
            final(self)@ == (FactoryView {
                registry: old(self)@.registry.insert(
                    id@,
                    builtin(
                        id@,
                        node_type,
                        ports_view(ports),
                        match builder {
                            Builder::Control(policy) => RoleKind::Control(policy),
                            Builder::Decorator(policy) => RoleKind::Decorator(policy),
                            Builder::Leaf(kind, _) => RoleKind::Leaf(kind),
                        },
                    ),
                ),
                ..old(self)@
            }),
    {
        let manifest = TreeNodeManifest::new(node_type, id, ports, "");
        let registration = Registration { manifest, builder };
        let ghost view = registration@;
        self.registrations.insert(id.to_owned(), registration);
        assert(self@.registry =~= old(self)@.registry.insert(id@, view));
    }

    /// A factory that knows the control nodes and the decorators, and no
    /// tree.
    pub fn new() -> (r: Self)
        ensures
            r@ == (FactoryView { registry: builtin_registry(), trees: Seq::empty() }),
    {
        let mut factory = Factory { registrations: TextMap::new(), trees: Vec::new() };
        assert(factory@.registry =~= Map::<Seq<char>, RegistrationView>::empty());
        assert(factory@.trees =~= Seq::<TreeDefView>::empty());
        factory.add("Sequence", NodeType::Control, no_ports(), Builder::Control(ControlPolicy::Sequence));
        factory.add("Fallback", NodeType::Control, no_ports(), Builder::Control(ControlPolicy::Fallback));
        factory.add(
            "Parallel",
            NodeType::Control,
            two_inputs("success_count", "failure_count"),
            Builder::Control(ControlPolicy::Parallel),
        );
        factory.add(
            "Inverter",
            NodeType::Decorator,
            no_ports(),
            Builder::Decorator(DecoratorPolicy::Inverter),
        );
        factory.add(
            "RetryUntilSuccessful",
            NodeType::Decorator,
            one_input("num_attempts"),
            Builder::Decorator(DecoratorPolicy::Retry),
        );
        factory.add(
            "SkipIf",
            NodeType::Decorator,
            one_input("condition"),
            Builder::Decorator(DecoratorPolicy::SkipIf),
        );
        factory
    }

    fn register_leaf(&mut self, type_identifier: &str, constructor: C, manifest: TreeNodeManifest, kind: LeafKind) -> (r:
        Result<(), BuildError>)
        ensures
            old(self)@.registry.contains_key(type_identifier@) || type_identifier@ == subtree_tag()
                ==> r == Err::<(), BuildError>(BuildError::DuplicateRegistration) && final(self)@
                == old(self)@,
            !(old(self)@.registry.contains_key(type_identifier@) || type_identifier@
                == subtree_tag()) ==> r is Ok && final(self)@ == (FactoryView {
                registry: old(self)@.registry.insert(
                    type_identifier@,
                    RegistrationView {
                        manifest: ManifestView { registration_id: type_identifier@, ..manifest@ },
                        role: RoleKind::Leaf(kind),
                    },
                ),
                ..old(self)@
            }),
    {
        if text_eq(type_identifier, "SubTree") || self.registrations.contains_key(type_identifier) {
            return Err(BuildError::DuplicateRegistration);
        }
        let registration = Registration {
            manifest: manifest.with_registration_id(type_identifier),
            builder: Builder::Leaf(kind, constructor),
        };
        let ghost view = registration@;
        self.registrations.insert(type_identifier.to_owned(), registration);
        assert(self@.registry =~= old(self)@.registry.insert(type_identifier@, view));
        Ok(())
    }

    /// Makes a node type known under `type_identifier`: an action, or a
    /// condition where the manifest says so. An identifier can be given
    /// once.
    pub fn register(&mut self, type_identifier: &str, constructor: C, manifest: TreeNodeManifest) -> (r:
        Result<(), BuildError>)
        ensures
            old(self)@.registry.contains_key(type_identifier@) || type_identifier@ == subtree_tag()
                ==> r == Err::<(), BuildError>(BuildError::DuplicateRegistration) && final(self)@
                == old(self)@,
            !(old(self)@.registry.contains_key(type_identifier@) || type_identifier@
                == subtree_tag()) ==> r is Ok && final(self)@ == (FactoryView {
                registry: old(self)@.registry.insert(
                    type_identifier@,
                    RegistrationView {
                        manifest: ManifestView { registration_id: type_identifier@, ..manifest@ },
                        role: RoleKind::Leaf(leaf_kind_of(manifest@.node_type)),
                    },
                ),
                ..old(self)@
            }),
    {
        let kind = if manifest.node_type() == NodeType::Condition {
            LeafKind::Condition
        } else {
            LeafKind::Action
        };
        self.register_leaf(type_identifier, constructor, manifest, kind)
    }

    /// Makes a node type known whose leaves are stateful actions.
    pub fn register_stateful(&mut self, type_identifier: &str, constructor: C, manifest: TreeNodeManifest) -> (r:
        Result<(), BuildError>)
        ensures
            old(self)@.registry.contains_key(type_identifier@) || type_identifier@ == subtree_tag()
                ==> r == Err::<(), BuildError>(BuildError::DuplicateRegistration) && final(self)@
                == old(self)@,
            !(old(self)@.registry.contains_key(type_identifier@) || type_identifier@
                == subtree_tag()) ==> r is Ok && final(self)@ == (FactoryView {
                registry: old(self)@.registry.insert(
                    type_identifier@,
                    RegistrationView {
                        manifest: ManifestView { registration_id: type_identifier@, ..manifest@ },
                        role: RoleKind::Leaf(LeafKind::StatefulAction),
                    },
                ),
                ..old(self)@
            }),
    {
        self.register_leaf(type_identifier, constructor, manifest, LeafKind::StatefulAction)
    }

    /// Whether a node type is known under `type_identifier`.
    pub fn is_registered(&self, type_identifier: &str) -> (r: bool)
        ensures
            r == self@.registry.contains_key(type_identifier@),
    {
        self.registrations.contains_key(type_identifier)
    }

    /// What is known of the node type `type_identifier`.
    pub fn manifest(&self, type_identifier: &str) -> (r: Option<&TreeNodeManifest>)
        ensures
            match r {
                Some(m) => self@.registry.contains_key(type_identifier@) && m@
                    == self@.registry[type_identifier@].manifest,
                None => !self@.registry.contains_key(type_identifier@),
            },
    {
        match self.registrations.get(type_identifier) {
            Some(registration) => Some(&registration.manifest),
            None => None,
        }
    }

    /// How many trees the factory knows.
    pub fn tree_count(&self) -> (r: usize)
        ensures
            r == self@.trees.len(),
    {
        self.trees.len()
    }

    /// Adds the trees of a document. None is added if one of them has the
    /// name of a tree that is known.
    pub fn register_document(&mut self, document: TreeDocument) -> (r: Result<(), ParseError>)
        ensures
            clashes(old(self)@.trees, document@) ==> r == Err::<(), ParseError>(
                ParseError::DuplicateTreeId,
            ) && final(self)@ == old(self)@,
            !clashes(old(self)@.trees, document@) ==> r is Ok && final(self)@ == (FactoryView {
                trees: old(self)@.trees + document@,
                ..old(self)@
            }),
    {
        let n = document.tree_count();
        let mut i: usize = 0;
        while i < n
            invariant
                i <= n,
                n == document@.len(),
                *self == *old(self),
                forall|j: int| 0 <= j < i ==> !has_tree(self@.trees, (#[trigger] document@[j]).id),
            decreases n - i,
        {
            let found = find_tree(&self.trees, document.tree(i).id());
            proof {
                lemma_tree_index(self@.trees, document@[i as int].id);
            }
            if found.is_some() {
                assert(has_tree(self@.trees, document@[i as int].id));
                return Err(ParseError::DuplicateTreeId);
            }
            i += 1;
        }
        let mut added = document.into_trees();
        let ghost all = trees_view(added@);
        while added.len() > 0
            invariant
                added.len() <= all.len(),
                all == document@,
                trees_view(added@) == all.skip(all.len() - added.len()),
                self@.registry == old(self)@.registry,
                self@.trees == old(self)@.trees + all.take(all.len() - added.len()),
            decreases added.len(),
        {
            let ghost k = all.len() - added.len();
            let ghost before = trees_view(added@);
            let ghost raw = added@;
            let ghost known = self@.trees;
            let tree = added.remove(0);
            assert(tree@ == before[0]);
            let ghost tree_view = tree@;
            self.trees.push(tree);
            proof {
                assert(all.skip(k)[0] == all[k]);
                assert forall|i: int| 0 <= i < added@.len() implies trees_view(added@)[i] == all.skip(
                    k + 1,
                )[i] by {
                    assert(added@[i] == raw[i + 1]);
                    assert(before[i + 1] == raw[i + 1]@);
                    assert(all.skip(k)[i + 1] == all[k + 1 + i]);
                }
                assert(trees_view(added@) =~= all.skip(k + 1));
                assert(self@.trees =~= known.push(tree_view));
                assert(all.take(k + 1) =~= all.take(k).push(all[k]));
                assert(self@.trees =~= old(self)@.trees + all.take(k + 1));
            }
        }
        assert(all.take(all.len() as int) =~= all);
        Ok(())
    }

    /// Makes the node graph that `element` describes, or, in a rehearsal,
    /// only finds out whether it can be made. A rehearsal makes no leaf.
    fn assemble(&self, element: &Element, path: &Vec<String>, fuel: usize, dry: bool) -> (r: Result<
        Option<Node<C::Leaf>>,
        BuildError,
    >)
        ensures
            assembled(
                plan_element(self@.registry, self@.trees, element@, path.deep_view(), fuel as nat),
                r,
                dry,
            ),
        decreases fuel, weight(element@), 0int,
    {
        let tag = element.tag();
        let name = match element.attribute("name") {
            Some(name) => name,
            None => tag,
        };
        if text_eq(tag, "SubTree") {
            let id = match element.attribute("ID") {
                Some(id) => id,
                None => {
                    return Err(BuildError::UnknownSubTree);
                },
            };
            if contains_text(path, id) {
                return Err(BuildError::CyclicSubTree);
            }
            let at = match find_tree(&self.trees, id) {
                Some(at) => at,
                None => {
                    return Err(BuildError::UnknownSubTree);
                },
            };
            let config = match configure(&no_ports(), element) {
                Ok(config) => config,
                Err(e) => {
                    return Err(BuildError::Port(e));
                },
            };
            if fuel == 0 {
                return Err(BuildError::CyclicSubTree);
            }
            let longer = extend_path(path, id);
            match self.assemble(self.trees[at].root(), &longer, fuel - 1, dry) {
                Err(e) => Err(e),
                Ok(None) => Ok(None),
                Ok(Some(child)) => Ok(Some(Node::subtree(name, tag, config, child))),
            }
        } else {
            let entry = match self.registrations.get(tag) {
                Some(entry) => entry,
                None => {
                    return Err(BuildError::UnknownNodeType);
                },
            };
            assert(self@.registry[tag@] == entry@);
            let config = match configure(entry.manifest.ports(), element) {
                Ok(config) => config,
                Err(e) => {
                    return Err(BuildError::Port(e));
                },
            };
            match &entry.builder {
                Builder::Leaf(kind, constructor) => {
                    if element.child_count() != 0 {
                        return Err(BuildError::InvalidChildren);
                    }
                    if dry {
                        Ok(None)
                    } else {
                        let behavior = constructor.construct(name, &config);
                        Ok(Some(Node::leaf(name, tag, config, *kind, behavior)))
                    }
                },
                Builder::Decorator(policy) => {
                    if element.child_count() != 1 {
                        return Err(BuildError::InvalidChildren);
                    }
                    proof {
                        lemma_weights_index(element@.children, 0);
                    }
                    match self.assemble(element.child(0), path, fuel, dry) {
                        Err(e) => Err(e),
                        Ok(None) => Ok(None),
                        Ok(Some(child)) => Ok(Some(Node::decorator(name, tag, config, *policy, child))),
                    }
                },
                Builder::Control(policy) => {
                    match self.assemble_children(element, path, fuel, dry) {
                        Err(e) => Err(e),
                        Ok(None) => Ok(None),
                        Ok(Some(children)) => Ok(Some(Node::control(name, tag, config, *policy, children))),
                    }
                },
            }
        }
    }

    /// Makes the node graphs that the children of `element` describe.
    fn assemble_children(&self, element: &Element, path: &Vec<String>, fuel: usize, dry: bool) -> (r:
        Result<Option<Vec<Node<C::Leaf>>>, BuildError>)
        ensures
            assembled_all(
                plan_children(
                    self@.registry,
                    self@.trees,
                    element@.children,
                    path.deep_view(),
                    fuel as nat,
                ),
                r,
                dry,
            ),
        decreases fuel, weights(element@.children), 1int,
    {
        let n = element.child_count();
        let ghost all = element@.children;
        let mut nodes: Vec<Node<C::Leaf>> = Vec::new();
        let mut i: usize = 0;
        proof {
            assert(all.take(0) =~= Seq::<ElementView>::empty());
            lemma_node_views(nodes@);
            assert(node_views(nodes@) =~= Seq::<NodeView>::empty());
        }
        while i < n
            invariant
                i <= n,
                n == all.len(),
                all == element@.children,
                dry ==> nodes.len() == 0,
                plan_children(
                    self@.registry,
                    self@.trees,
                    all.take(i as int),
                    path.deep_view(),
                    fuel as nat,
                ) matches Ok(planned) && (!dry ==> node_views(nodes@) == planned),
            decreases n - i,
        {
            proof {
                lemma_weights_index(all, i as int);
                assert(all.take(i + 1).drop_last() =~= all.take(i as int));
                assert(all.take(i + 1).last() == all[i as int]);
            }
            match self.assemble(element.child(i), path, fuel, dry) {
                Err(e) => {
                    proof {
                        lemma_plan_children_error(
                            self@.registry,
                            self@.trees,
                            all,
                            path.deep_view(),
                            fuel as nat,
                            i + 1,
                        );
                    }
                    return Err(e);
                },
                Ok(None) => {},
                Ok(Some(node)) => {
                    let ghost before = nodes@;
                    let ghost node_model = node@;
                    nodes.push(node);
                    proof {
                        lemma_node_views(before);
                        lemma_node_views(nodes@);
                        assert(node_views(nodes@) =~= node_views(before).push(node_model));
                    }
                },
            }
            i += 1;
        }
        assert(all.take(n as int) =~= all);
        if dry {
            Ok(None)
        } else {
            Ok(Some(nodes))
        }
    }

    /// Finds out whether the tree named `tree_id` can be made, without
    /// making a node of it: whether every element of it names a node type or
    /// a tree that is known, binds only ports that are declared, and has the
    /// children that its node type takes.
    pub fn check_tree(&self, tree_id: &str) -> (r: Result<(), BuildError>)
        ensures
            match plan_tree(self@, tree_id@) {
                Err(e) => r == Err::<(), BuildError>(e),
                Ok(_) => r is Ok,
            },
    {
        let at = match find_tree(&self.trees, tree_id) {
            Some(at) => at,
            None => {
                return Err(BuildError::UnknownSubTree);
            },
        };
        let mut path: Vec<String> = Vec::new();
        path.push(tree_id.to_owned());
        assert(path.deep_view() =~= seq![tree_id@]);
        match self.assemble(self.trees[at].root(), &path, self.trees.len(), true) {
            Err(e) => Err(e),
            Ok(_) => Ok(()),
        }
    }

    /// Makes the node graph of the tree named `tree_id`, at rest, around
    /// `blackboard`. Nothing is made, no leaf either, unless the whole
    /// tree can be made.
    pub fn instantiate_tree(&self, blackboard: Blackboard, tree_id: &str) -> (r: Result<
        Tree<C::Leaf>,
        BuildError,
    >)
        ensures
            match plan_tree(self@, tree_id@) {
                Err(e) => r matches Err(error) && error == e,
                Ok(root) => r matches Ok(tree) && tree@ == (TreeView {
                    root,
                    blackboard: blackboard@,
                    rounds: 0,
                }),
            },
    {
        let at = match find_tree(&self.trees, tree_id) {
            Some(at) => at,
            None => {
                return Err(BuildError::UnknownSubTree);
            },
        };
        let mut path: Vec<String> = Vec::new();
        path.push(tree_id.to_owned());
        assert(path.deep_view() =~= seq![tree_id@]);
        let fuel = self.trees.len();
        let element = self.trees[at].root();
        match self.check_tree(tree_id) {
            Err(e) => {
                return Err(e);
            },
            Ok(()) => {},
        }
        match self.assemble(element, &path, fuel, false) {
            Ok(Some(root)) => Ok(Tree::new(root, blackboard)),
            Ok(None) => Err(BuildError::UnknownSubTree),
            Err(e) => Err(e),
        }
    }

    /// Reads `text` as a document and adds its trees.
    pub fn register_bt_from_text(&mut self, text: &str) -> (r: Result<(), ParseError>)
        ensures
            match parse_document(text@) {
                Err(e) => r == Err::<(), ParseError>(e) && final(self)@ == old(self)@,
                Ok(trees) => if clashes(old(self)@.trees, trees) {
                    r == Err::<(), ParseError>(ParseError::DuplicateTreeId) && final(self)@ == old(
                        self,
                    )@
                } else {
                    r is Ok && final(self)@ == (FactoryView {
                        trees: old(self)@.trees + trees,
                        ..old(self)@
                    })
                },
            },
    {
        match parse(text) {
            Err(e) => Err(e),
            Ok(document) => self.register_document(document),
        }
    }
}

/// A node graph and the blackboard that its nodes share.
pub struct Tree<L> {
    root: Node<L>,
    blackboard: Blackboard,
    rounds: u64,
}

/// The model of a [`Tree`].
pub struct TreeView {
    pub root: NodeView,
    pub blackboard: Map<Seq<char>, AnyValueView>,
    /// How often the root was ticked, as far as a `u64` can count.
    pub rounds: nat,
}

impl<L> View for Tree<L> {
    type V = TreeView;

    closed spec fn view(&self) -> TreeView {
        TreeView { root: self.root@, blackboard: self.blackboard@, rounds: self.rounds as nat }
    }
}

/// The count of rounds after one more round.
pub open spec fn one_more(rounds: nat) -> nat {
    if rounds < u64::MAX {
        rounds + 1
    } else {
        rounds
    }
}

/// Whether the driver ticks once more: the root has not concluded, and
/// rounds are left.
pub open spec fn ticks_on_spec(status: NodeStatus, rounds: nat, max_rounds: nat) -> bool {
    status != NodeStatus::Success && status != NodeStatus::Failure && rounds < max_rounds
}

pub fn ticks_on(status: NodeStatus, rounds: usize, max_rounds: usize) -> (r: bool)
    ensures
        r == ticks_on_spec(status, rounds as nat, max_rounds as nat),
{
    !status.is_completed() && rounds < max_rounds
}

impl<L: TreeNode> Tree<L> {
    pub fn new(root: Node<L>, blackboard: Blackboard) -> (r: Self)
        ensures
            r@ == (TreeView { root: root@, blackboard: blackboard@, rounds: 0 }),
    {
        Tree { root, blackboard, rounds: 0 }
    }

    pub fn root(&self) -> (r: &Node<L>)
        ensures
            r@ == self@.root,
    {
        &self.root
    }

    pub fn blackboard(&self) -> (r: &Blackboard)
        ensures
            r@ == self@.blackboard,
    {
        &self.blackboard
    }

    /// How often the root was ticked.
    pub fn rounds(&self) -> (r: u64)
        ensures
            r == self@.rounds,
    {
        self.rounds
    }

    /// The status of the root.
    pub fn status(&self) -> (r: NodeStatus)
        ensures
            r == self@.root.status,
    {
        self.root.status()
    }

    /// The node graph and the blackboard.
    pub fn into_parts(self) -> (r: (Node<L>, Blackboard))
        ensures
            r.0@ == self@.root,
            r.1@ == self@.blackboard,
    {
        (self.root, self.blackboard)
    }

    /// Ticks the root once.
    pub fn tick_once(&mut self) -> (r: Result<NodeStatus, NodeError>)
        ensures
            reset(final(self)@.root) == reset(old(self)@.root),
            final(self)@.rounds == one_more(old(self)@.rounds),
            r matches Ok(s) ==> ticked(old(self)@.root, final(self)@.root, s),
            r matches Err(e) ==> failed(old(self)@.root, final(self)@.root, e@),
    {
        if self.rounds < u64::MAX {
            self.rounds += 1;
        }
        self.root.tick(&mut self.blackboard)
    }

    /// Calls off what is running and brings the node graph to rest.
    pub fn halt_tree(&mut self)
        ensures
            final(self)@.root == reset(old(self)@.root),
            final(self)@.rounds == old(self)@.rounds,
    {
        self.root.halt(&mut self.blackboard);
    }

    /// Ticks the root, round after round with a pause between two rounds,
    /// until it concludes, a tick fails, or `max_rounds` rounds are made.
    /// Reports the status of the root after the last round.
    ///
    /// The node graph stays the same graph. At least one round is made if
    /// one is allowed, and never more than are allowed; all that are allowed
    /// are made unless the root concludes or a tick fails before. If a
    /// status is reported and a round was made, the graph is left as a tick
    /// leaves it that reports this status; if a tick fails, as a tick leaves
    /// it that fails in this way.
    pub fn tick_while_running<P: Pause>(&mut self, pause: &mut P, max_rounds: usize) -> (r: Result<
        NodeStatus,
        NodeError,
    >)
        ensures
            reset(final(self)@.root) == reset(old(self)@.root),
            final(self)@.rounds <= old(self)@.rounds + max_rounds,
            max_rounds == 0 ==> r is Ok && final(self)@ == old(self)@,
            max_rounds > 0 && old(self)@.rounds < u64::MAX ==> final(self)@.rounds > old(self)@.rounds,
            r matches Ok(s) ==> final(self)@.root.status == s,
            r matches Ok(s) ==> (s != NodeStatus::Success && s != NodeStatus::Failure && old(
                self,
            )@.rounds + max_rounds <= u64::MAX ==> final(self)@.rounds == old(self)@.rounds
                + max_rounds),
            r matches Ok(s) ==> (max_rounds > 0 ==> exists|before: NodeView|
                reset(before) == reset(old(self)@.root) && #[trigger] ticked(
                    before,
                    final(self)@.root,
                    s,
                )),
            r matches Err(e) ==> exists|before: NodeView|
                reset(before) == reset(old(self)@.root) && #[trigger] failed(
                    before,
                    final(self)@.root,
                    e@,
                ),
    {
        if max_rounds == 0 {
            return Ok(self.root.status());
        }
        let ghost mut last = self@.root;
        let mut status = match self.tick_once() {
            Ok(status) => status,
            Err(e) => {
                return Err(e);
            },
        };
        let mut rounds: usize = 1;
        while ticks_on(status, rounds, max_rounds)
            invariant
                1 <= rounds <= max_rounds,
                reset(self@.root) == reset(old(self)@.root),
                reset(last) == reset(old(self)@.root),
                ticked(last, self@.root, status),
                self@.rounds <= old(self)@.rounds + rounds,
                old(self)@.rounds < u64::MAX ==> self@.rounds > old(self)@.rounds,
                old(self)@.rounds + rounds <= u64::MAX ==> self@.rounds == old(self)@.rounds + rounds,
            decreases max_rounds - rounds,
        {
            pause.pause();
            proof {
                last = self@.root;
            }
            status = match self.tick_once() {
                Ok(status) => status,
                Err(e) => {
                    return Err(e);
                },
            };
            rounds += 1;
        }
        Ok(status)
    }
}

} // verus!
