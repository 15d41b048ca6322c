//! The vocabulary of the engine: node categories, execution statuses, port
//! directions, the conversion between values and text, and the ports that a
//! node type declares.
use vstd::prelude::*;
use crate::text_map::TextMap;
use crate::value::{IntoValue, AnyValue, AnyValueView};

verus! {

/// The category of a node type.
#[derive(Debug, Clone, Copy, PartialEq, Eq, Structural)]
pub enum NodeType {
    Undefined,
    Action,
    Condition,
    Control,
    Decorator,
    SubTree,
}

/// The outcome of an execution step of a node.
#[derive(Debug, Clone, Copy, PartialEq, Eq, Structural)]
pub enum NodeStatus {
    /// Not ticked yet, or reset since.
    Idle,
    /// Started and not concluded.
    Running,
    Success,
    Failure,
    /// Passed over by a gate without being executed.
    Skipped,
}

/// Whether a port is read, written, or both.
#[derive(Debug, Clone, Copy, PartialEq, Eq, Structural)]
pub enum PortDirection {
    Input,
    Output,
    InOut,
}

/// A text that names no execution status.
#[derive(Debug, Clone, Copy, PartialEq, Eq, Structural)]
pub enum ParseNodeStatusError {
    NoMatch,
}

/// A text that names no node category.
#[derive(Debug, Clone, Copy, PartialEq, Eq, Structural)]
pub enum ParseNodeTypeError {
    NoMatch,
}

/// A text that names no port direction.
#[derive(Debug, Clone, Copy, PartialEq, Eq, Structural)]
pub enum ParsePortDirectionError {
    NoMatch,
}

/// A text that is none of the six boolean literals.
#[derive(Debug, Clone, Copy, PartialEq, Eq, Structural)]
pub enum ParseBoolError {
    ParseError,
}

impl ParseNodeStatusError {
    pub fn message(&self) -> (r: String)
        ensures
            r@ == "string didn't match any NodeStatus values"@,
    {
        "string didn't match any NodeStatus values".to_owned()
    }
}

impl ParseNodeTypeError {
    pub fn message(&self) -> (r: String)
        ensures
            r@ == "string didn't match any NodeType values"@,
    {
        "string didn't match any NodeType values".to_owned()
    }
}

impl ParsePortDirectionError {
    pub fn message(&self) -> (r: String)
        ensures
            r@ == "string didn't match any PortDirection values"@,
    {
        "string didn't match any PortDirection values".to_owned()
    }
}

impl ParseBoolError {
    pub fn message(&self) -> (r: String)
        ensures
            r@ == "string wasn't one of the expected: 1/0, true/false, TRUE/FALSE"@,
    {
        "string wasn't one of the expected: 1/0, true/false, TRUE/FALSE".to_owned()
    }
}

impl DeepView for NodeType {
    type V = NodeType;

    open spec fn deep_view(&self) -> NodeType {
        *self
    }
}

impl DeepView for NodeStatus {
    type V = NodeStatus;

    open spec fn deep_view(&self) -> NodeStatus {
        *self
    }
}

impl DeepView for PortDirection {
    type V = PortDirection;

    open spec fn deep_view(&self) -> PortDirection {
        *self
    }
}

impl NodeStatus {
    /// Whether the node has started executing: it is running or has
    /// concluded.
    pub fn is_active(&self) -> (r: bool)
        ensures
            r == (*self == NodeStatus::Running || *self == NodeStatus::Success || *self
                == NodeStatus::Failure),
    {
        match self {
            NodeStatus::Idle | NodeStatus::Skipped => false,
            _ => true,
        }
    }

    /// Whether the node has concluded, with success or with failure.
    pub fn is_completed(&self) -> (r: bool)
        ensures
            r == (*self == NodeStatus::Success || *self == NodeStatus::Failure),
    {
        match self {
            NodeStatus::Success | NodeStatus::Failure => true,
            _ => false,
        }
    }

    /// The escape sequence that switches a terminal to this status' colour.
    pub open spec fn color_code(self) -> Seq<char> {
        match self {
            NodeStatus::Idle => "\x1b[36m"@,
            NodeStatus::Running => "\x1b[33m"@,
            NodeStatus::Success => "\x1b[32m"@,
            NodeStatus::Failure => "\x1b[31m"@,
            NodeStatus::Skipped => "\x1b[34m"@,
        }
    }

    /// The status' name between the escape sequence of its colour and the
    /// one that resets the terminal.
    pub fn into_string_color(&self) -> (r: String)
        ensures
            r@ == self.color_code() + self.text() + "\x1b[0m"@,
    {
        let color_start = match self {
            NodeStatus::Idle => "\x1b[36m",
            NodeStatus::Running => "\x1b[33m",
            NodeStatus::Success => "\x1b[32m",
            NodeStatus::Failure => "\x1b[31m",
            NodeStatus::Skipped => "\x1b[34m",
        };
        let mut out = color_start.to_owned();
        let name = self.bt_to_string();
        out.push_str(name.as_str());
        out.push_str("\x1b[0m");
        out
    }
}

/// Values that can be written as text.
pub trait BTToString {
    /// The text that the value is written as.
    spec fn text(&self) -> Seq<char>;

    fn bt_to_string(&self) -> (r: String)
        ensures
            r@ == self.text(),
    ;
}

/// Types whose values can be read from text.
pub trait FromText: Sized + DeepView {
    /// Why a text is refused.
    type Err;

    /// What a text denotes: the value's model, or the reason why it
    /// denotes none.
    spec fn parse_spec(text: Seq<char>) -> Result<Self::V, Self::Err>;

    fn from_text(text: &str) -> (r: Result<Self, Self::Err>)
        ensures
            match r {
                Ok(v) => Self::parse_spec(text@) == Ok::<Self::V, Self::Err>(v.deep_view()),
                Err(e) => Self::parse_spec(text@) == Err::<Self::V, Self::Err>(e),
            },
    ;
}

/// Whether `r` is what reading `text` as a `T` gives: the value that the
/// text denotes, or the reason why it denotes none.
pub open spec fn reads_as<T: FromText>(text: Seq<char>, r: Result<T, T::Err>) -> bool {
    match r {
        Ok(v) => T::parse_spec(text) == Ok::<T::V, T::Err>(v.deep_view()),
        Err(e) => T::parse_spec(text) == Err::<T::V, T::Err>(e),
    }
}

/// Types for which reading what was written gives the value back.
pub trait TextRoundTrip: FromText + BTToString {
    /// The text of a value denotes that value.
    proof fn lemma_round_trip(&self)
        ensures
            Self::parse_spec(self.text()) == Ok::<Self::V, Self::Err>(self.deep_view()),
    ;
}

/// Texts that can be read as a `T`.
pub trait StringInto<T> {
    type Err;

    fn string_into(&self) -> (r: Result<T, Self::Err>);
}

impl<T: FromText> StringInto<T> for str {
    type Err = <T as FromText>::Err;

    fn string_into(&self) -> (r: Result<T, <T as FromText>::Err>)
        ensures
            reads_as::<T>(self@, r),
    {
        T::from_text(self)
    }
}

/// What a node type says of one of its ports.
#[derive(Debug)]
pub struct PortInfo {
    direction: PortDirection,
    description: String,
    default_value: Option<AnyValue>,
}

/// The model of a [`PortInfo`].
pub struct PortInfoView {
    pub direction: PortDirection,
    pub description: Seq<char>,
    pub default_value: Option<AnyValueView>,
}

impl View for PortInfo {
    type V = PortInfoView;

    closed spec fn view(&self) -> PortInfoView {
        PortInfoView {
            direction: self.direction,
            description: self.description@,
            default_value: self.default_value.deep_view(),
        }
    }
}

impl Clone for PortInfo {
    fn clone(&self) -> (r: PortInfo)
        ensures
            r@ == self@,
    {
        let default_value = match &self.default_value {
            Some(v) => Some(v.clone()),
            None => None,
        };
        PortInfo { direction: self.direction, description: self.description.clone(), default_value }
    }
}

impl PortInfo {
    /// A port of the given direction, without description and default.
    pub fn new(direction: PortDirection) -> (r: PortInfo)
        ensures
            r@ == (PortInfoView {
                direction,
                description: Seq::empty(),
                default_value: None,
            }),
    {
        PortInfo { direction, description: String::new(), default_value: None }
    }

    /// Sets the value that an unbound input port yields.
    pub fn set_default<T: IntoValue>(&mut self, default: T)
        ensures
            final(self)@ == (PortInfoView { default_value: Some(default.stored()), ..old(self)@ }),
    {
        self.default_value = Some(default.into_value());
    }

    pub fn set_description(&mut self, description: String)
        ensures
            final(self)@ == (PortInfoView { description: description@, ..old(self)@ }),
    {
        self.description = description;
    }

    pub fn direction(&self) -> (r: &PortDirection)
        ensures
            *r == self@.direction,
    {
        &self.direction
    }

    pub fn description(&self) -> (r: &str)
        ensures
            r@ == self@.description,
    {
        self.description.as_str()
    }

    /// The value that an unbound input port yields, if one was set.
    pub fn default_value(&self) -> (r: Option<&AnyValue>)
        ensures
            r.deep_view() == self@.default_value,
    {
        self.default_value.as_ref()
    }
}

/// A port under its name, as a node type declares it.
pub struct Port(String, PortInfo);

/// The model of a [`Port`].
pub struct PortView {
    pub name: Seq<char>,
    pub info: PortInfoView,
}

impl View for Port {
    type V = PortView;

    closed spec fn view(&self) -> PortView {
        PortView { name: self.0@, info: self.1@ }
    }
}

impl Port {
    fn create_port(direction: PortDirection, name: &str, description: &str) -> (r: Port)
        ensures
            r@ == (PortView {
                name: name@,
                info: PortInfoView { direction, description: description@, default_value: None },
            }),
    {
        let mut port_info = PortInfo::new(direction);
        port_info.set_description(description.to_owned());
        Port(name.to_owned(), port_info)
    }

    /// The same port with a default value.
    pub fn default<T: IntoValue>(self, default: T) -> (r: Port)
        ensures
            r@ == (PortView {
                name: self@.name,
                info: PortInfoView { default_value: Some(default.stored()), ..self@.info },
            }),
    {
        let mut port = self;
        port.1.set_default(default);
        port
    }

    /// An input port without description.
    pub fn input(name: &str) -> (r: Port)
        ensures
            r@ == (PortView {
                name: name@,
                info: PortInfoView {
                    direction: PortDirection::Input,
                    description: Seq::empty(),
                    default_value: None,
                },
            }),
    {
        let port = Self::input_description(name, "");
        proof {
            reveal_strlit("");
            assert(""@ =~= Seq::<char>::empty());
        }
        port
    }

    pub fn input_description(name: &str, description: &str) -> (r: Port)
        ensures
            r@ == (PortView {
                name: name@,
                info: PortInfoView {
                    direction: PortDirection::Input,
                    description: description@,
                    default_value: None,
                },
            }),
    {
        Self::create_port(PortDirection::Input, name, description)
    }

    /// An output port without description.
    pub fn output(name: &str) -> (r: Port)
        ensures
            r@ == (PortView {
                name: name@,
                info: PortInfoView {
                    direction: PortDirection::Output,
                    description: Seq::empty(),
                    default_value: None,
                },
            }),
    {
        let port = Self::output_description(name, "");
        proof {
            reveal_strlit("");
            assert(""@ =~= Seq::<char>::empty());
        }
        port
    }

    pub fn output_description(name: &str, description: &str) -> (r: Port)
        ensures
            r@ == (PortView {
                name: name@,
                info: PortInfoView {
                    direction: PortDirection::Output,
                    description: description@,
                    default_value: None,
                },
            }),
    {
        Self::create_port(PortDirection::Output, name, description)
    }

    pub fn name(&self) -> (r: &str)
        ensures
            r@ == self@.name,
    {
        self.0.as_str()
    }

    pub fn info(&self) -> (r: &PortInfo)
        ensures
            r@ == self@.info,
    {
        &self.1
    }
}

/// The ports of a node type, by name.
pub type PortsList = TextMap<PortInfo>;

/// The model of a [`PortsList`]: the model of each port under its name.
pub open spec fn ports_view(ports: PortsList) -> Map<Seq<char>, PortInfoView> {
    ports@.map_values(|info: PortInfo| info@)
}

/// The ports that a list of declarations gives: a later declaration of a
/// name replaces an earlier one.
pub open spec fn declared_ports(ports: Seq<Port>) -> Map<Seq<char>, PortInfoView>
    decreases ports.len(),
{
    if ports.len() == 0 {
        Map::empty()
    } else {
        declared_ports(ports.drop_last()).insert(ports.last()@.name, ports.last()@.info)
    }
}

/// Collects declarations into a list of ports.
pub fn define_ports(ports: Vec<Port>) -> (r: PortsList)
    ensures
        ports_view(r) == declared_ports(ports@),
{
    let mut list: PortsList = TextMap::new();
    let ghost all = ports@;
    let mut rest = ports;
    assert(ports_view(list) =~= declared_ports(all.take(0)));
    while rest.len() > 0
        invariant
            rest.len() <= all.len(),
            rest@ == all.subrange(all.len() - rest.len(), all.len() as int),
            ports_view(list) == declared_ports(all.take(all.len() - rest.len())),
        decreases rest.len(),
    {
        let ghost k = all.len() - rest.len();
        let ghost before = list@;
        let Port(name, info) = rest.remove(0);
        assert(name@ == all[k]@.name && info@ == all[k]@.info);
        let ghost info_view = info@;
        list.insert(name, info);
        proof {
            assert(all.take(k + 1).drop_last() =~= all.take(k));
            assert(all.take(k + 1).last() == all[k]);
            assert(ports_view(list) =~= declared_ports(all.take(k)).insert(name@, info_view));
            assert(rest@ =~= all.subrange(all.len() - rest.len(), all.len() as int));
        }
    }
    assert(all.take(all.len() as int) =~= all);
    list
}

/// The ports that a list of entries declares.
pub open spec fn entries_ports(entries: Seq<(String, PortInfo)>) -> Map<Seq<char>, PortInfoView> {
    crate::text_map::map_of(entries).map_values(|info: PortInfo| info@)
}

/// A copy of a list of ports.
pub fn clone_ports(ports: &PortsList) -> (r: PortsList)
    ensures
        ports_view(r) == ports_view(*ports),
{
    let mut copy: PortsList = TextMap::new();
    let mut i: usize = 0;
    let n = ports.len();
    let ghost entries = ports.entries();
    assert(ports_view(copy) =~= entries_ports(entries.take(0)));
    while i < n
        invariant
            i <= n,
            n == entries.len(),
            entries == ports.entries(),
            ports_view(copy) == entries_ports(entries.take(i as int)),
        decreases n - i,
    {
        let (name, info) = ports.entry(i);
        let info_copy = info.clone();
        let ghost info_view = info_copy@;
        copy.insert(name.to_owned(), info_copy);
        proof {
            assert(entries.take(i + 1).drop_last() =~= entries.take(i as int));
            assert(entries.take(i + 1).last() == entries[i as int]);
            assert(ports_view(copy) =~= entries_ports(entries.take(i as int)).insert(
                name@,
                info_view,
            ));
            assert(entries_ports(entries.take(i + 1)) =~= entries_ports(
                entries.take(i as int),
            ).insert(name@, info_view));
        }
        i += 1;
    }
    assert(entries.take(n as int) =~= entries);
    copy
}

/// What the registry knows of a node type.
#[derive(Debug)]
pub struct TreeNodeManifest {
    node_type: NodeType,
    registration_id: String,
    ports: PortsList,
    description: String,
}

/// The model of a [`TreeNodeManifest`].
pub struct ManifestView {
    pub node_type: NodeType,
    pub registration_id: Seq<char>,
    pub ports: Map<Seq<char>, PortInfoView>,
    pub description: Seq<char>,
}

impl View for TreeNodeManifest {
    type V = ManifestView;

    closed spec fn view(&self) -> ManifestView {
        ManifestView {
            node_type: self.node_type,
            registration_id: self.registration_id@,
            ports: ports_view(self.ports),
            description: self.description@,
        }
    }
}

impl TreeNodeManifest {
    pub fn new(node_type: NodeType, registration_id: &str, ports: PortsList, description: &str) -> (r:
        TreeNodeManifest)
        ensures
            r@ == (ManifestView {
                node_type,
                registration_id: registration_id@,
                ports: ports_view(ports),
                description: description@,
            }),
    {
        TreeNodeManifest {
            node_type,
            registration_id: registration_id.to_owned(),
            ports,
            description: description.to_owned(),
        }
    }

    /// The same manifest under another identifier.
    pub fn with_registration_id(self, registration_id: &str) -> (r: TreeNodeManifest)
        ensures
            r@ == (ManifestView { registration_id: registration_id@, ..self@ }),
    {
        let mut manifest = self;
        manifest.registration_id = registration_id.to_owned();
        manifest
    }

    pub fn node_type(&self) -> (r: NodeType)
        ensures
            r == self@.node_type,
    {
        self.node_type
    }

    pub fn registration_id(&self) -> (r: &str)
        ensures
            r@ == self@.registration_id,
    {
        self.registration_id.as_str()
    }

    pub fn ports(&self) -> (r: &PortsList)
        ensures
            ports_view(*r) == self@.ports,
    {
        &self.ports
    }

    pub fn description(&self) -> (r: &str)
        ensures
            r@ == self@.description,
    {
        self.description.as_str()
    }
}

} // verus!
