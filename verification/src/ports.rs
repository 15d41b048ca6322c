//! The binding of a node's declared ports: each port of a node instance is
//! bound to a literal text or to a key of the blackboard, or left unbound.
use vstd::prelude::*;
use crate::basic_types::{FromText, PortInfoView, PortsList, clone_ports, ports_view};
use crate::blackboard::{Blackboard, BlackboardError, read_spec, recover, recover_value, yields};
use crate::text::{chars_of, string_of};
use crate::text_map::TextMap;
use crate::value::{AnyValueView, IntoValue, Storable};

verus! {

/// Why a port cannot be read, written or bound.
#[derive(Debug, Clone, Copy, PartialEq, Eq, Structural)]
pub enum PortError {
    /// The node type declares no port of this name.
    PortNotDeclared,
    /// An input port that is neither bound nor has a default, or an output
    /// port that is not bound to a key of the blackboard.
    PortNotResolved,
    /// A tree description gives a value to a port that the node type does
    /// not declare.
    UnknownPort,
    /// The literal that the port is bound to denotes no value of the wanted
    /// type.
    Conversion,
    /// The blackboard entry that the port is bound to cannot be read.
    Blackboard(BlackboardError),
}

impl PortError {
    pub fn message(&self) -> (r: String)
        ensures
            r@ == match self {
                PortError::PortNotDeclared => "the node type declares no such port"@,
                PortError::PortNotResolved => "the port is bound to nothing that could serve"@,
                PortError::UnknownPort => "a value is given to a port that is not declared"@,
                PortError::Conversion => "the port's literal cannot be read as the requested type"@,
                PortError::Blackboard(BlackboardError::KeyNotFound) => "no entry under this key"@,
                PortError::Blackboard(BlackboardError::TypeMismatch) => "the entry cannot be read as the requested type"@,
            },
    {
        match self {
            PortError::PortNotDeclared => "the node type declares no such port".to_owned(),
            PortError::PortNotResolved => "the port is bound to nothing that could serve".to_owned(),
            PortError::UnknownPort => "a value is given to a port that is not declared".to_owned(),
            PortError::Conversion => "the port's literal cannot be read as the requested type".to_owned(),
            PortError::Blackboard(e) => e.message(),
        }
    }
}

/// What a port of a node instance is bound to.
#[derive(Debug)]
pub enum PortBinding {
    /// A text taken from the tree description as it stands.
    Literal(String),
    /// A key of the blackboard.
    Reference(String),
}

/// The model of a [`PortBinding`].
pub enum BindingView {
    Literal(Seq<char>),
    Reference(Seq<char>),
}

impl View for PortBinding {
    type V = BindingView;

    open spec fn view(&self) -> BindingView {
        match self {
            PortBinding::Literal(s) => BindingView::Literal(s@),
            PortBinding::Reference(s) => BindingView::Reference(s@),
        }
    }
}

/// What an attribute value of a tree description binds a port to: a text
/// between `{` and `}` names a key of the blackboard, any other text is a
/// literal.
pub open spec fn binding_of(text: Seq<char>) -> BindingView {
    if text.len() >= 2 && text[0] == '{' && text.last() == '}' {
        BindingView::Reference(text.subrange(1, text.len() - 1))
    } else {
        BindingView::Literal(text)
    }
}

/// Reads an attribute value as a binding.
pub fn parse_binding(text: &str) -> (r: PortBinding)
    ensures
        r@ == binding_of(text@),
{
    let chars = chars_of(text);
    let n = chars.len();
    if n >= 2 && chars[0] == '{' && chars[n - 1] == '}' {
        PortBinding::Reference(string_of(&chars, 1, n - 1))
    } else {
        PortBinding::Literal(text.to_owned())
    }
}

/// The ports of one node instance: what the node type declares, and what
/// each port is bound to.
#[derive(Debug)]
pub struct NodeConfig {
    ports: PortsList,
    bindings: TextMap<PortBinding>,
}

/// The model of a [`NodeConfig`].
pub struct ConfigView {
    pub ports: Map<Seq<char>, PortInfoView>,
    pub bindings: Map<Seq<char>, BindingView>,
}

impl View for NodeConfig {
    type V = ConfigView;

    closed spec fn view(&self) -> ConfigView {
        ConfigView {
            ports: ports_view(self.ports),
            bindings: self.bindings@.map_values(|b: PortBinding| b@),
        }
    }
}

/// What reading the input port `name` as a `T` gives.
///
/// A bound port yields what its literal denotes, or what the blackboard
/// holds under its key. A declared port that is not bound yields its
/// default.
pub open spec fn input_spec<T: Storable>(
    config: ConfigView,
    contents: Map<Seq<char>, AnyValueView>,
    name: Seq<char>,
) -> Result<T::V, PortError> {
    if !config.ports.contains_key(name) {
        Err(PortError::PortNotDeclared)
    } else if config.bindings.contains_key(name) {
        match config.bindings[name] {
            BindingView::Literal(s) => match T::parse_spec(s) {
                Ok(m) => Ok(m),
                Err(_) => Err(PortError::Conversion),
            },
            BindingView::Reference(key) => match read_spec::<T>(contents, key) {
                Ok(m) => Ok(m),
                Err(e) => Err(PortError::Blackboard(e)),
            },
        }
    } else {
        match config.ports[name].default_value {
            Some(d) => match recover::<T>(d) {
                Ok(m) => Ok(m),
                Err(e) => Err(PortError::Blackboard(e)),
            },
            None => Err(PortError::PortNotResolved),
        }
    }
}

/// Whether writing the output port `name` succeeds, and if not, why: the
/// port must be declared and bound to a key of the blackboard.
pub open spec fn output_target(config: ConfigView, name: Seq<char>) -> Result<Seq<char>, PortError> {
    if !config.ports.contains_key(name) {
        Err(PortError::PortNotDeclared)
    } else if config.bindings.contains_key(name) {
        match config.bindings[name] {
            BindingView::Reference(key) => Ok(key),
            BindingView::Literal(_) => Err(PortError::PortNotResolved),
        }
    } else {
        Err(PortError::PortNotResolved)
    }
}

impl NodeConfig {
    /// The configuration of a node of a type with these ports, none of them
    /// bound.
    pub fn new(ports: &PortsList) -> (r: NodeConfig)
        ensures
            r@ == (ConfigView { ports: ports_view(*ports), bindings: Map::empty() }),
    {
        let r = NodeConfig { ports: clone_ports(ports), bindings: TextMap::new() };
        assert(r@.bindings =~= Map::empty());
        r
    }

    /// Binds the port `name` to what the attribute value `text` stands
    /// for. A port that the node type does not declare cannot be bound.
    pub fn bind(&mut self, name: &str, text: &str) -> (r: Result<(), PortError>)
        ensures
            old(self)@.ports.contains_key(name@) ==> r is Ok && final(self)@ == (ConfigView {
                bindings: old(self)@.bindings.insert(name@, binding_of(text@)),
                ..old(self)@
            }),
            !old(self)@.ports.contains_key(name@) ==> r == Err::<(), PortError>(
                PortError::UnknownPort,
            ) && final(self)@ == old(self)@,
    {
        if !self.ports.contains_key(name) {
            return Err(PortError::UnknownPort);
        }
        self.bindings.insert(name.to_owned(), parse_binding(text));
        assert(self@.bindings =~= old(self)@.bindings.insert(name@, binding_of(text@)));
        Ok(())
    }

    /// The ports that the node type declares.
    pub fn provided_ports(&self) -> (r: &PortsList)
        ensures
            ports_view(*r) == self@.ports,
    {
        &self.ports
    }

    /// Whether the node type declares a port `name`.
    pub fn declares(&self, name: &str) -> (r: bool)
        ensures
            r == self@.ports.contains_key(name@),
    {
        self.ports.contains_key(name)
    }

    /// Reads the input port `name` as a `T`.
    pub fn get_input<T: Storable>(&self, name: &str, blackboard: &Blackboard) -> (r: Result<
        T,
        PortError,
    >)
        ensures
            yields(r, input_spec::<T>(self@, blackboard@, name@)),
    {
        let info = match self.ports.get(name) {
            Some(info) => info,
            None => {
                return Err(PortError::PortNotDeclared);
            },
        };
        match self.bindings.get(name) {
            Some(PortBinding::Literal(s)) => match T::from_text(s.as_str()) {
                Ok(v) => Ok(v),
                Err(_) => Err(PortError::Conversion),
            },
            Some(PortBinding::Reference(key)) => match blackboard.read::<T>(key.as_str()) {
                Ok(v) => Ok(v),
                Err(e) => Err(PortError::Blackboard(e)),
            },
            None => match info.default_value() {
                Some(d) => match recover_value::<T>(d) {
                    Ok(v) => Ok(v),
                    Err(e) => Err(PortError::Blackboard(e)),
                },
                None => Err(PortError::PortNotResolved),
            },
        }
    }

    /// Writes `value` to the output port `name`: to the key of the
    /// blackboard that the port is bound to.
    pub fn set_output<T: IntoValue>(&self, name: &str, value: T, blackboard: &mut Blackboard) -> (r:
        Result<(), PortError>)
        ensures
            match output_target(self@, name@) {
                Ok(key) => r is Ok && final(blackboard)@ == old(blackboard)@.insert(
                    key,
                    value.stored(),
                ),
                Err(e) => r == Err::<(), PortError>(e) && final(blackboard)@ == old(blackboard)@,
            },
    {
        if !self.ports.contains_key(name) {
            return Err(PortError::PortNotDeclared);
        }
        match self.bindings.get(name) {
            Some(PortBinding::Reference(key)) => {
                blackboard.write(key.as_str(), value);
                Ok(())
            },
            _ => Err(PortError::PortNotResolved),
        }
    }
}

} // verus!
