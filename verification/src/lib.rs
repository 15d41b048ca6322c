//! A behavior-tree execution engine.
//!
//! A tree description is read into a document ([`document`]), made into a
//! graph of nodes ([`nodes`]) by a [`tree::Factory`] that knows the node
//! types, and driven tick by tick by a [`tree::Tree`] until the root reports
//! success or failure. The nodes of one tree exchange typed values through a
//! [`blackboard::Blackboard`], which they reach through the ports that their
//! node type declares ([`ports`]). Values are written as text and read from
//! text by the value bridge ([`basic_types`], [`conversions`]).
//!
//! Every executable function carries a contract over mathematical models of
//! its data: a text is a `Seq<char>`, the blackboard a map from texts to
//! value models, a node graph a recursive node model, and a tick a relation
//! between the node graph before and after it ([`semantics`]).
pub mod text;
pub mod numbers;
pub mod text_map;
pub mod basic_types;
pub mod value;
pub mod conversions;
pub mod json;
pub mod blackboard;
pub mod ports;
pub mod nodes;
pub mod document;
pub mod tree;
pub mod semantics;
pub mod printing;

pub use crate::blackboard::Blackboard;
pub use crate::nodes::NodeResult;
pub use crate::tree::Factory;
