//! The blackboard: the key/value store that the nodes of one tree share.
use vstd::prelude::*;
use crate::basic_types::FromText;
use crate::text_map::TextMap;
use crate::value::{AnyValue, AnyValueView, IntoValue, Storable};

verus! {

/// Why a value cannot be had from the blackboard.
#[derive(Debug, Clone, Copy, PartialEq, Eq, Structural)]
pub enum BlackboardError {
    /// Nothing was written under the key.
    KeyNotFound,
    /// What the key holds is no value of the wanted type, and no text that
    /// denotes one.
    TypeMismatch,
}

impl BlackboardError {
    pub fn message(&self) -> (r: String)
        ensures
            r@ == match self {
                BlackboardError::KeyNotFound => "no entry under this key"@,
                BlackboardError::TypeMismatch => "the entry cannot be read as the requested type"@,
            },
    {
        match self {
            BlackboardError::KeyNotFound => "no entry under this key".to_owned(),
            BlackboardError::TypeMismatch => "the entry cannot be read as the requested type".to_owned(),
        }
    }
}

/// What a stored value is as a `T`: itself if it was stored as a `T`; what
/// it denotes if it is a text that denotes a `T`; else a mismatch.
pub open spec fn recover<T: Storable>(v: AnyValueView) -> Result<T::V, BlackboardError> {
    match T::native(v) {
        Some(m) => Ok(m),
        None => match v {
            AnyValueView::Text(s) => match T::parse_spec(s) {
                Ok(m) => Ok(m),
                Err(_) => Err(BlackboardError::TypeMismatch),
            },
            _ => Err(BlackboardError::TypeMismatch),
        },
    }
}

/// What reading `key` as a `T` gives on a blackboard with these contents.
pub open spec fn read_spec<T: Storable>(
    contents: Map<Seq<char>, AnyValueView>,
    key: Seq<char>,
) -> Result<T::V, BlackboardError> {
    if contents.contains_key(key) {
        recover::<T>(contents[key])
    } else {
        Err(BlackboardError::KeyNotFound)
    }
}

/// Whether `r` is the exec form of the outcome `expected`.
pub open spec fn yields<T: DeepView, E>(r: Result<T, E>, expected: Result<T::V, E>) -> bool {
    match r {
        Ok(v) => expected == Ok::<T::V, E>(v.deep_view()),
        Err(e) => expected == Err::<T::V, E>(e),
    }
}

/// Reads a stored value as a `T`.
pub fn recover_value<T: Storable>(v: &AnyValue) -> (r: Result<T, BlackboardError>)
    ensures
        yields(r, recover::<T>(v.deep_view())),
{
    match T::from_value(v) {
        Some(x) => Ok(x),
        None => match v {
            AnyValue::Text(s) => match T::from_text(s.as_str()) {
                Ok(x) => Ok(x),
                Err(_) => Err(BlackboardError::TypeMismatch),
            },
            _ => Err(BlackboardError::TypeMismatch),
        },
    }
}

/// A store of typed values under text keys.
#[derive(Debug)]
pub struct Blackboard {
    storage: TextMap<AnyValue>,
}

impl View for Blackboard {
    type V = Map<Seq<char>, AnyValueView>;

    closed spec fn view(&self) -> Map<Seq<char>, AnyValueView> {
        self.storage@.map_values(|v: AnyValue| v.deep_view())
    }
}

impl Blackboard {
    /// A blackboard without entries.
    pub fn new() -> (r: Blackboard)
        ensures
            r@ == Map::<Seq<char>, AnyValueView>::empty(),
    {
        let r = Blackboard { storage: TextMap::new() };
        assert(r@ =~= Map::<Seq<char>, AnyValueView>::empty());
        r
    }

    /// Stores `value` under `key`. What the key held before is gone, its
    /// type too.
    pub fn write<T: IntoValue>(&mut self, key: &str, value: T)
        ensures
            final(self)@ == old(self)@.insert(key@, value.stored()),
    {
        let stored = value.into_value();
        self.storage.insert(key.to_owned(), stored);
        assert(self@ =~= old(self)@.insert(key@, value.stored()));
    }

    /// Whether something was written under `key`.
    pub fn contains(&self, key: &str) -> (r: bool)
        ensures
            r == self@.contains_key(key@),
    {
        self.storage.contains_key(key)
    }

    /// What `key` holds, as it was stored.
    pub fn get(&self, key: &str) -> (r: Option<&AnyValue>)
        ensures
            r.deep_view() == if self@.contains_key(key@) {
                Some(self@[key@])
            } else {
                None
            },
    {
        self.storage.get(key)
    }

    /// What `key` holds, as a `T`.
    pub fn read<T: Storable>(&self, key: &str) -> (r: Result<T, BlackboardError>)
        ensures
            yields(r, read_spec::<T>(self@, key@)),
    {
        match self.storage.get(key) {
            Some(v) => recover_value::<T>(v),
            None => Err(BlackboardError::KeyNotFound),
        }
    }
}

/// A value that was written under a key is what reading the key as the
/// value's type gives.
pub proof fn lemma_read_after_write<T: Storable>(
    contents: Map<Seq<char>, AnyValueView>,
    key: Seq<char>,
    value: T,
)
    ensures
        read_spec::<T>(contents.insert(key, value.stored()), key) == Ok::<T::V, BlackboardError>(
            value.deep_view(),
        ),
{
    value.lemma_native_of_stored();
}

/// Writing under one key changes nothing for a reader of another key.
pub proof fn lemma_read_other_key<T: Storable>(
    contents: Map<Seq<char>, AnyValueView>,
    key: Seq<char>,
    other: Seq<char>,
    value: AnyValueView,
)
    requires
        key != other,
    ensures
        read_spec::<T>(contents.insert(key, value), other) == read_spec::<T>(contents, other),
{
}

/// Reading a key under which nothing was written fails with `KeyNotFound`.
pub proof fn lemma_read_unwritten<T: Storable>(contents: Map<Seq<char>, AnyValueView>, key: Seq<char>)
    requires
        !contents.contains_key(key),
    ensures
        read_spec::<T>(contents, key) == Err::<T::V, BlackboardError>(BlackboardError::KeyNotFound),
{
}

/// Reading a key as a type that its value was not stored as, and that its
/// value is no text for, fails with `TypeMismatch`.
pub proof fn lemma_read_mismatch<T: Storable>(contents: Map<Seq<char>, AnyValueView>, key: Seq<char>)
    requires
        contents.contains_key(key),
        T::native(contents[key]) is None,
        contents[key] matches AnyValueView::Text(s) ==> T::parse_spec(s) is Err,
    ensures
        read_spec::<T>(contents, key) == Err::<T::V, BlackboardError>(BlackboardError::TypeMismatch),
{
}

} // verus!
