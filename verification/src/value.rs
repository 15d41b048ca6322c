//! The values that a blackboard can hold: a closed set of scalar types and
//! lists of them, each remembered with its type, so that a value comes back
//! only as the type it was stored as.
use vstd::prelude::*;
use crate::basic_types::{FromText, NodeStatus, NodeType, PortDirection};

verus! {

/// The twelve integer types.
#[derive(Debug, Clone, Copy, PartialEq, Eq, Structural)]
pub enum IntKind {
    U8,
    U16,
    U32,
    U64,
    U128,
    Usize,
    I8,
    I16,
    I32,
    I64,
    I128,
    Isize,
}

/// A value together with its type.
#[derive(Debug)]
pub enum AnyValue {
    Bool(bool),
    U8(u8),
    U16(u16),
    U32(u32),
    U64(u64),
    U128(u128),
    Usize(usize),
    I8(i8),
    I16(i16),
    I32(i32),
    I64(i64),
    I128(i128),
    Isize(isize),
    Text(String),
    Status(NodeStatus),
    Kind(NodeType),
    Direction(PortDirection),
    List(Vec<AnyValue>),
}

/// The model of a [`AnyValue`].
pub enum AnyValueView {
    Bool(bool),
    Int(IntKind, int),
    Text(Seq<char>),
    Status(NodeStatus),
    Kind(NodeType),
    Direction(PortDirection),
    List(Seq<AnyValueView>),
}

/// The model of a value.
pub open spec fn value_view(v: AnyValue) -> AnyValueView
    decreases v,
{
    match v {
        AnyValue::Bool(b) => AnyValueView::Bool(b),
        AnyValue::U8(n) => AnyValueView::Int(IntKind::U8, n as int),
        AnyValue::U16(n) => AnyValueView::Int(IntKind::U16, n as int),
        AnyValue::U32(n) => AnyValueView::Int(IntKind::U32, n as int),
        AnyValue::U64(n) => AnyValueView::Int(IntKind::U64, n as int),
        AnyValue::U128(n) => AnyValueView::Int(IntKind::U128, n as int),
        AnyValue::Usize(n) => AnyValueView::Int(IntKind::Usize, n as int),
        AnyValue::I8(n) => AnyValueView::Int(IntKind::I8, n as int),
        AnyValue::I16(n) => AnyValueView::Int(IntKind::I16, n as int),
        AnyValue::I32(n) => AnyValueView::Int(IntKind::I32, n as int),
        AnyValue::I64(n) => AnyValueView::Int(IntKind::I64, n as int),
        AnyValue::I128(n) => AnyValueView::Int(IntKind::I128, n as int),
        AnyValue::Isize(n) => AnyValueView::Int(IntKind::Isize, n as int),
        AnyValue::Text(s) => AnyValueView::Text(s@),
        AnyValue::Status(s) => AnyValueView::Status(s),
        AnyValue::Kind(k) => AnyValueView::Kind(k),
        AnyValue::Direction(d) => AnyValueView::Direction(d),
        AnyValue::List(items) => AnyValueView::List(values_view(items@)),
    }
}

/// The models of the values of a list, in order.
pub open spec fn values_view(items: Seq<AnyValue>) -> Seq<AnyValueView>
    decreases items,
{
    if items.len() == 0 {
        Seq::empty()
    } else {
        values_view(items.drop_last()).push(value_view(items.last()))
    }
}

/// The model of a list holds the model of each item at the item's place.
pub proof fn lemma_values_view(items: Seq<AnyValue>)
    ensures
        values_view(items).len() == items.len(),
        forall|i: int| 0 <= i < items.len() ==> (#[trigger] values_view(items)[i]) == value_view(items[i]),
    decreases items.len(),
{
    if items.len() > 0 {
        lemma_values_view(items.drop_last());
    }
}

impl DeepView for AnyValue {
    type V = AnyValueView;

    open spec fn deep_view(&self) -> AnyValueView {
        value_view(*self)
    }
}

impl Clone for AnyValue {
    fn clone(&self) -> (r: AnyValue)
        ensures
            r.deep_view() == self.deep_view(),
        decreases self,
    {
        match self {
            AnyValue::Bool(b) => AnyValue::Bool(*b),
            AnyValue::U8(n) => AnyValue::U8(*n),
            AnyValue::U16(n) => AnyValue::U16(*n),
            AnyValue::U32(n) => AnyValue::U32(*n),
            AnyValue::U64(n) => AnyValue::U64(*n),
            AnyValue::U128(n) => AnyValue::U128(*n),
            AnyValue::Usize(n) => AnyValue::Usize(*n),
            AnyValue::I8(n) => AnyValue::I8(*n),
            AnyValue::I16(n) => AnyValue::I16(*n),
            AnyValue::I32(n) => AnyValue::I32(*n),
            AnyValue::I64(n) => AnyValue::I64(*n),
            AnyValue::I128(n) => AnyValue::I128(*n),
            AnyValue::Isize(n) => AnyValue::Isize(*n),
            AnyValue::Text(s) => AnyValue::Text(s.clone()),
            AnyValue::Status(s) => AnyValue::Status(*s),
            AnyValue::Kind(k) => AnyValue::Kind(*k),
            AnyValue::Direction(d) => AnyValue::Direction(*d),
            AnyValue::List(items) => {
                let mut copy: Vec<AnyValue> = Vec::new();
                let mut i: usize = 0;
                while i < items.len()
                    invariant
                        i <= items.len(),
                        copy.len() == i,
                        *self is List,
                        (*self)->List_0 == *items,
                        forall|j: int| 0 <= j < i ==> value_view(#[trigger] copy[j]) == value_view(items[j]),
                    decreases items.len() - i,
                {
                    proof {
                        broadcast use vstd::std_specs::vec::axiom_vec_index_decreases;
                        assert(decreases_to!(*self => (*self)->List_0));
                        assert(decreases_to!((*self)->List_0 => items[i as int]));
                    }
                    let item = items[i].clone();
                    copy.push(item);
                    i += 1;
                }
                proof {
                    lemma_values_view(items@);
                    lemma_values_view(copy@);
                    assert(values_view(copy@) =~= values_view(items@));
                }
                AnyValue::List(copy)
            },
        }
    }
}

/// Types whose values can be stored.
pub trait IntoValue: Sized {
    /// The model of the stored form of the value.
    spec fn stored(&self) -> AnyValueView;

    fn into_value(self) -> (v: AnyValue)
        ensures
            v.deep_view() == self.stored(),
    ;
}

/// Types whose values can be stored and had back.
pub trait Storable: FromText + IntoValue {
    /// What a stored value is as a value of this type: the value's model,
    /// if it was stored as this type.
    spec fn native(v: AnyValueView) -> Option<Self::V>;

    fn from_value(v: &AnyValue) -> (r: Option<Self>)
        ensures
            match r {
                Some(x) => Self::native(v.deep_view()) == Some(x.deep_view()),
                None => Self::native(v.deep_view()) is None,
            },
    ;

    /// A value that was stored comes back as itself.
    proof fn lemma_native_of_stored(&self)
        ensures
            Self::native(self.stored()) == Some(self.deep_view()),
    ;
}

impl IntoValue for AnyValue {
    open spec fn stored(&self) -> AnyValueView {
        self.deep_view()
    }

    fn into_value(self) -> (v: AnyValue) {
        self
    }
}

impl IntoValue for &str {
    open spec fn stored(&self) -> AnyValueView {
        AnyValueView::Text(self@)
    }

    fn into_value(self) -> (v: AnyValue) {
        AnyValue::Text(self.to_owned())
    }
}

impl IntoValue for String {
    open spec fn stored(&self) -> AnyValueView {
        AnyValueView::Text(self@)
    }

    fn into_value(self) -> (v: AnyValue) {
        AnyValue::Text(self)
    }
}

impl Storable for String {
    open spec fn native(v: AnyValueView) -> Option<Seq<char>> {
        match v {
            AnyValueView::Text(s) => Some(s),
            _ => None,
        }
    }

    fn from_value(v: &AnyValue) -> (r: Option<String>) {
        match v {
            AnyValue::Text(s) => Some(s.clone()),
            _ => None,
        }
    }

    proof fn lemma_native_of_stored(&self) {
    }
}

impl IntoValue for bool {
    open spec fn stored(&self) -> AnyValueView {
        AnyValueView::Bool(*self)
    }

    fn into_value(self) -> (v: AnyValue) {
        AnyValue::Bool(self)
    }
}

impl Storable for bool {
    open spec fn native(v: AnyValueView) -> Option<bool> {
        match v {
            AnyValueView::Bool(x) => Some(x),
            _ => None,
        }
    }

    fn from_value(v: &AnyValue) -> (r: Option<bool>) {
        match v {
            AnyValue::Bool(x) => Some(*x),
            _ => None,
        }
    }

    proof fn lemma_native_of_stored(&self) {
    }
}

impl IntoValue for NodeStatus {
    open spec fn stored(&self) -> AnyValueView {
        AnyValueView::Status(*self)
    }

    fn into_value(self) -> (v: AnyValue) {
        AnyValue::Status(self)
    }
}

impl Storable for NodeStatus {
    open spec fn native(v: AnyValueView) -> Option<NodeStatus> {
        match v {
            AnyValueView::Status(x) => Some(x),
            _ => None,
        }
    }

    fn from_value(v: &AnyValue) -> (r: Option<NodeStatus>) {
        match v {
            AnyValue::Status(x) => Some(*x),
            _ => None,
        }
    }

    proof fn lemma_native_of_stored(&self) {
    }
}

impl IntoValue for NodeType {
    open spec fn stored(&self) -> AnyValueView {
        AnyValueView::Kind(*self)
    }

    fn into_value(self) -> (v: AnyValue) {
        AnyValue::Kind(self)
    }
}

impl Storable for NodeType {
    open spec fn native(v: AnyValueView) -> Option<NodeType> {
        match v {
            AnyValueView::Kind(x) => Some(x),
            _ => None,
        }
    }

    fn from_value(v: &AnyValue) -> (r: Option<NodeType>) {
        match v {
            AnyValue::Kind(x) => Some(*x),
            _ => None,
        }
    }

    proof fn lemma_native_of_stored(&self) {
    }
}

impl IntoValue for PortDirection {
    open spec fn stored(&self) -> AnyValueView {
        AnyValueView::Direction(*self)
    }

    fn into_value(self) -> (v: AnyValue) {
        AnyValue::Direction(self)
    }
}

impl Storable for PortDirection {
    open spec fn native(v: AnyValueView) -> Option<PortDirection> {
        match v {
            AnyValueView::Direction(x) => Some(x),
            _ => None,
        }
    }

    fn from_value(v: &AnyValue) -> (r: Option<PortDirection>) {
        match v {
            AnyValue::Direction(x) => Some(*x),
            _ => None,
        }
    }

    proof fn lemma_native_of_stored(&self) {
    }
}

impl IntoValue for u8 {
    open spec fn stored(&self) -> AnyValueView {
        AnyValueView::Int(IntKind::U8, *self as int)
    }

    fn into_value(self) -> (v: AnyValue) {
        AnyValue::U8(self)
    }
}

impl Storable for u8 {
    open spec fn native(v: AnyValueView) -> Option<u8> {
        match v {
            AnyValueView::Int(IntKind::U8, n) => Some(n as u8),
            _ => None,
        }
    }

    fn from_value(v: &AnyValue) -> (r: Option<u8>) {
        match v {
            AnyValue::U8(x) => Some(*x),
            _ => None,
        }
    }

    proof fn lemma_native_of_stored(&self) {
    }
}

impl IntoValue for u16 {
    open spec fn stored(&self) -> AnyValueView {
        AnyValueView::Int(IntKind::U16, *self as int)
    }

    fn into_value(self) -> (v: AnyValue) {
        AnyValue::U16(self)
    }
}

impl Storable for u16 {
    open spec fn native(v: AnyValueView) -> Option<u16> {
        match v {
            AnyValueView::Int(IntKind::U16, n) => Some(n as u16),
            _ => None,
        }
    }

    fn from_value(v: &AnyValue) -> (r: Option<u16>) {
        match v {
            AnyValue::U16(x) => Some(*x),
            _ => None,
        }
    }

    proof fn lemma_native_of_stored(&self) {
    }
}

impl IntoValue for u32 {
    open spec fn stored(&self) -> AnyValueView {
        AnyValueView::Int(IntKind::U32, *self as int)
    }

    fn into_value(self) -> (v: AnyValue) {
        AnyValue::U32(self)
    }
}

impl Storable for u32 {
    open spec fn native(v: AnyValueView) -> Option<u32> {
        match v {
            AnyValueView::Int(IntKind::U32, n) => Some(n as u32),
            _ => None,
        }
    }

    fn from_value(v: &AnyValue) -> (r: Option<u32>) {
        match v {
            AnyValue::U32(x) => Some(*x),
            _ => None,
        }
    }

    proof fn lemma_native_of_stored(&self) {
    }
}

impl IntoValue for u64 {
    open spec fn stored(&self) -> AnyValueView {
        AnyValueView::Int(IntKind::U64, *self as int)
    }

    fn into_value(self) -> (v: AnyValue) {
        AnyValue::U64(self)
    }
}

impl Storable for u64 {
    open spec fn native(v: AnyValueView) -> Option<u64> {
        match v {
            AnyValueView::Int(IntKind::U64, n) => Some(n as u64),
            _ => None,
        }
    }

    fn from_value(v: &AnyValue) -> (r: Option<u64>) {
        match v {
            AnyValue::U64(x) => Some(*x),
            _ => None,
        }
    }

    proof fn lemma_native_of_stored(&self) {
    }
}

impl IntoValue for u128 {
    open spec fn stored(&self) -> AnyValueView {
        AnyValueView::Int(IntKind::U128, *self as int)
    }

    fn into_value(self) -> (v: AnyValue) {
        AnyValue::U128(self)
    }
}

impl Storable for u128 {
    open spec fn native(v: AnyValueView) -> Option<u128> {
        match v {
            AnyValueView::Int(IntKind::U128, n) => Some(n as u128),
            _ => None,
        }
    }

    fn from_value(v: &AnyValue) -> (r: Option<u128>) {
        match v {
            AnyValue::U128(x) => Some(*x),
            _ => None,
        }
    }

    proof fn lemma_native_of_stored(&self) {
    }
}

impl IntoValue for usize {
    open spec fn stored(&self) -> AnyValueView {
        AnyValueView::Int(IntKind::Usize, *self as int)
    }

    fn into_value(self) -> (v: AnyValue) {
        AnyValue::Usize(self)
    }
}

impl Storable for usize {
    open spec fn native(v: AnyValueView) -> Option<usize> {
        match v {
            AnyValueView::Int(IntKind::Usize, n) => Some(n as usize),
            _ => None,
        }
    }

    fn from_value(v: &AnyValue) -> (r: Option<usize>) {
        match v {
            AnyValue::Usize(x) => Some(*x),
            _ => None,
        }
    }

    proof fn lemma_native_of_stored(&self) {
    }
}

impl IntoValue for i8 {
    open spec fn stored(&self) -> AnyValueView {
        AnyValueView::Int(IntKind::I8, *self as int)
    }

    fn into_value(self) -> (v: AnyValue) {
        AnyValue::I8(self)
    }
}

impl Storable for i8 {
    open spec fn native(v: AnyValueView) -> Option<i8> {
        match v {
            AnyValueView::Int(IntKind::I8, n) => Some(n as i8),
            _ => None,
        }
    }

    fn from_value(v: &AnyValue) -> (r: Option<i8>) {
        match v {
            AnyValue::I8(x) => Some(*x),
            _ => None,
        }
    }

    proof fn lemma_native_of_stored(&self) {
    }
}

impl IntoValue for i16 {
    open spec fn stored(&self) -> AnyValueView {
        AnyValueView::Int(IntKind::I16, *self as int)
    }

    fn into_value(self) -> (v: AnyValue) {
        AnyValue::I16(self)
    }
}

impl Storable for i16 {
    open spec fn native(v: AnyValueView) -> Option<i16> {
        match v {
            AnyValueView::Int(IntKind::I16, n) => Some(n as i16),
            _ => None,
        }
    }

    fn from_value(v: &AnyValue) -> (r: Option<i16>) {
        match v {
            AnyValue::I16(x) => Some(*x),
            _ => None,
        }
    }

    proof fn lemma_native_of_stored(&self) {
    }
}

impl IntoValue for i32 {
    open spec fn stored(&self) -> AnyValueView {
        AnyValueView::Int(IntKind::I32, *self as int)
    }

    fn into_value(self) -> (v: AnyValue) {
        AnyValue::I32(self)
    }
}

impl Storable for i32 {
    open spec fn native(v: AnyValueView) -> Option<i32> {
        match v {
            AnyValueView::Int(IntKind::I32, n) => Some(n as i32),
            _ => None,
        }
    }

    fn from_value(v: &AnyValue) -> (r: Option<i32>) {
        match v {
            AnyValue::I32(x) => Some(*x),
            _ => None,
        }
    }

    proof fn lemma_native_of_stored(&self) {
    }
}

impl IntoValue for i64 {
    open spec fn stored(&self) -> AnyValueView {
        AnyValueView::Int(IntKind::I64, *self as int)
    }

    fn into_value(self) -> (v: AnyValue) {
        AnyValue::I64(self)
    }
}

impl Storable for i64 {
    open spec fn native(v: AnyValueView) -> Option<i64> {
        match v {
            AnyValueView::Int(IntKind::I64, n) => Some(n as i64),
            _ => None,
        }
    }

    fn from_value(v: &AnyValue) -> (r: Option<i64>) {
        match v {
            AnyValue::I64(x) => Some(*x),
            _ => None,
        }
    }

    proof fn lemma_native_of_stored(&self) {
    }
}

impl IntoValue for i128 {
    open spec fn stored(&self) -> AnyValueView {
        AnyValueView::Int(IntKind::I128, *self as int)
    }

    fn into_value(self) -> (v: AnyValue) {
        AnyValue::I128(self)
    }
}

impl Storable for i128 {
    open spec fn native(v: AnyValueView) -> Option<i128> {
        match v {
            AnyValueView::Int(IntKind::I128, n) => Some(n as i128),
            _ => None,
        }
    }

    fn from_value(v: &AnyValue) -> (r: Option<i128>) {
        match v {
            AnyValue::I128(x) => Some(*x),
            _ => None,
        }
    }

    proof fn lemma_native_of_stored(&self) {
    }
}

impl IntoValue for isize {
    open spec fn stored(&self) -> AnyValueView {
        AnyValueView::Int(IntKind::Isize, *self as int)
    }

    fn into_value(self) -> (v: AnyValue) {
        AnyValue::Isize(self)
    }
}

impl Storable for isize {
    open spec fn native(v: AnyValueView) -> Option<isize> {
        match v {
            AnyValueView::Int(IntKind::Isize, n) => Some(n as isize),
            _ => None,
        }
    }

    fn from_value(v: &AnyValue) -> (r: Option<isize>) {
        match v {
            AnyValue::Isize(x) => Some(*x),
            _ => None,
        }
    }

    proof fn lemma_native_of_stored(&self) {
    }
}

impl<T: IntoValue> IntoValue for Vec<T> {
    open spec fn stored(&self) -> AnyValueView {
        AnyValueView::List(Seq::new(self@.len(), |i: int| self@[i].stored()))
    }

    fn into_value(self) -> (v: AnyValue) {
        let ghost all = self@;
        let mut rest = self;
        let mut items: Vec<AnyValue> = Vec::new();
        while rest.len() > 0
            invariant
                rest.len() + items.len() == all.len(),
                rest@ == all.subrange(items.len() as int, all.len() as int),
                forall|j: int| 0 <= j < items.len() ==> value_view(#[trigger] items[j]) == all[j].stored(),
            decreases rest.len(),
        {
            let ghost k = items.len() as int;
            let first = rest.remove(0);
            assert(first == all[k]);
            items.push(first.into_value());
            assert(rest@ =~= all.subrange(items.len() as int, all.len() as int));
        }
        proof {
            lemma_values_view(items@);
            assert(values_view(items@) =~= Seq::new(all.len(), |i: int| all[i].stored()));
        }
        AnyValue::List(items)
    }
}

impl<T: Storable> Storable for Vec<T> {
    open spec fn native(v: AnyValueView) -> Option<Seq<T::V>> {
        match v {
            AnyValueView::List(items) => if forall|i: int|
                0 <= i < items.len() ==> (#[trigger] T::native(items[i])) is Some {
                Some(Seq::new(items.len(), |i: int| T::native(items[i])->0))
            } else {
                None
            },
            _ => None,
        }
    }

    fn from_value(v: &AnyValue) -> (r: Option<Vec<T>>) {
        match v {
            AnyValue::List(items) => {
                proof {
                    lemma_values_view(items@);
                }
                let ghost models = values_view(items@);
                let mut out: Vec<T> = Vec::new();
                let mut i: usize = 0;
                while i < items.len()
                    invariant
                        i <= items.len(),
                        out.len() == i,
                        models == values_view(items@),
                        v.deep_view() == AnyValueView::List(models),
                        models.len() == items.len(),
                        forall|j: int| 0 <= j < items.len() ==> (#[trigger] models[j]) == value_view(items[j]),
                        forall|j: int| 0 <= j < i ==> T::native(#[trigger] models[j]) == Some(out[j].deep_view()),
                    decreases items.len() - i,
                {
                    match T::from_value(&items[i]) {
                        Some(x) => {
                            out.push(x);
                        },
                        None => {
                            assert(T::native(models[i as int]) is None);
                            return None;
                        },
                    }
                    i += 1;
                }
                assert(out.deep_view() =~= Seq::new(models.len(), |i: int| T::native(models[i])->0));
                Some(out)
            },
            _ => None,
        }
    }

    proof fn lemma_native_of_stored(&self) {
        let items = Seq::new(self@.len(), |i: int| self@[i].stored());
        assert forall|i: int| 0 <= i < items.len() implies (#[trigger] T::native(items[i]))
            == Some(self@[i].deep_view()) by {
            self@[i].lemma_native_of_stored();
        }
        assert(Seq::new(items.len(), |i: int| T::native(items[i])->0) =~= self.deep_view());
    }
}

} // verus!
