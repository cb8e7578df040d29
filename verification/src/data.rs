//! The values that flow through a graph.

use vstd::prelude::*;
use vstd::std_specs::cmp::PartialEqSpecImpl;
use crate::datatype::{DataType, TypeModel};
use crate::json::{Json, JsonModel};
use crate::canonical::canonical;
use crate::text::same_text;

verus! {

/// What the engine reads of a one-shot receiver: whether its value is still
/// to come or has been taken.
#[derive(Clone, Copy, Debug, PartialEq, Eq, Structural)]
pub enum ChannelState {
    Pending,
    Consumed,
}

/// A value that a node receives or produces.
#[derive(Debug)]
pub enum Data {
    Null,
    Integer(i32),
    /// A 64-bit float, held as its IEEE-754 bit pattern.
    Float(u64),
    Text(String),
    List(Vec<Data>),
    Json(Json),
    /// A single-consumer channel for a value that arrives later.
    OneConsumerChannel(ChannelState),
}

/// The mathematical form of a [`Data`] value.
pub enum DataModel {
    Null,
    Integer(i32),
    Float(u64),
    Text(Seq<char>),
    List(Seq<DataModel>),
    Json(JsonModel),
    OneConsumerChannel(ChannelState),
}

impl Data {
    /// The value as a mathematical value.
    pub open spec fn model(&self) -> DataModel
        decreases self,
    {
        match self {
            Data::Null => DataModel::Null,
            Data::Integer(v) => DataModel::Integer(*v),
            Data::Float(bits) => DataModel::Float(*bits),
            Data::Text(s) => DataModel::Text(s@),
            Data::List(items) => DataModel::List(
                Seq::new(
                    items@.len(),
                    |i: int|
                        if 0 <= i < items@.len() {
                            items@[i].model()
                        } else {
                            DataModel::Null
                        },
                ),
            ),
            Data::Json(doc) => DataModel::Json(doc@),
            Data::OneConsumerChannel(state) => DataModel::OneConsumerChannel(*state),
        }
    }
}

impl View for Data {
    type V = DataModel;

    open spec fn view(&self) -> DataModel {
        self.model()
    }
}

/// The models of a run of values, in order.
pub open spec fn models(items: Seq<Data>) -> Seq<DataModel> {
    Seq::new(items.len(), |i: int| items[i]@)
}

/// Equality of values. It is structural, with floats compared by their bits,
/// but for documents and channels: two documents are equal when they are
/// the same but for the order of the members of their objects, and two
/// channels only when both have been consumed.
pub open spec fn equal_values(a: DataModel, b: DataModel) -> bool
    decreases a,
{
    match (a, b) {
        (DataModel::Null, DataModel::Null) => true,
        (DataModel::Integer(x), DataModel::Integer(y)) => x == y,
        (DataModel::Float(x), DataModel::Float(y)) => x == y,
        (DataModel::Text(x), DataModel::Text(y)) => x == y,
        (DataModel::List(xs), DataModel::List(ys)) => xs.len() == ys.len() && forall|i: int|
            0 <= i < xs.len() ==> equal_values(#[trigger] xs[i], ys[i]),
        (DataModel::Json(x), DataModel::Json(y)) => canonical(x) == canonical(y),
        (DataModel::OneConsumerChannel(x), DataModel::OneConsumerChannel(y)) => x
            == ChannelState::Consumed && y == ChannelState::Consumed,
        _ => false,
    }
}

/// The type of a value. A list has the type of its first item, an empty list
/// that of a list of integers. A channel has the type of a channel; as it
/// shows nothing of the value that it carries, its item type is that of
/// integers, as for an empty list.
pub open spec fn type_of(d: DataModel) -> TypeModel
    decreases d,
{
    match d {
        DataModel::Null => TypeModel::Null,
        DataModel::Integer(_) => TypeModel::Integer,
        DataModel::Float(_) => TypeModel::Float,
        DataModel::Text(_) => TypeModel::Text,
        DataModel::List(items) => if items.len() > 0 {
            TypeModel::List(Box::new(type_of(items[0])))
        } else {
            TypeModel::List(Box::new(TypeModel::Integer))
        },
        DataModel::Json(_) => TypeModel::Json,
        DataModel::OneConsumerChannel(_) => TypeModel::OneConsumerChannel(
            Box::new(TypeModel::Integer),
        ),
    }
}

impl Data {
    /// The integer, where the value is one.
    pub fn as_integer(&self) -> (res: Option<i32>)
        ensures
            res == (match self@ {
                DataModel::Integer(v) => Some(v),
                _ => None,
            }),
    {
        if let Data::Integer(v) = self {
            Some(*v)
        } else {
            None
        }
    }

    /// The text, where the value is one.
    pub fn as_text(&self) -> (res: Option<&str>)
        ensures
            match self@ {
                DataModel::Text(s) => res matches Some(t) && t@ == s,
                _ => res is None,
            },
    {
        if let Data::Text(v) = self {
            Some(v.as_str())
        } else {
            None
        }
    }

    /// The items, where the value is a list.
    pub fn as_list(&self) -> (res: Option<&[Data]>)
        ensures
            match self@ {
                DataModel::List(items) => res matches Some(slice) && models(slice@) == items,
                _ => res is None,
            },
    {
        if let Data::List(v) = self {
            let slice = v.as_slice();
            assert(models(slice@) =~= self@->List_0);
            Some(slice)
        } else {
            None
        }
    }

    /// The type of the value.
    pub fn get_type(&self) -> (res: DataType)
        ensures
            res@ == type_of(self@),
        decreases self,
    {
        match self {
            Data::Null => DataType::Null,
            Data::Integer(_) => DataType::Integer,
            Data::Float(_) => DataType::Float,
            Data::Text(_) => DataType::Text,
            Data::List(items) => {
                assert(self@->List_0.len() == items@.len());
                if items.len() > 0 {
                    assert(self@->List_0[0] == items@[0]@);
                    let first = items[0].get_type();
                    let res = DataType::List(Box::new(first));
                    assert(res@ == TypeModel::List(Box::new(first@)));
                    res
                } else {
                    let res = DataType::List(Box::new(DataType::Integer));
                    assert(res@ == TypeModel::List(Box::new(TypeModel::Integer))) by {
                        reveal_with_fuel(DataType::model, 2);
                    }
                    res
                }
            },
            Data::Json(_) => DataType::Json,
            Data::OneConsumerChannel(_) => {
                let res = DataType::OneConsumerChannel(Box::new(DataType::Integer));
                assert(res@ == TypeModel::OneConsumerChannel(Box::new(TypeModel::Integer))) by {
                    reveal_with_fuel(DataType::model, 2);
                }
                res
            },
        }
    }

    /// Whether two values are equal.
    pub fn same_as(&self, other: &Data) -> (res: bool)
        ensures
            res == equal_values(self@, other@),
        decreases self,
    {
        match (self, other) {
            (Data::Null, Data::Null) => true,
            (Data::Integer(a), Data::Integer(b)) => *a == *b,
            (Data::Float(a), Data::Float(b)) => *a == *b,
            (Data::Text(a), Data::Text(b)) => same_text(a.as_str(), b.as_str()),
            (Data::List(xs), Data::List(ys)) => {
                if xs.len() != ys.len() {
                    assert(self@->List_0.len() == xs@.len());
                    assert(other@->List_0.len() == ys@.len());
                    return false;
                }
                let mut i: usize = 0;
                while i < xs.len()
                    invariant
                        i <= xs.len(),
                        xs.len() == ys.len(),
                        self == Data::List(*xs),
                        other == Data::List(*ys),
                        forall|j: int| 0 <= j < i ==> equal_values(xs@[j]@, ys@[j]@),
                    decreases xs.len() - i,
                {
                    assert(self@->List_0[i as int] == xs@[i as int]@);
                    assert(other@->List_0[i as int] == ys@[i as int]@);
                    if !xs[i].same_as(&ys[i]) {
                        return false;
                    }
                    i = i + 1;
                }
                assert forall|j: int| 0 <= j < self@->List_0.len() implies equal_values(
                    #[trigger] self@->List_0[j],
                    other@->List_0[j],
                ) by {
                    assert(self@->List_0[j] == xs@[j]@);
                    assert(other@->List_0[j] == ys@[j]@);
                }
                true
            },
            (Data::Json(a), Data::Json(b)) => a.equals(b),
            (Data::OneConsumerChannel(a), Data::OneConsumerChannel(b)) => {
                *a == ChannelState::Consumed && *b == ChannelState::Consumed
            },
            _ => false,
        }
    }

    /// A copy of the value.
    pub fn duplicate(&self) -> (res: Data)
        ensures
            res@ == self@,
        decreases self,
    {
        match self {
            Data::Null => Data::Null,
            Data::Integer(v) => Data::Integer(*v),
            Data::Float(bits) => Data::Float(*bits),
            Data::Text(s) => Data::Text(s.clone()),
            Data::List(items) => {
                let mut copy: Vec<Data> = Vec::new();
                let mut i: usize = 0;
                while i < items.len()
                    invariant
                        i <= items.len(),
                        self == Data::List(*items),
                        copy@.len() == i,
                        forall|j: int| 0 <= j < i ==> copy@[j]@ == items@[j]@,
                    decreases items.len() - i,
                {
                    assert(self->List_0 == *items);
                    let item = items[i].duplicate();
                    copy.push(item);
                    i = i + 1;
                }
                let res = Data::List(copy);
                assert(res@->List_0 =~= self@->List_0);
                res
            },
            Data::Json(doc) => Data::Json(doc.duplicate()),
            Data::OneConsumerChannel(state) => Data::OneConsumerChannel(*state),
        }
    }
}

impl Clone for Data {
    fn clone(&self) -> (res: Self)
        ensures
            res@ == self@,
    {
        self.duplicate()
    }
}

impl PartialEq for Data {
    fn eq(&self, other: &Data) -> (res: bool) {
        self.same_as(other)
    }
}

impl PartialEqSpecImpl for Data {
    open spec fn obeys_eq_spec() -> bool {
        true
    }

    open spec fn eq_spec(&self, other: &Data) -> bool {
        equal_values(self@, other@)
    }
}

} // verus!
