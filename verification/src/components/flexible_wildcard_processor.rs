//! A component that turns whatever it is handed into a document that says
//! what it was.

use vstd::prelude::*;
use crate::codec::int_number;
use crate::component::Component;
use crate::dag::DAGError;
use crate::data::{type_of, Data, DataModel};
use crate::datatype::{DataType, TypeModel};
use crate::json::{Json, JsonModel, JsonNumber};

verus! {

pub struct FlexibleWildcardProcessor;

/// The document `{"type": kind}`.
pub open spec fn kind_doc(kind: Seq<char>) -> JsonModel {
    JsonModel::Object(seq![("type"@, JsonModel::Text(kind))])
}

/// The document `{"type": kind, "value": value}`.
pub open spec fn kind_value_doc(kind: Seq<char>, value: JsonModel) -> JsonModel {
    JsonModel::Object(seq![("type"@, JsonModel::Text(kind)), ("value"@, value)])
}

/// What stands for an item of a list: an integer and a text with their
/// value, anything else as unknown.
pub open spec fn item_doc(d: DataModel) -> JsonModel {
    match d {
        DataModel::Integer(i) => kind_value_doc("integer"@, JsonModel::Number(int_number(i))),
        DataModel::Text(t) => kind_value_doc("text"@, JsonModel::Text(t)),
        _ => kind_doc("unknown"@),
    }
}

/// The document that the processor makes of an input. It makes none of a
/// float.
pub open spec fn wildcard_doc(d: DataModel) -> Option<JsonModel> {
    match d {
        DataModel::Null => Some(kind_doc("null"@)),
        DataModel::Json(doc) => Some(doc),
        DataModel::Integer(_) => Some(item_doc(d)),
        DataModel::Text(_) => Some(item_doc(d)),
        DataModel::List(items) => Some(
            JsonModel::Object(
                seq![
                    ("type"@, JsonModel::Text("list"@)),
                    ("values"@, JsonModel::Array(Seq::new(items.len(), |i: int| item_doc(items[i])))),
                ],
            ),
        ),
        DataModel::OneConsumerChannel(_) => Some(kind_doc("one_consumer_channel"@)),
        DataModel::Float(_) => None,
    }
}

/// What the processor accepts: a document, an integer, a text, or a list of
/// integers and texts.
pub open spec fn wildcard_input_type() -> TypeModel {
    TypeModel::Union(
        seq![
            TypeModel::Json,
            TypeModel::Integer,
            TypeModel::Text,
            TypeModel::List(Box::new(TypeModel::Union(seq![TypeModel::Integer, TypeModel::Text]))),
        ],
    )
}

/// The document `{"type": kind}`.
fn kind_only(kind: &str) -> (res: Json)
    ensures
        res@ == kind_doc(kind@),
{
    let mut members: Vec<(String, Json)> = Vec::new();
    members.push(("type".to_owned(), Json::Text(kind.to_owned())));
    let res = Json::Object(members);
    assert(res@->Object_0 =~= kind_doc(kind@)->Object_0) by {
        reveal_with_fuel(Json::model, 2);
    }
    res
}

/// The document `{"type": kind, "value": value}`.
fn kind_and_value(kind: &str, value: Json) -> (res: Json)
    ensures
        res@ == kind_value_doc(kind@, value@),
{
    let mut members: Vec<(String, Json)> = Vec::new();
    members.push(("type".to_owned(), Json::Text(kind.to_owned())));
    members.push(("value".to_owned(), value));
    let res = Json::Object(members);
    assert(res@->Object_0 =~= kind_value_doc(kind@, value@)->Object_0) by {
        reveal_with_fuel(Json::model, 2);
    }
    res
}

/// An integer as a number of a document.
fn number_of(i: i32) -> (res: Json)
    ensures
        res@ == JsonModel::Number(int_number(i)),
{
    if i >= 0 {
        Json::Number(JsonNumber::PosInt(i as u64))
    } else {
        Json::Number(JsonNumber::NegInt(i as i64))
    }
}

/// What stands for an item of a list.
fn describe_item(item: &Data) -> (res: Json)
    ensures
        res@ == item_doc(item@),
{
    match item {
        Data::Integer(i) => kind_and_value("integer", number_of(*i)),
        Data::Text(t) => kind_and_value("text", Json::Text(t.clone())),
        _ => kind_only("unknown"),
    }
}

impl Component for FlexibleWildcardProcessor {
    fn configure(config: Json) -> Self {
        FlexibleWildcardProcessor
    }

    /// Makes the document of the input. A float is refused, as a value of a
    /// type that the processor does not accept.
    fn execute(&self, input: Data) -> (res: Result<Data, DAGError>)
        ensures
            match wildcard_doc(input@) {
                Some(doc) => res matches Ok(out) && out@ == DataModel::Json(doc),
                None => res matches Err(
                    DAGError::TypeSystemFailure { component, expected, received },
                ) && component@ == "FlexibleWildcardProcessor"@ && expected@
                    == wildcard_input_type() && received@ == type_of(input@),
            },
    {
        let doc = match &input {
            Data::Null => kind_only("null"),
            Data::Json(value) => value.duplicate(),
            Data::Integer(_) => describe_item(&input),
            Data::Text(_) => describe_item(&input),
            Data::List(list) => {
                let mut values: Vec<Json> = Vec::new();
                let mut i: usize = 0;
                while i < list.len()
                    invariant
                        i <= list.len(),
                        values@.len() == i,
                        forall|j: int| 0 <= j < i ==> values@[j]@ == item_doc(list@[j]@),
                    decreases list.len() - i,
                {
                    values.push(describe_item(&list[i]));
                    i = i + 1;
                }
                let items = Json::Array(values);
                assert(items@->Array_0 =~= Seq::new(
                    input@->List_0.len(),
                    |i: int| item_doc(input@->List_0[i]),
                )) by {
                    assert forall|j: int| 0 <= j < list@.len() implies input@->List_0[j]
                        == list@[j]@ by {}
                }
                let mut members: Vec<(String, Json)> = Vec::new();
                members.push(("type".to_owned(), Json::Text("list".to_owned())));
                members.push(("values".to_owned(), items));
                let res = Json::Object(members);
                assert(res@->Object_0 =~= wildcard_doc(input@)->Some_0->Object_0) by {
                    reveal_with_fuel(Json::model, 2);
                }
                res
            },
            Data::OneConsumerChannel(_) => kind_only("one_consumer_channel"),
            Data::Float(_) => {
                return Err(
                    DAGError::TypeSystemFailure {
                        component: "FlexibleWildcardProcessor".to_owned(),
                        expected: self.input_type(),
                        received: input.get_type(),
                    },
                );
            },
        };
        Ok(Data::Json(doc))
    }

    fn input_type(&self) -> (res: DataType)
        ensures
            res@ == wildcard_input_type(),
    {
        let items = DataType::Union(vec![DataType::Integer, DataType::Text]);
        assert(items@->Union_0 =~= seq![TypeModel::Integer, TypeModel::Text]) by {
            reveal_with_fuel(DataType::model, 2);
        }
        let list = DataType::List(Box::new(items));
        let res = DataType::Union(vec![DataType::Json, DataType::Integer, DataType::Text, list]);
        assert(res@->Union_0 =~= wildcard_input_type()->Union_0) by {
            reveal_with_fuel(DataType::model, 2);
        }
        res
    }

    fn output_type(&self) -> (res: DataType)
        ensures
            res@ == TypeModel::Json,
    {
        DataType::Json
    }
}

} // verus!
