//! The text of a document, as `serde_json` writes it, for fingerprints.
//!
//! A float cannot be handed to the writer from here. So the text is that of
//! the plain form of the document, in which a float stands as an object
//! with the one member `Float` and the number of its bits.

use vstd::prelude::*;
use crate::canonical::canonical;
use crate::json::{Json, JsonModel, JsonNumber};

verus! {

/// A document without floats.
#[derive(Debug)]
pub enum Plain {
    Null,
    Bool(bool),
    PosInt(u64),
    NegInt(i64),
    Text(String),
    Array(Vec<Plain>),
    Object(Vec<(String, Plain)>),
}

/// The mathematical form of a [`Plain`] document.
pub enum PlainModel {
    Null,
    Bool(bool),
    PosInt(u64),
    NegInt(i64),
    Text(Seq<char>),
    Array(Seq<PlainModel>),
    Object(Seq<(Seq<char>, PlainModel)>),
}

impl Plain {
    /// The document as a mathematical value.
    pub open spec fn model(&self) -> PlainModel
        decreases self,
    {
        match self {
            Plain::Null => PlainModel::Null,
            Plain::Bool(b) => PlainModel::Bool(*b),
            Plain::PosInt(v) => PlainModel::PosInt(*v),
            Plain::NegInt(v) => PlainModel::NegInt(*v),
            Plain::Text(s) => PlainModel::Text(s@),
            Plain::Array(items) => PlainModel::Array(
                Seq::new(
                    items@.len(),
                    |i: int|
                        if 0 <= i < items@.len() {
                            items@[i].model()
                        } else {
                            PlainModel::Null
                        },
                ),
            ),
            Plain::Object(members) => PlainModel::Object(
                Seq::new(
                    members@.len(),
                    |i: int|
                        if 0 <= i < members@.len() {
                            (members@[i].0@, members@[i].1.model())
                        } else {
                            (Seq::empty(), PlainModel::Null)
                        },
                ),
            ),
        }
    }
}

impl View for Plain {
    type V = PlainModel;

    open spec fn view(&self) -> PlainModel {
        self.model()
    }
}

/// The plain form of a document: the document itself, but that a float
/// stands as an object with the one member `Float` and the number of its
/// bits.
pub open spec fn plain_of(doc: JsonModel) -> PlainModel
    decreases doc,
{
    match doc {
        JsonModel::Null => PlainModel::Null,
        JsonModel::Bool(b) => PlainModel::Bool(b),
        JsonModel::Number(JsonNumber::PosInt(v)) => PlainModel::PosInt(v),
        JsonModel::Number(JsonNumber::NegInt(v)) => PlainModel::NegInt(v),
        JsonModel::Number(JsonNumber::Float(bits)) => PlainModel::Object(
            seq![("Float"@, PlainModel::PosInt(bits))],
        ),
        JsonModel::Text(s) => PlainModel::Text(s),
        JsonModel::Array(items) => PlainModel::Array(
            Seq::new(
                items.len(),
                |i: int|
                    if 0 <= i < items.len() {
                        plain_of(items[i])
                    } else {
                        PlainModel::Null
                    },
            ),
        ),
        JsonModel::Object(members) => PlainModel::Object(
            Seq::new(
                members.len(),
                |i: int|
                    if 0 <= i < members.len() {
                        (members[i].0, plain_of(members[i].1))
                    } else {
                        (Seq::empty(), PlainModel::Null)
                    },
            ),
        ),
    }
}

/// The text that `serde_json` writes for a document.
pub uninterp spec fn written(doc: PlainModel) -> Seq<char>;

/// The text of a document in a fingerprint: what `serde_json` writes for the
/// plain form of its canonical form.
pub open spec fn canonical_text(doc: JsonModel) -> Seq<char> {
    written(plain_of(canonical(doc)))
}

/// `serde_json::Value::to_string`: the text of a document, written without
/// spaces, the members of an object in their order. The text depends on the
/// document alone.
#[verifier::external_body]
pub(crate) fn write(doc: &Plain) -> (res: String)
    ensures
        res@ == written(doc@),
{
    plain_value(doc).to_string()
}

/// A document as a `serde_json::Value`, case by case.
#[verifier::external_body]
fn plain_value(doc: &Plain) -> serde_json::Value {
    match doc {
        Plain::Null => serde_json::Value::Null,
        Plain::Bool(b) => serde_json::Value::Bool(*b),
        Plain::PosInt(v) => serde_json::Value::from(*v),
        Plain::NegInt(v) => serde_json::Value::from(*v),
        Plain::Text(s) => serde_json::Value::String(s.clone()),
        Plain::Array(items) => serde_json::Value::Array(items.iter().map(plain_value).collect()),
        Plain::Object(members) => serde_json::Value::Object(
            members.iter().map(|(key, value)| (key.clone(), plain_value(value))).collect(),
        ),
    }
}

impl Json {
    /// The plain form of the document.
    pub fn plain(&self) -> (res: Plain)
        ensures
            res@ == plain_of(self@),
        decreases self,
    {
        match self {
            Json::Null => Plain::Null,
            Json::Bool(b) => Plain::Bool(*b),
            Json::Number(JsonNumber::PosInt(v)) => Plain::PosInt(*v),
            Json::Number(JsonNumber::NegInt(v)) => Plain::NegInt(*v),
            Json::Number(JsonNumber::Float(bits)) => {
                let mut members: Vec<(String, Plain)> = Vec::new();
                members.push(("Float".to_owned(), Plain::PosInt(*bits)));
                let res = Plain::Object(members);
                assert(res@->Object_0 =~= seq![("Float"@, PlainModel::PosInt(*bits))]) by {
                    reveal_with_fuel(Plain::model, 2);
                }
                res
            },
            Json::Text(s) => Plain::Text(s.clone()),
            Json::Array(items) => {
                let mut copy: Vec<Plain> = Vec::new();
                let mut i: usize = 0;
                while i < items.len()
                    invariant
                        i <= items.len(),
                        self == Json::Array(*items),
                        copy@.len() == i,
                        forall|j: int| 0 <= j < i ==> copy@[j]@ == plain_of(items@[j]@),
                    decreases items.len() - i,
                {
                    assert(self->Array_0 == *items);
                    let item = items[i].plain();
                    copy.push(item);
                    i = i + 1;
                }
                let res = Plain::Array(copy);
                assert(res@->Array_0 =~= plain_of(self@)->Array_0) by {
                    assert forall|j: int| 0 <= j < items@.len() implies self@->Array_0[j]
                        == items@[j]@ by {}
                }
                res
            },
            Json::Object(members) => {
                let mut copy: Vec<(String, Plain)> = Vec::new();
                let mut i: usize = 0;
                while i < members.len()
                    invariant
                        i <= members.len(),
                        self == Json::Object(*members),
                        copy@.len() == i,
                        forall|j: int|
                            0 <= j < i ==> copy@[j].0@ == members@[j].0@ && copy@[j].1@
                                == plain_of(members@[j].1@),
                    decreases members.len() - i,
                {
                    assert(self->Object_0 == *members);
                    let value = members[i].1.plain();
                    copy.push((members[i].0.clone(), value));
                    i = i + 1;
                }
                let res = Plain::Object(copy);
                assert(res@->Object_0 =~= plain_of(self@)->Object_0) by {
                    assert forall|j: int| 0 <= j < members@.len() implies self@->Object_0[j] == (
                        members@[j].0@,
                        members@[j].1@,
                    ) by {}
                }
                res
            },
        }
    }

    /// The text of the document in a fingerprint.
    pub fn canonical_text(&self) -> (res: String)
        ensures
            res@ == canonical_text(self@),
    {
        let ordered = self.canonical();
        let plain = ordered.plain();
        write(&plain)
    }
}

} // verus!
