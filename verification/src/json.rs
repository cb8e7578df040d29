//! Structured documents: the configuration of a component, a pipeline
//! description, a record of the history log.

use vstd::prelude::*;
use vstd::std_specs::cmp::PartialEqSpecImpl;
use crate::canonical::canonical;
use crate::text::same_text;

verus! {

/// A number of a document. A float is held as its IEEE-754 bit pattern.
#[derive(Clone, Copy, Debug, PartialEq, Eq, Structural)]
pub enum JsonNumber {
    PosInt(u64),
    NegInt(i64),
    Float(u64),
}

/// A document.
#[derive(Debug)]
pub enum Json {
    Null,
    Bool(bool),
    Number(JsonNumber),
    Text(String),
    Array(Vec<Json>),
    /// The members in the order in which they are kept.
    Object(Vec<(String, Json)>),
}

/// The mathematical form of a [`Json`] document.
pub enum JsonModel {
    Null,
    Bool(bool),
    Number(JsonNumber),
    Text(Seq<char>),
    Array(Seq<JsonModel>),
    Object(Seq<(Seq<char>, JsonModel)>),
}

impl Json {
    /// The document as a mathematical value.
    pub open spec fn model(&self) -> JsonModel
        decreases self,
    {
        match self {
            Json::Null => JsonModel::Null,
            Json::Bool(b) => JsonModel::Bool(*b),
            Json::Number(n) => JsonModel::Number(*n),
            Json::Text(s) => JsonModel::Text(s@),
            Json::Array(items) => JsonModel::Array(
                Seq::new(
                    items@.len(),
                    |i: int|
                        if 0 <= i < items@.len() {
                            items@[i].model()
                        } else {
                            JsonModel::Null
                        },
                ),
            ),
            Json::Object(members) => JsonModel::Object(
                Seq::new(
                    members@.len(),
                    |i: int|
                        if 0 <= i < members@.len() {
                            (members@[i].0@, members@[i].1.model())
                        } else {
                            (Seq::empty(), JsonModel::Null)
                        },
                ),
            ),
        }
    }
}

impl View for Json {
    type V = JsonModel;

    open spec fn view(&self) -> JsonModel {
        self.model()
    }
}

/// The value of the first member called `key`, if `doc` is an object that
/// has one.
pub open spec fn member(doc: JsonModel, key: Seq<char>) -> Option<JsonModel> {
    match doc {
        JsonModel::Object(members) => member_from(members, key, 0),
        _ => None,
    }
}

/// The value of the first member called `key` at or after position `from`.
pub open spec fn member_from(
    members: Seq<(Seq<char>, JsonModel)>,
    key: Seq<char>,
    from: int,
) -> Option<JsonModel>
    decreases members.len() - from,
{
    if from < 0 || from >= members.len() {
        None
    } else if members[from].0 == key {
        Some(members[from].1)
    } else {
        member_from(members, key, from + 1)
    }
}

impl Json {
    /// Whether two documents are the same, member by member and in the
    /// order of the members.
    pub fn same_as(&self, other: &Json) -> (res: bool)
        ensures
            res == (self@ == other@),
        decreases self,
    {
        match (self, other) {
            (Json::Null, Json::Null) => true,
            (Json::Bool(a), Json::Bool(b)) => *a == *b,
            (Json::Number(a), Json::Number(b)) => *a == *b,
            (Json::Text(a), Json::Text(b)) => same_text(a.as_str(), b.as_str()),
            (Json::Array(xs), Json::Array(ys)) => {
                if xs.len() != ys.len() {
                    assert(self@->Array_0.len() == xs@.len());
                    assert(other@->Array_0.len() == ys@.len());
                    return false;
                }
                let mut i: usize = 0;
                while i < xs.len()
                    invariant
                        i <= xs.len(),
                        xs.len() == ys.len(),
                        self == Json::Array(*xs),
                        other == Json::Array(*ys),
                        forall|j: int| 0 <= j < i ==> xs@[j]@ == ys@[j]@,
                    decreases xs.len() - i,
                {
                    if !xs[i].same_as(&ys[i]) {
                        assert(self@->Array_0[i as int] == xs@[i as int]@);
                        assert(other@->Array_0[i as int] == ys@[i as int]@);
                        return false;
                    }
                    i = i + 1;
                }
                assert(self@->Array_0 =~= other@->Array_0);
                true
            },
            (Json::Object(xs), Json::Object(ys)) => {
                if xs.len() != ys.len() {
                    assert(self@->Object_0.len() == xs@.len());
                    assert(other@->Object_0.len() == ys@.len());
                    return false;
                }
                let mut i: usize = 0;
                while i < xs.len()
                    invariant
                        i <= xs.len(),
                        xs.len() == ys.len(),
                        self == Json::Object(*xs),
                        other == Json::Object(*ys),
                        forall|j: int|
                            0 <= j < i ==> xs@[j].0@ == ys@[j].0@ && xs@[j].1@ == ys@[j].1@,
                    decreases xs.len() - i,
                {
                    let same = same_text(xs[i].0.as_str(), ys[i].0.as_str()) && xs[i].1.same_as(
                        &ys[i].1,
                    );
                    if !same {
                        assert(self@->Object_0[i as int] == (xs@[i as int].0@, xs@[i as int].1@));
                        assert(other@->Object_0[i as int] == (ys@[i as int].0@, ys@[i as int].1@));
                        return false;
                    }
                    i = i + 1;
                }
                assert(self@->Object_0 =~= other@->Object_0);
                true
            },
            _ => false,
        }
    }

    /// A copy of the document.
    pub fn duplicate(&self) -> (res: Json)
        ensures
            res@ == self@,
        decreases self,
    {
        match self {
            Json::Null => Json::Null,
            Json::Bool(b) => Json::Bool(*b),
            Json::Number(n) => Json::Number(*n),
            Json::Text(s) => Json::Text(s.clone()),
            Json::Array(items) => {
                let mut copy: Vec<Json> = Vec::new();
                let mut i: usize = 0;
                while i < items.len()
                    invariant
                        i <= items.len(),
                        self == Json::Array(*items),
                        copy@.len() == i,
                        forall|j: int| 0 <= j < i ==> copy@[j]@ == items@[j]@,
                    decreases items.len() - i,
                {
                    assert(self->Array_0 == *items);
                    let item = items[i].duplicate();
                    copy.push(item);
                    i = i + 1;
                }
                let res = Json::Array(copy);
                assert(res@->Array_0 =~= self@->Array_0);
                res
            },
            Json::Object(members) => {
                let mut copy: Vec<(String, Json)> = Vec::new();
                let mut i: usize = 0;
                while i < members.len()
                    invariant
                        i <= members.len(),
                        self == Json::Object(*members),
                        copy@.len() == i,
                        forall|j: int|
                            0 <= j < i ==> copy@[j].0@ == members@[j].0@ && copy@[j].1@
                                == members@[j].1@,
                    decreases members.len() - i,
                {
                    assert(self->Object_0 == *members);
                    let value = members[i].1.duplicate();
                    copy.push((members[i].0.clone(), value));
                    i = i + 1;
                }
                let res = Json::Object(copy);
                assert(res@->Object_0 =~= self@->Object_0);
                res
            },
        }
    }

    /// The value of the first member called `key`, where this is an object
    /// that has one.
    pub fn get(&self, key: &str) -> (res: Option<&Json>)
        ensures
            res matches Some(value) ==> member(self@, key@) == Some(value@),
            res is None <==> member(self@, key@) is None,
    {
        match self {
            Json::Object(members) => {
                let mut i: usize = 0;
                while i < members.len()
                    invariant
                        i <= members.len(),
                        self == Json::Object(*members),
                        member(self@, key@) == member_from(self@->Object_0, key@, i as int),
                    decreases members.len() - i,
                {
                    assert(self@->Object_0[i as int] == (
                        members@[i as int].0@,
                        members@[i as int].1@,
                    ));
                    if same_text(members[i].0.as_str(), key) {
                        return Some(&members[i].1);
                    }
                    i = i + 1;
                }
                None
            },
            _ => None,
        }
    }
}

/// `serde_json::Value`: a document as `serde_json` holds it. It is carried
/// through; nothing is seen of what it holds.
#[verifier::external_type_specification]
#[verifier::external_body]
pub struct ExValue(serde_json::Value);

/// `serde_json::Number`: a number as `serde_json` holds it. It is carried
/// through; nothing is seen of what it holds.
#[verifier::external_type_specification]
#[verifier::external_body]
pub struct ExNumber(serde_json::Number);

/// The document that `serde_json` reads from a text; `None` where the text
/// is no document.
pub uninterp spec fn parsed(text: Seq<char>) -> Option<JsonModel>;

/// `serde_json::from_str`, for a `serde_json::Value`: reads a text as a
/// document. What it reads depends on the text alone. The members of an
/// object come in the order of the text.
#[verifier::external_body]
pub(crate) fn parse(text: &str) -> (res: Option<Json>)
    ensures
        match res {
            Some(doc) => parsed(text@) == Some(doc@),
            None => parsed(text@) is None,
        },
{
    match serde_json::from_str::<serde_json::Value>(text) {
        Ok(value) => Some(from_value(&value)),
        Err(_) => None,
    }
}

/// A `serde_json::Value` as a document, case by case.
#[verifier::external_body]
fn from_value(value: &serde_json::Value) -> Json {
    match value {
        serde_json::Value::Null => Json::Null,
        serde_json::Value::Bool(b) => Json::Bool(*b),
        serde_json::Value::Number(n) => Json::Number(from_number(n)),
        serde_json::Value::String(s) => Json::Text(s.clone()),
        serde_json::Value::Array(items) => Json::Array(items.iter().map(from_value).collect()),
        serde_json::Value::Object(members) => Json::Object(
            members.iter().map(|(key, value)| (key.clone(), from_value(value))).collect(),
        ),
    }
}

/// A `serde_json::Number` as a number of a document: what `as_u64` gives,
/// else what `as_i64` gives, else the bits of what `as_f64` gives.
#[verifier::external_body]
fn from_number(n: &serde_json::Number) -> JsonNumber {
    if let Some(v) = n.as_u64() {
        JsonNumber::PosInt(v)
    } else if let Some(v) = n.as_i64() {
        JsonNumber::NegInt(v)
    } else {
        JsonNumber::Float(n.as_f64().map_or(0, |v| v.to_bits()))
    }
}

/// The bits of the float that `serde_json` makes of an integer that is not
/// negative.
pub uninterp spec fn float_of_unsigned(v: u64) -> u64;

/// The bits of the float that `serde_json` makes of an integer.
pub uninterp spec fn float_of_signed(v: i64) -> u64;

/// `serde_json::Number::from` and `Number::as_f64`: the integer as a float,
/// by its bits.
#[verifier::external_body]
pub(crate) fn unsigned_as_float(v: u64) -> (bits: u64)
    ensures
        bits == float_of_unsigned(v),
{
    serde_json::Number::from(v).as_f64().map_or(0, |x| x.to_bits())
}

/// `serde_json::Number::from` and `Number::as_f64`: the integer as a float,
/// by its bits.
#[verifier::external_body]
pub(crate) fn signed_as_float(v: i64) -> (bits: u64)
    ensures
        bits == float_of_signed(v),
{
    serde_json::Number::from(v).as_f64().map_or(0, |x| x.to_bits())
}

impl Json {
    /// The document that a text holds. `None` where it holds none.
    pub fn from_text(text: &str) -> (res: Option<Json>)
        ensures
            match res {
                Some(doc) => parsed(text@) == Some(doc@),
                None => parsed(text@) is None,
            },
    {
        parse(text)
    }
}

impl Clone for Json {
    fn clone(&self) -> (res: Self)
        ensures
            res@ == self@,
    {
        self.duplicate()
    }
}

impl Json {
    /// Whether two documents are equal: whether they are the same but for
    /// the order of the members of their objects.
    pub fn equals(&self, other: &Json) -> (res: bool)
        ensures
            res == (canonical(self@) == canonical(other@)),
    {
        let a = self.canonical();
        let b = other.canonical();
        a.same_as(&b)
    }
}

impl PartialEq for Json {
    fn eq(&self, other: &Json) -> (res: bool) {
        self.equals(other)
    }
}

impl PartialEqSpecImpl for Json {
    open spec fn obeys_eq_spec() -> bool {
        true
    }

    open spec fn eq_spec(&self, other: &Json) -> bool {
        canonical(self@) == canonical(other@)
    }
}

} // verus!
