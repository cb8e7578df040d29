//! How a value is written in a record of the history log, and read back.
//!
//! `Null` and a channel are written as the name of the case, a string. Every
//! other value is an object with one member: the name of the case and the
//! content.

use vstd::prelude::*;
use crate::data::{ChannelState, Data, DataModel};
use crate::json::{
    float_of_signed, float_of_unsigned, signed_as_float, unsigned_as_float, Json, JsonModel,
    JsonNumber,
};
use crate::text::same_text;

verus! {

/// Whether the bits are those of a finite float: neither an infinity nor a
/// NaN.
pub open spec fn finite(bits: u64) -> bool {
    (bits >> 52) & 0x7ff != 0x7ff
}

/// An integer as a number of a document.
pub open spec fn int_number(v: i32) -> JsonNumber {
    if v >= 0 {
        JsonNumber::PosInt(v as u64)
    } else {
        JsonNumber::NegInt(v as i64)
    }
}

/// The 32-bit integer that a number of a document holds, if it holds one.
pub open spec fn number_int(n: JsonNumber) -> Option<i32> {
    match n {
        JsonNumber::PosInt(u) => if u <= i32::MAX {
            Some(u as i32)
        } else {
            None
        },
        JsonNumber::NegInt(i) => if i32::MIN <= i <= i32::MAX {
            Some(i as i32)
        } else {
            None
        },
        JsonNumber::Float(_) => None,
    }
}

/// An object with the one member `tag`.
pub open spec fn tagged(tag: Seq<char>, content: JsonModel) -> JsonModel {
    JsonModel::Object(seq![(tag, content)])
}

/// The written form of a value. A float that is not finite is written as
/// `null`, a channel without what it carries.
pub open spec fn encode(d: DataModel) -> JsonModel
    decreases d,
{
    match d {
        DataModel::Null => JsonModel::Text("Null"@),
        DataModel::Integer(v) => tagged("Integer"@, JsonModel::Number(int_number(v))),
        DataModel::Float(bits) => tagged(
            "Float"@,
            if finite(bits) {
                JsonModel::Number(JsonNumber::Float(bits))
            } else {
                JsonModel::Null
            },
        ),
        DataModel::Text(s) => tagged("Text"@, JsonModel::Text(s)),
        DataModel::List(items) => tagged(
            "List"@,
            JsonModel::Array(
                Seq::new(
                    items.len(),
                    |i: int|
                        if 0 <= i < items.len() {
                            encode(items[i])
                        } else {
                            JsonModel::Null
                        },
                ),
            ),
        ),
        DataModel::Json(doc) => tagged("Json"@, doc),
        DataModel::OneConsumerChannel(_) => JsonModel::Text("OneConsumerChannel"@),
    }
}

/// The value that a document is the written form of, if it is one. A channel
/// comes back consumed. An integer under `Float` is read as the float that
/// `serde_json` makes of it.
pub open spec fn decode(doc: JsonModel) -> Option<DataModel>
    decreases doc,
{
    match doc {
        JsonModel::Text(s) => if s == "Null"@ {
            Some(DataModel::Null)
        } else if s == "OneConsumerChannel"@ {
            Some(DataModel::OneConsumerChannel(ChannelState::Consumed))
        } else {
            None
        },
        JsonModel::Object(members) => if members.len() == 1 {
            decode_tagged(members[0].0, members[0].1)
        } else {
            None
        },
        _ => None,
    }
}

/// The value with the case `tag` and the written content `content`.
pub open spec fn decode_tagged(tag: Seq<char>, content: JsonModel) -> Option<DataModel>
    decreases content,
{
    if tag == "Integer"@ {
        match content {
            JsonModel::Number(n) => match number_int(n) {
                Some(v) => Some(DataModel::Integer(v)),
                None => None,
            },
            _ => None,
        }
    } else if tag == "Float"@ {
        match content {
            JsonModel::Number(JsonNumber::Float(bits)) => Some(DataModel::Float(bits)),
            JsonModel::Number(JsonNumber::PosInt(v)) => Some(
                DataModel::Float(float_of_unsigned(v)),
            ),
            JsonModel::Number(JsonNumber::NegInt(v)) => Some(DataModel::Float(float_of_signed(v))),
            _ => None,
        }
    } else if tag == "Text"@ {
        match content {
            JsonModel::Text(s) => Some(DataModel::Text(s)),
            _ => None,
        }
    } else if tag == "List"@ {
        match content {
            JsonModel::Array(items) => if forall|i: int|
                0 <= i < items.len() ==> decode(#[trigger] items[i]) is Some {
                Some(
                    DataModel::List(
                        Seq::new(
                            items.len(),
                            |i: int|
                                if 0 <= i < items.len() {
                                    decode(items[i])->Some_0
                                } else {
                                    DataModel::Null
                                },
                        ),
                    ),
                )
            } else {
                None
            },
            _ => None,
        }
    } else if tag == "Json"@ {
        Some(DataModel::Json(content))
    } else {
        None
    }
}

/// Whether every float in the value is finite.
pub open spec fn storable(d: DataModel) -> bool
    decreases d,
{
    match d {
        DataModel::Float(bits) => finite(bits),
        DataModel::List(items) => forall|i: int| 0 <= i < items.len() ==> storable(#[trigger] items[i]),
        _ => true,
    }
}

/// The value with every channel in it consumed.
pub open spec fn settled(d: DataModel) -> DataModel
    decreases d,
{
    match d {
        DataModel::List(items) => DataModel::List(
            Seq::new(
                items.len(),
                |i: int|
                    if 0 <= i < items.len() {
                        settled(items[i])
                    } else {
                        DataModel::Null
                    },
            ),
        ),
        DataModel::OneConsumerChannel(_) => DataModel::OneConsumerChannel(ChannelState::Consumed),
        _ => d,
    }
}

/// Tells the names of the cases apart.
pub proof fn lemma_case_names()
    ensures
        "Null"@ != "OneConsumerChannel"@,
        "Integer"@ != "Float"@,
        "Integer"@ != "Text"@,
        "Integer"@ != "List"@,
        "Integer"@ != "Json"@,
        "Float"@ != "Text"@,
        "Float"@ != "List"@,
        "Float"@ != "Json"@,
        "Text"@ != "List"@,
        "Text"@ != "Json"@,
        "List"@ != "Json"@,
{
    reveal_strlit("Null");
    reveal_strlit("OneConsumerChannel");
    reveal_strlit("Integer");
    reveal_strlit("Float");
    reveal_strlit("Text");
    reveal_strlit("List");
    reveal_strlit("Json");
    assert("Null"@.len() == 4 && "OneConsumerChannel"@.len() == 18);
    assert("Integer"@.len() == 7 && "Float"@.len() == 5);
    assert("Text"@.len() == 4 && "List"@.len() == 4 && "Json"@.len() == 4);
    assert("Text"@[0] != "List"@[0]);
    assert("Text"@[0] != "Json"@[0]);
    assert("List"@[0] != "Json"@[0]);
}

/// A value whose floats are finite is read back from its written form as it
/// was, but that its channels come back consumed.
pub proof fn lemma_decode_encode(d: DataModel)
    requires
        storable(d),
    ensures
        decode(encode(d)) == Some(settled(d)),
    decreases d,
{
    lemma_case_names();
    match d {
        DataModel::List(items) => {
            let written = encode(d)->Object_0[0].1->Array_0;
            assert(written.len() == items.len());
            assert forall|i: int| 0 <= i < written.len() implies decode(#[trigger] written[i])
                == Some(settled(items[i])) by {
                lemma_decode_encode(items[i]);
            }
            assert(decode(encode(d))->Some_0->List_0 =~= settled(d)->List_0);
        },
        DataModel::Integer(v) => {
            assert(number_int(int_number(v)) == Some(v));
        },
        _ => {},
    }
}

/// An object with the one member `tag`.
fn tag_with(tag: &str, content: Json) -> (res: Json)
    ensures
        res@ == tagged(tag@, content@),
{
    let mut members: Vec<(String, Json)> = Vec::new();
    members.push((tag.to_owned(), content));
    let res = Json::Object(members);
    assert(res@->Object_0 =~= seq![(tag@, content@)]);
    res
}

impl Data {
    /// Whether every float in the value is finite.
    pub fn is_storable(&self) -> (res: bool)
        ensures
            res == storable(self@),
        decreases self,
    {
        match self {
            Data::Float(bits) => (*bits >> 52) & 0x7ff != 0x7ff,
            Data::List(items) => {
                assert(self@->List_0.len() == items@.len());
                let mut i: usize = 0;
                while i < items.len()
                    invariant
                        i <= items.len(),
                        self == Data::List(*items),
                        forall|j: int| 0 <= j < i ==> storable(#[trigger] self@->List_0[j]),
                    decreases items.len() - i,
                {
                    assert(self->List_0 == *items);
                    assert(self@->List_0[i as int] == items@[i as int]@);
                    if !items[i].is_storable() {
                        return false;
                    }
                    i = i + 1;
                }
                true
            },
            _ => true,
        }
    }

    /// The written form of the value.
    pub fn to_json(&self) -> (res: Json)
        ensures
            res@ == encode(self@),
        decreases self,
    {
        match self {
            Data::Null => Json::Text("Null".to_owned()),
            Data::Integer(v) => {
                let n = if *v >= 0 {
                    JsonNumber::PosInt(*v as u64)
                } else {
                    JsonNumber::NegInt(*v as i64)
                };
                tag_with("Integer", Json::Number(n))
            },
            Data::Float(bits) => {
                if (*bits >> 52) & 0x7ff != 0x7ff {
                    tag_with("Float", Json::Number(JsonNumber::Float(*bits)))
                } else {
                    tag_with("Float", Json::Null)
                }
            },
            Data::Text(s) => tag_with("Text", Json::Text(s.clone())),
            Data::List(items) => {
                let mut written: Vec<Json> = Vec::new();
                let mut i: usize = 0;
                while i < items.len()
                    invariant
                        i <= items.len(),
                        self == Data::List(*items),
                        written@.len() == i,
                        forall|j: int| 0 <= j < i ==> written@[j]@ == encode(items@[j]@),
                    decreases items.len() - i,
                {
                    assert(self->List_0 == *items);
                    let item = items[i].to_json();
                    written.push(item);
                    i = i + 1;
                }
                let content = Json::Array(written);
                assert(content@->Array_0 =~= encode(self@)->Object_0[0].1->Array_0);
                tag_with("List", content)
            },
            Data::Json(doc) => tag_with("Json", doc.duplicate()),
            Data::OneConsumerChannel(_) => Json::Text("OneConsumerChannel".to_owned()),
        }
    }

    /// The value that the document is the written form of. `None` where it is
    /// the written form of none.
    pub fn from_json(doc: &Json) -> (res: Option<Data>)
        ensures
            res matches Some(d) ==> decode(doc@) == Some(d@),
            res is None <==> decode(doc@) is None,
        decreases doc,
    {
        match doc {
            Json::Text(s) => {
                if same_text(s.as_str(), "Null") {
                    Some(Data::Null)
                } else if same_text(s.as_str(), "OneConsumerChannel") {
                    Some(Data::OneConsumerChannel(ChannelState::Consumed))
                } else {
                    None
                }
            },
            Json::Object(members) => {
                assert(doc@->Object_0.len() == members@.len());
                if members.len() != 1 {
                    return None;
                }
                assert(doc@->Object_0[0] == (members@[0].0@, members@[0].1@));
                Data::from_tagged(members[0].0.as_str(), &members[0].1)
            },
            _ => None,
        }
    }

    /// The value with the case `tag` and the written content `content`.
    fn from_tagged(tag: &str, content: &Json) -> (res: Option<Data>)
        ensures
            res matches Some(d) ==> decode_tagged(tag@, content@) == Some(d@),
            res is None <==> decode_tagged(tag@, content@) is None,
        decreases content,
    {
        if same_text(tag, "Integer") {
            match content {
                Json::Number(JsonNumber::PosInt(u)) => {
                    if *u <= 0x7fff_ffff {
                        Some(Data::Integer(*u as i32))
                    } else {
                        None
                    }
                },
                Json::Number(JsonNumber::NegInt(i)) => {
                    if -0x8000_0000 <= *i && *i <= 0x7fff_ffff {
                        Some(Data::Integer(*i as i32))
                    } else {
                        None
                    }
                },
                _ => None,
            }
        } else if same_text(tag, "Float") {
            match content {
                Json::Number(JsonNumber::Float(bits)) => Some(Data::Float(*bits)),
                Json::Number(JsonNumber::PosInt(v)) => Some(Data::Float(unsigned_as_float(*v))),
                Json::Number(JsonNumber::NegInt(v)) => Some(Data::Float(signed_as_float(*v))),
                _ => None,
            }
        } else if same_text(tag, "Text") {
            match content {
                Json::Text(s) => Some(Data::Text(s.clone())),
                _ => None,
            }
        } else if same_text(tag, "List") {
            match content {
                Json::Array(items) => {
                    assert(content@->Array_0.len() == items@.len());
                    let mut values: Vec<Data> = Vec::new();
                    let mut i: usize = 0;
                    while i < items.len()
                        invariant
                            i <= items.len(),
                            content == Json::Array(*items),
                            tag@ == "List"@,
                            tag@ != "Integer"@,
                            tag@ != "Float"@,
                            tag@ != "Text"@,
                            values@.len() == i,
                            forall|j: int| 0 <= j < i ==> decode(items@[j]@) == Some(values@[j]@),
                        decreases items.len() - i,
                    {
                        assert(content->Array_0 == *items);
                        assert(content@->Array_0[i as int] == items@[i as int]@);
                        match Data::from_json(&items[i]) {
                            Some(value) => {
                                values.push(value);
                            },
                            None => {
                                return None;
                            },
                        }
                        i = i + 1;
                    }
                    assert forall|j: int| 0 <= j < content@->Array_0.len() implies decode(
                        #[trigger] content@->Array_0[j],
                    ) is Some by {
                        assert(content@->Array_0[j] == items@[j]@);
                    }
                    let res = Data::List(values);
                    assert(res@->List_0 =~= decode_tagged(tag@, content@)->Some_0->List_0) by {
                        assert forall|j: int| 0 <= j < items@.len() implies res@->List_0[j]
                            == decode(content@->Array_0[j])->Some_0 by {
                            assert(content@->Array_0[j] == items@[j]@);
                        }
                    }
                    Some(res)
                },
                _ => None,
            }
        } else if same_text(tag, "Json") {
            Some(Data::Json(content.duplicate()))
        } else {
            None
        }
    }
}

} // verus!
