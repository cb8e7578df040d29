//! What a value feeds to a hasher. Two values that are written alike get the
//! same fingerprint.

use vstd::prelude::*;
use vstd::bytes::*;
use vstd::string::*;
use vstd::utf8::*;
use std::collections::hash_map::DefaultHasher;
use std::hash::Hasher;
use crate::data::{equal_values, Data, DataModel};
use crate::written::canonical_text;

verus! {

/// A string is written as its UTF-8 bytes and one closing byte.
pub open spec fn text_chunks(s: Seq<char>) -> Seq<Seq<u8>> {
    seq![encode_utf8(s), seq![0xffu8]]
}

/// What a value writes: the name of its case, then its content. A list
/// writes its items one after the other, a document the text of its
/// canonical form, a channel nothing but its name.
pub open spec fn data_chunks(d: DataModel) -> Seq<Seq<u8>>
    decreases d,
{
    match d {
        DataModel::Null => text_chunks("Null"@),
        DataModel::Integer(v) => text_chunks("Integer"@) + seq![spec_u32_to_le_bytes(v as u32)],
        DataModel::Float(bits) => text_chunks("Float"@) + seq![spec_u64_to_le_bytes(bits)],
        DataModel::Text(s) => text_chunks("Text"@) + text_chunks(s),
        DataModel::List(items) => text_chunks("List"@) + list_chunks(items, items.len()),
        DataModel::Json(doc) => text_chunks("Json"@) + text_chunks(canonical_text(doc)),
        DataModel::OneConsumerChannel(_) => text_chunks("OneConsumerChannel"@),
    }
}

/// What the first `n` items of a list write.
pub open spec fn list_chunks(items: Seq<DataModel>, n: nat) -> Seq<Seq<u8>>
    decreases items, n,
{
    if n == 0 || n > items.len() {
        Seq::empty()
    } else {
        list_chunks(items, (n - 1) as nat) + data_chunks(items[n - 1])
    }
}

/// Values that are equal write the same.
pub proof fn lemma_equal_values_write_the_same(a: DataModel, b: DataModel)
    requires
        equal_values(a, b),
    ensures
        data_chunks(a) == data_chunks(b),
    decreases a,
{
    match (a, b) {
        (DataModel::List(xs), DataModel::List(ys)) => {
            lemma_equal_lists_write_the_same(xs, ys, xs.len());
        },
        _ => {},
    }
}

/// Lists of equal values write the same.
proof fn lemma_equal_lists_write_the_same(xs: Seq<DataModel>, ys: Seq<DataModel>, n: nat)
    requires
        xs.len() == ys.len(),
        n <= xs.len(),
        forall|i: int| 0 <= i < xs.len() ==> equal_values(#[trigger] xs[i], ys[i]),
    ensures
        list_chunks(xs, n) == list_chunks(ys, n),
    decreases xs, n,
{
    if n > 0 {
        lemma_equal_lists_write_the_same(xs, ys, (n - 1) as nat);
        lemma_equal_values_write_the_same(xs[n - 1], ys[n - 1]);
    }
}

/// Writes a string to the hasher.
pub fn write_text(state: &mut DefaultHasher, s: &str)
    ensures
        final(state)@ == old(state)@ + text_chunks(s@),
{
    state.write(s.as_bytes());
    let close: [u8; 1] = [0xffu8];
    state.write(close.as_slice());
    assert(close@ =~= seq![0xffu8]);
    assert(state@ =~= old(state)@ + text_chunks(s@));
}

/// Writes the eight bytes of a number to the hasher.
pub fn write_u64(state: &mut DefaultHasher, v: u64)
    ensures
        final(state)@ == old(state)@ + seq![spec_u64_to_le_bytes(v)],
{
    let bytes = u64_to_le_bytes(v);
    state.write(bytes.as_slice());
    assert(state@ =~= old(state)@ + seq![spec_u64_to_le_bytes(v)]);
}

impl Data {
    /// Writes the value to the hasher: the name of its case, then its
    /// content.
    pub fn hash(&self, state: &mut DefaultHasher)
        ensures
            final(state)@ == old(state)@ + data_chunks(self@),
        decreases self,
    {
        match self {
            Data::Null => {
                write_text(state, "Null");
            },
            Data::Integer(v) => {
                write_text(state, "Integer");
                let bytes = u32_to_le_bytes(*v as u32);
                state.write(bytes.as_slice());
                assert(state@ =~= old(state)@ + data_chunks(self@));
            },
            Data::Float(bits) => {
                write_text(state, "Float");
                write_u64(state, *bits);
                assert(state@ =~= old(state)@ + data_chunks(self@));
            },
            Data::Text(s) => {
                write_text(state, "Text");
                write_text(state, s.as_str());
                assert(state@ =~= old(state)@ + data_chunks(self@));
            },
            Data::List(items) => {
                write_text(state, "List");
                let ghost start = state@;
                assert(self@->List_0.len() == items@.len());
                let mut i: usize = 0;
                while i < items.len()
                    invariant
                        i <= items.len(),
                        self == Data::List(*items),
                        state@ == start + list_chunks(self@->List_0, i as nat),
                    decreases items.len() - i,
                {
                    assert(self->List_0 == *items);
                    assert(self@->List_0[i as int] == items@[i as int]@);
                    items[i].hash(state);
                    i = i + 1;
                    assert(state@ =~= start + list_chunks(self@->List_0, i as nat));
                }
                assert(state@ =~= old(state)@ + data_chunks(self@));
            },
            Data::Json(doc) => {
                write_text(state, "Json");
                let text = doc.canonical_text();
                write_text(state, text.as_str());
                assert(state@ =~= old(state)@ + data_chunks(self@));
            },
            Data::OneConsumerChannel(_) => {
                write_text(state, "OneConsumerChannel");
            },
        }
    }
}

} // verus!
