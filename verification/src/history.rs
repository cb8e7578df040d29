//! The records of the history log: one per stored run, each a document with
//! the id of the request, the time and the results of the nodes.

use vstd::prelude::*;
use crate::cache::{DAGResult, RecordModel};
use crate::clock::{read_timestamp, utc_timestamp};
use crate::codec::{decode, encode, lemma_decode_encode, settled, storable};
use crate::data::{Data, DataModel};
use crate::json::{member, member_from, parse, parsed, Json, JsonModel};
use crate::results::{
    distinct_keys, entries, insert_result, inserted, lemma_index_absent, new_results, result_at,
    results_len, ResultMap,
};
use crate::text::same_text;

verus! {

/// The written form of the entries of a result map: a member for each, with
/// the written form of the value.
pub open spec fn results_doc(results: Seq<(Seq<char>, DataModel)>) -> JsonModel {
    JsonModel::Object(Seq::new(results.len(), |i: int| (results[i].0, encode(results[i].1))))
}

/// The written form of a record.
pub open spec fn record_doc(r: RecordModel) -> JsonModel {
    JsonModel::Object(
        seq![
            ("request_id"@, JsonModel::Text(r.request_id)),
            ("timestamp"@, JsonModel::Text(r.timestamp)),
            ("node_results"@, results_doc(r.node_results)),
        ],
    )
}

/// The entries that the first `n` members are the written form of: each
/// member is put under its key, in order. `None` where a member holds the
/// written form of no value.
pub open spec fn decode_results(members: Seq<(Seq<char>, JsonModel)>, n: nat) -> Option<
    Seq<(Seq<char>, DataModel)>,
>
    decreases n,
{
    if n == 0 || n > members.len() {
        Some(Seq::empty())
    } else {
        match (decode_results(members, (n - 1) as nat), decode(members[n - 1].1)) {
            (Some(earlier), Some(value)) => Some(inserted(earlier, members[n - 1].0, value)),
            _ => None,
        }
    }
}

/// The record that a document is the written form of. The document is an
/// object with the id of the request, a text; the time, a text that reads as
/// a point in time; and the results, an object of written values. Other
/// members are passed over.
pub open spec fn decode_record(doc: JsonModel) -> Option<RecordModel> {
    match (member(doc, "request_id"@), member(doc, "timestamp"@), member(doc, "node_results"@)) {
        (
            Some(JsonModel::Text(request_id)),
            Some(JsonModel::Text(time)),
            Some(JsonModel::Object(members)),
        ) => match (utc_timestamp(time), decode_results(members, members.len())) {
            (Some(timestamp), Some(node_results)) => Some(
                RecordModel { request_id, timestamp, node_results },
            ),
            _ => None,
        },
        _ => None,
    }
}

/// The record that a line of the log holds. `None` where the line is no
/// document or the document no record.
pub open spec fn line_record(line: Seq<char>) -> Option<RecordModel> {
    match parsed(line) {
        Some(doc) => decode_record(doc),
        None => None,
    }
}

/// The record of the first line, at or after `from`, that holds a record of
/// the request `request_id`.
pub open spec fn first_match(lines: Seq<Seq<char>>, request_id: Seq<char>, from: int) -> Option<
    RecordModel,
>
    decreases lines.len() - from,
{
    if from < 0 || from >= lines.len() {
        None
    } else {
        match line_record(lines[from]) {
            Some(r) => if r.request_id == request_id {
                Some(r)
            } else {
                first_match(lines, request_id, from + 1)
            },
            None => first_match(lines, request_id, from + 1),
        }
    }
}

/// The texts of the lines.
pub open spec fn texts(lines: Seq<String>) -> Seq<Seq<char>> {
    Seq::new(lines.len(), |i: int| lines[i]@)
}

impl DAGResult {
    /// The written form of the record.
    pub fn to_json(&self) -> (res: Json)
        ensures
            res@ == record_doc(self@),
    {
        let n = results_len(&self.node_results);
        let mut written: Vec<(String, Json)> = Vec::new();
        let mut i: usize = 0;
        while i < n
            invariant
                i <= n,
                n == entries(self.node_results).len(),
                written@.len() == i,
                forall|j: int|
                    0 <= j < i ==> written@[j].0@ == entries(self.node_results)[j].0
                        && written@[j].1@ == encode(entries(self.node_results)[j].1),
            decreases n - i,
        {
            match result_at(&self.node_results, i) {
                Some((key, value)) => {
                    written.push((key.clone(), value.to_json()));
                },
                None => {
                    assert(false);
                },
            }
            i = i + 1;
        }
        let results = Json::Object(written);
        assert(results@->Object_0 =~= results_doc(self@.node_results)->Object_0);
        let mut members: Vec<(String, Json)> = Vec::new();
        members.push(("request_id".to_owned(), Json::Text(self.request_id.clone())));
        members.push(("timestamp".to_owned(), Json::Text(self.timestamp.clone())));
        members.push(("node_results".to_owned(), results));
        let res = Json::Object(members);
        assert(res@->Object_0 =~= record_doc(self@)->Object_0) by {
            reveal_with_fuel(Json::model, 2);
        }
        res
    }

    /// The record that the document is the written form of. `None` where it
    /// is the written form of none.
    pub fn from_json(doc: &Json) -> (res: Option<DAGResult>)
        ensures
            match res {
                Some(r) => decode_record(doc@) == Some(r@),
                None => decode_record(doc@) is None,
            },
    {
        let request_id = match doc.get("request_id") {
            Some(Json::Text(text)) => text.clone(),
            _ => {
                return None;
            },
        };
        let time = match doc.get("timestamp") {
            Some(Json::Text(text)) => text,
            _ => {
                return None;
            },
        };
        let members = match doc.get("node_results") {
            Some(Json::Object(members)) => members,
            _ => {
                return None;
            },
        };
        let timestamp = match read_timestamp(time.as_str()) {
            Some(timestamp) => timestamp,
            None => {
                return None;
            },
        };
        let ghost written = member(doc@, "node_results"@)->Some_0->Object_0;
        assert(written.len() == members@.len());
        let mut node_results = new_results();
        let mut i: usize = 0;
        while i < members.len()
            invariant
                i <= members.len(),
                written.len() == members@.len(),
                member(doc@, "node_results"@) == Some(JsonModel::Object(written)),
                forall|j: int|
                    0 <= j < members@.len() ==> written[j] == (members@[j].0@, members@[j].1@),
                decode_results(written, i as nat) == Some(entries(node_results)),
            decreases members.len() - i,
        {
            match Data::from_json(&members[i].1) {
                Some(value) => {
                    insert_result(&mut node_results, members[i].0.clone(), value);
                },
                None => {
                    proof {
                        assert(decode_results(written, (i + 1) as nat) is None);
                        lemma_decode_results_fails(written, (i + 1) as nat, written.len());
                    }
                    return None;
                },
            }
            i = i + 1;
        }
        Some(DAGResult { request_id, timestamp, node_results })
    }
}

/// The record of a line of the log.
pub fn read_line(line: &str) -> (res: Option<DAGResult>)
    ensures
        match res {
            Some(r) => line_record(line@) == Some(r@),
            None => line_record(line@) is None,
        },
{
    match parse(line) {
        Some(doc) => DAGResult::from_json(&doc),
        None => None,
    }
}

/// The record of the first line that holds a record of the request. Lines
/// that hold no record are passed over.
pub fn find_record(lines: &Vec<String>, request_id: &str) -> (res: Option<DAGResult>)
    ensures
        match res {
            Some(r) => first_match(texts(lines@), request_id@, 0) == Some(r@),
            None => first_match(texts(lines@), request_id@, 0) is None,
        },
{
    let mut i: usize = 0;
    while i < lines.len()
        invariant
            i <= lines.len(),
            first_match(texts(lines@), request_id@, 0) == first_match(
                texts(lines@),
                request_id@,
                i as int,
            ),
        decreases lines.len() - i,
    {
        assert(texts(lines@)[i as int] == lines@[i as int]@);
        match read_line(lines[i].as_str()) {
            Some(record) => {
                if same_text(record.request_id.as_str(), request_id) {
                    return Some(record);
                }
            },
            None => {},
        }
        i = i + 1;
    }
    None
}

/// The record with every channel in its results consumed.
pub open spec fn settled_record(r: RecordModel) -> RecordModel {
    RecordModel {
        request_id: r.request_id,
        timestamp: r.timestamp,
        node_results: Seq::new(
            r.node_results.len(),
            |i: int| (r.node_results[i].0, settled(r.node_results[i].1)),
        ),
    }
}

/// Whether a record can be written and read back: no id occurs twice in its
/// results, every float in them is finite, and its time is a point in time
/// written in UTC.
pub open spec fn storable_record(r: RecordModel) -> bool {
    &&& distinct_keys(r.node_results)
    &&& forall|i: int| 0 <= i < r.node_results.len() ==> storable(#[trigger] r.node_results[i].1)
    &&& utc_timestamp(r.timestamp) == Some(r.timestamp)
}

/// Whether no id occurs twice in the results.
fn has_distinct_ids(results: &ResultMap) -> (res: bool)
    ensures
        res == distinct_keys(entries(*results)),
{
    let n = results_len(results);
    let mut i: usize = 0;
    while i < n
        invariant
            i <= n,
            n == entries(*results).len(),
            forall|a: int, b: int|
                0 <= a < b < i ==> entries(*results)[a].0 != entries(*results)[b].0,
        decreases n - i,
    {
        let mut j: usize = 0;
        while j < i
            invariant
                j <= i,
                i < n,
                n == entries(*results).len(),
                forall|a: int| 0 <= a < j ==> entries(*results)[a].0 != entries(*results)[i as int].0,
            decreases i - j,
        {
            match (result_at(results, j), result_at(results, i)) {
                (Some((earlier, _)), Some((later, _))) => {
                    if same_text(earlier.as_str(), later.as_str()) {
                        return false;
                    }
                },
                _ => {},
            }
            j = j + 1;
        }
        i = i + 1;
    }
    true
}

/// Whether every float in the results is finite.
fn has_finite_floats(results: &ResultMap) -> (res: bool)
    ensures
        res == (forall|i: int|
            0 <= i < entries(*results).len() ==> storable(#[trigger] entries(*results)[i].1)),
{
    let n = results_len(results);
    let mut i: usize = 0;
    while i < n
        invariant
            i <= n,
            n == entries(*results).len(),
            forall|j: int| 0 <= j < i ==> storable(#[trigger] entries(*results)[j].1),
        decreases n - i,
    {
        match result_at(results, i) {
            Some((_, value)) => {
                if !value.is_storable() {
                    assert(!storable(entries(*results)[i as int].1));
                    return false;
                }
            },
            None => {},
        }
        i = i + 1;
    }
    true
}

impl DAGResult {
    /// Whether the record can be written and read back: whether no id occurs
    /// twice in its results, every float in them is finite, and its time
    /// reads as a point in time that is written as it stands.
    pub fn is_storable(&self) -> (res: bool)
        ensures
            res == storable_record(self@),
    {
        let in_time = match read_timestamp(self.timestamp.as_str()) {
            Some(written) => same_text(written.as_str(), self.timestamp.as_str()),
            None => false,
        };
        in_time && has_distinct_ids(&self.node_results) && has_finite_floats(&self.node_results)
    }
}

/// The written entries of results without a repeated id are read back in
/// their order, each value as it is read back.
proof fn lemma_decode_results_doc(results: Seq<(Seq<char>, DataModel)>, n: nat)
    requires
        n <= results.len(),
        distinct_keys(results),
        forall|i: int| 0 <= i < results.len() ==> storable(#[trigger] results[i].1),
    ensures
        decode_results(results_doc(results)->Object_0, n) == Some(
            Seq::new(n, |i: int| (results[i].0, settled(results[i].1))),
        ),
    decreases n,
{
    let members = results_doc(results)->Object_0;
    let read = Seq::new(n, |i: int| (results[i].0, settled(results[i].1)));
    if n == 0 {
        assert(read =~= Seq::empty());
    } else {
        lemma_decode_results_doc(results, (n - 1) as nat);
        let earlier = Seq::new((n - 1) as nat, |i: int| (results[i].0, settled(results[i].1)));
        assert(storable(results[n - 1].1));
        lemma_decode_encode(results[n - 1].1);
        assert(members[n - 1] == (results[n - 1].0, encode(results[n - 1].1)));
        lemma_index_absent(earlier, results[n - 1].0, 0);
        assert(inserted(earlier, results[n - 1].0, settled(results[n - 1].1)) =~= read);
    }
}

/// Tells the names of the members of a record apart.
proof fn lemma_member_names()
    ensures
        "request_id"@ != "timestamp"@,
        "request_id"@ != "node_results"@,
        "timestamp"@ != "node_results"@,
{
    reveal_strlit("request_id");
    reveal_strlit("timestamp");
    reveal_strlit("node_results");
    assert("request_id"@.len() == 10 && "timestamp"@.len() == 9 && "node_results"@.len() == 12);
}

/// A record that can be written is read back from its written form as it
/// was, but that the channels in its results come back consumed.
pub proof fn lemma_record_read_back(r: RecordModel)
    requires
        storable_record(r),
    ensures
        decode_record(record_doc(r)) == Some(settled_record(r)),
{
    lemma_member_names();
    let doc = record_doc(r);
    let members = doc->Object_0;
    reveal_with_fuel(member_from, 4);
    assert(member(doc, "request_id"@) == Some(members[0].1));
    assert(member(doc, "timestamp"@) == Some(members[1].1));
    assert(member(doc, "node_results"@) == Some(members[2].1));
    lemma_decode_results_doc(r.node_results, r.node_results.len());
    assert(results_doc(r.node_results)->Object_0.len() == r.node_results.len());
}

/// A line that holds the written form of a record that can be written is
/// read as that record, but that the channels in its results are consumed.
pub proof fn lemma_line_read_back(line: Seq<char>, r: RecordModel)
    requires
        parsed(line) == Some(record_doc(r)),
        storable_record(r),
    ensures
        line_record(line) == Some(settled_record(r)),
{
    lemma_record_read_back(r);
}

/// A record is found in the log again: where line `k` of the log holds the
/// written form of a record that can be written, and no line before it holds
/// a record of the same request, the record that is found for that request
/// is that record, but that the channels in its results are consumed.
pub proof fn lemma_found_in_log(lines: Seq<Seq<char>>, r: RecordModel, k: int)
    requires
        0 <= k < lines.len(),
        parsed(lines[k]) == Some(record_doc(r)),
        storable_record(r),
        forall|i: int|
            0 <= i < k ==> !(line_record(#[trigger] lines[i]) matches Some(earlier)
                && earlier.request_id == r.request_id),
    ensures
        first_match(lines, r.request_id, 0) == Some(settled_record(r)),
{
    lemma_line_read_back(lines[k], r);
    lemma_first_match_from(lines, r, k, 0);
}

/// The search from line `from` on, where no line from there to line `k`
/// holds a record of the request.
proof fn lemma_first_match_from(lines: Seq<Seq<char>>, r: RecordModel, k: int, from: int)
    requires
        0 <= from <= k < lines.len(),
        line_record(lines[k]) == Some(settled_record(r)),
        forall|i: int|
            from <= i < k ==> !(line_record(#[trigger] lines[i]) matches Some(earlier)
                && earlier.request_id == r.request_id),
    ensures
        first_match(lines, r.request_id, from) == Some(settled_record(r)),
    decreases k - from,
{
    if from < k {
        lemma_first_match_from(lines, r, k, from + 1);
    }
}

/// Once a member fails, so do all the members together.
pub proof fn lemma_decode_results_fails(members: Seq<(Seq<char>, JsonModel)>, n: nat, m: nat)
    requires
        n <= m <= members.len(),
        decode_results(members, n) is None,
    ensures
        decode_results(members, m) is None,
    decreases m,
{
    if n < m {
        lemma_decode_results_fails(members, n, (m - 1) as nat);
    }
}

} // verus!
