//! The result cache. Results are kept in two ways: under the fingerprint of
//! the graph and its seed inputs, so that a run of the same graph on the same
//! inputs need not be made again, and under the id of the request, so that a
//! past run can be replayed.

use vstd::prelude::*;
use vstd::std_specs::hash::DefaultHasherAdditionalSpecFns;
use std::collections::hash_map::{DefaultHasher, RandomState};
use std::hash::{Hash, Hasher};
use moka::sync::Cache as MokaCache;
use crate::canonical::{
    comes_before, lemma_sorted_members_hold, lemma_sorted_order_free, lemma_with_member,
    no_key_twice, same_members, sorted_members, text_before,
};
use crate::clock::timestamp_now;
use crate::data::{Data, DataModel};
use crate::fingerprint::{data_chunks, text_chunks, write_text};
use crate::history::{find_record, first_match, record_doc, texts};
use crate::json::Json;
use crate::results::{clone_results, entries, get_result, lookup, ResultMap};

verus! {

/// `moka::sync::Cache`: a bounded store that is safe to share. Nothing is
/// seen of what it holds: it drops entries as it sees fit.
#[verifier::external_type_specification]
#[verifier::external_body]
#[verifier::reject_recursive_types(K)]
#[verifier::reject_recursive_types(V)]
#[verifier::reject_recursive_types(S)]
pub struct ExMokaCache<K, V, S>(MokaCache<K, V, S>);

/// The results of one run.
#[derive(Debug)]
pub struct DAGResult {
    pub request_id: String,
    /// When the results were stored: an RFC 3339 text in UTC.
    pub timestamp: String,
    pub node_results: ResultMap,
}

/// The mathematical form of a [`DAGResult`].
pub struct RecordModel {
    pub request_id: Seq<char>,
    pub timestamp: Seq<char>,
    pub node_results: Seq<(Seq<char>, DataModel)>,
}

impl View for DAGResult {
    type V = RecordModel;

    open spec fn view(&self) -> RecordModel {
        RecordModel {
            request_id: self.request_id@,
            timestamp: self.timestamp@,
            node_results: entries(self.node_results),
        }
    }
}

impl Clone for DAGResult {
    fn clone(&self) -> (res: Self)
        ensures
            res@ == self@,
    {
        DAGResult {
            request_id: self.request_id.clone(),
            timestamp: self.timestamp.clone(),
            node_results: clone_results(&self.node_results),
        }
    }
}

impl DAGResult {
    /// The value that a node produced. `None` where the results hold none
    /// under the id.
    pub fn node_result(&self, node_id: &str) -> (res: Option<Data>)
        ensures
            match lookup(self@.node_results, node_id@) {
                Some(found) => res matches Some(value) && value@ == found,
                None => res is None,
            },
    {
        match get_result(&self.node_results, node_id) {
            Some(value) => Some(value.clone()),
            None => None,
        }
    }
}

/// The value that a node produced in the results, where there are results.
pub fn node_result_of(result: &Option<DAGResult>, node_id: &str) -> (res: Option<Data>)
    ensures
        match *result {
            Some(r) => match lookup(r@.node_results, node_id@) {
                Some(found) => res matches Some(value) && value@ == found,
                None => res is None,
            },
            None => res is None,
        },
{
    match result {
        Some(r) => r.node_result(node_id),
        None => None,
    }
}

/// The key of the memoization keyspace: the fingerprint of a graph and that
/// of its seed inputs.
#[derive(Clone, Copy, Debug, PartialEq, Eq, Hash, Structural)]
pub struct DAGInputHash {
    pub ir_hash: u64,
    pub inputs_hash: u64,
}

/// The seed inputs as mathematical values: the id of each source node with
/// its seed.
pub open spec fn seeds(inputs: Seq<(String, Data)>) -> Seq<(Seq<char>, DataModel)> {
    Seq::new(inputs.len(), |i: int| (inputs[i].0@, inputs[i].1@))
}

/// What the first `n` seed inputs write to a hasher: each its id, then its
/// value.
pub open spec fn seeds_chunks(inputs: Seq<(Seq<char>, DataModel)>, n: nat) -> Seq<Seq<u8>>
    decreases n,
{
    if n == 0 || n > inputs.len() {
        Seq::empty()
    } else {
        seeds_chunks(inputs, (n - 1) as nat) + text_chunks(inputs[n - 1].0) + data_chunks(
            inputs[n - 1].1,
        )
    }
}

/// The fingerprint of the seed inputs: the hash of what they write, in the
/// order of their ids. It does not depend on the order in which they are
/// given.
pub open spec fn seeds_hash(inputs: Seq<(Seq<char>, DataModel)>) -> u64 {
    DefaultHasher::spec_finish(seeds_chunks(sorted_members(inputs, inputs.len()), inputs.len()))
}

/// The seed inputs at the positions of `order`, in that order.
pub open spec fn picked(inputs: Seq<(Seq<char>, DataModel)>, order: Seq<usize>) -> Seq<
    (Seq<char>, DataModel),
> {
    Seq::new(order.len(), |i: int| inputs[order[i] as int])
}

/// The positions of the seed inputs, in the order of their ids. Seed inputs
/// with the same id keep their order.
fn sorted_order(inputs: &Vec<(String, Data)>) -> (order: Vec<usize>)
    ensures
        order@.len() == inputs@.len(),
        forall|i: int| 0 <= i < order@.len() ==> (#[trigger] order@[i]) < inputs@.len(),
        picked(seeds(inputs@), order@) == sorted_members(seeds(inputs@), inputs@.len() as nat),
{
    let ghost pairs = seeds(inputs@);
    let mut order: Vec<usize> = Vec::new();
    let mut i: usize = 0;
    assert(picked(pairs, order@) =~= sorted_members(pairs, 0));
    while i < inputs.len()
        invariant
            i <= inputs@.len(),
            pairs == seeds(inputs@),
            order@.len() == i,
            forall|k: int| 0 <= k < order@.len() ==> (#[trigger] order@[k]) < i,
            picked(pairs, order@) == sorted_members(pairs, i as nat),
        decreases inputs@.len() - i,
    {
        let mut at: usize = order.len();
        while at > 0 && comes_before(inputs[i].0.as_str(), inputs[order[at - 1]].0.as_str())
            invariant
                at <= order@.len(),
                i < inputs@.len(),
                pairs == seeds(inputs@),
                forall|k: int| 0 <= k < order@.len() ==> (#[trigger] order@[k]) < i,
                forall|k: int|
                    at <= k < order@.len() ==> text_before(
                        inputs@[i as int].0@,
                        inputs@[(#[trigger] order@[k]) as int].0@,
                    ),
            decreases at,
        {
            at = at - 1;
        }
        proof {
            let before = picked(pairs, order@);
            assert forall|k: int| at <= k < before.len() implies text_before(
                pairs[i as int].0,
                (#[trigger] before[k]).0,
            ) by {
                assert(before[k] == pairs[order@[k] as int]);
            }
            if at > 0 {
                assert(before[at - 1] == pairs[order@[at - 1] as int]);
            }
            lemma_with_member(before, pairs[i as int], at as int);
        }
        let ghost before = picked(pairs, order@);
        order.insert(at, i);
        assert(picked(pairs, order@) =~= before.insert(at as int, pairs[i as int]));
        i = i + 1;
    }
    order
}

/// The fingerprint of the seed inputs.
pub fn calculate_inputs_hash(inputs: &Vec<(String, Data)>) -> (res: u64)
    ensures
        res == seeds_hash(seeds(inputs@)),
{
    let order = sorted_order(inputs);
    let ghost sorted = picked(seeds(inputs@), order@);
    let mut hasher = DefaultHasher::new();
    let mut k: usize = 0;
    while k < order.len()
        invariant
            k <= order@.len(),
            order@.len() == inputs@.len(),
            forall|i: int| 0 <= i < order@.len() ==> (#[trigger] order@[i]) < inputs@.len(),
            sorted == picked(seeds(inputs@), order@),
            hasher@ == seeds_chunks(sorted, k as nat),
        decreases order@.len() - k,
    {
        let at = order[k];
        assert(sorted[k as int] == (inputs@[at as int].0@, inputs@[at as int].1@));
        write_text(&mut hasher, inputs[at].0.as_str());
        inputs[at].1.hash(&mut hasher);
        k = k + 1;
        assert(hasher@ =~= seeds_chunks(sorted, k as nat));
    }
    hasher.finish()
}

/// The fingerprint of seed inputs does not depend on their order: seed
/// inputs that are the same pairs, with no id twice, have the same
/// fingerprint.
pub proof fn lemma_seeds_hash_order_free(
    a: Seq<(Seq<char>, DataModel)>,
    b: Seq<(Seq<char>, DataModel)>,
)
    requires
        no_key_twice(a),
        no_key_twice(b),
        same_members(a, b),
    ensures
        seeds_hash(a) == seeds_hash(b),
{
    lemma_sorted_order_free(a, b);
    lemma_sorted_members_hold(a, a.len());
    lemma_sorted_members_hold(b, b.len());
}

/// The key under which the results of a graph on seed inputs are kept.
pub fn create_cache_key(ir_hash: u64, inputs: &Vec<(String, Data)>) -> (res: DAGInputHash)
    ensures
        res == (DAGInputHash { ir_hash, inputs_hash: seeds_hash(seeds(inputs@)) }),
{
    DAGInputHash { ir_hash, inputs_hash: calculate_inputs_hash(inputs) }
}

/// `moka::sync::Cache::new`: a store that keeps up to `max_capacity` entries.
#[verifier::external_body]
fn new_store<K: Hash + Eq + Send + Sync + 'static>(max_capacity: u64) -> MokaCache<
    K,
    DAGResult,
    RandomState,
> {
    MokaCache::new(max_capacity)
}

/// `moka::sync::Cache::insert`: hands an entry to the store. The store may
/// drop it, at once or later.
#[verifier::external_body]
fn put<K: Hash + Eq + Send + Sync + 'static>(
    store: &MokaCache<K, DAGResult, RandomState>,
    key: K,
    value: DAGResult,
) {
    store.insert(key, value)
}

/// `moka::sync::Cache::get`: a copy of what the store holds under the key.
/// Nothing is known of what it holds.
#[verifier::external_body]
fn fetch<K: Hash + Eq + Send + Sync + 'static>(
    store: &MokaCache<K, DAGResult, RandomState>,
    key: &K,
) -> Option<DAGResult> {
    store.get(key)
}

/// The record of a run: its results, under the id of its request and with
/// the time at which they are stored.
pub fn record_of(request_id: &String, timestamp: String, results: &ResultMap) -> (res: DAGResult)
    ensures
        res@ == (RecordModel {
            request_id: request_id@,
            timestamp: timestamp@,
            node_results: entries(*results),
        }),
{
    DAGResult {
        request_id: request_id.clone(),
        timestamp,
        node_results: clone_results(results),
    }
}

/// What a store puts where.
pub struct Stored {
    /// The key of the memoization keyspace.
    pub key: DAGInputHash,
    /// The record for the memoization keyspace.
    pub record: DAGResult,
    /// The key and the record for the replay keyspace.
    pub replay: Option<(String, DAGResult)>,
    /// The record for the history log.
    pub append: Option<HistoryAppend>,
}

/// A line for the history log, and the file it is for.
#[derive(Debug)]
pub struct HistoryAppend {
    pub path: String,
    pub record: Json,
}

/// The result cache.
pub struct Cache {
    /// Results under the fingerprint of a graph and its seed inputs.
    request_cache: MokaCache<DAGInputHash, DAGResult, RandomState>,
    /// Results under the id of the request.
    history_cache: MokaCache<String, DAGResult, RandomState>,
    /// The path of the history log.
    history_file: Option<String>,
}

impl Cache {
    /// The path of the history log, where the cache has one.
    pub closed spec fn history_path(&self) -> Option<Seq<char>> {
        match self.history_file {
            Some(path) => Some(path@),
            None => None,
        }
    }

    /// A cache whose two keyspaces keep up to `max_capacity` entries each.
    pub fn new(history_file: Option<String>, max_capacity: u64) -> (res: Self)
        ensures
            res.history_path() == (match history_file {
                Some(path) => Some(path@),
                None => None,
            }),
    {
        Cache {
            request_cache: new_store(max_capacity),
            history_cache: new_store(max_capacity),
            history_file,
        }
    }

    /// The path of the history log, where the cache has one.
    pub fn history_file(&self) -> (res: Option<&String>)
        ensures
            match res {
                Some(path) => self.history_path() == Some(path@),
                None => self.history_path() is None,
            },
    {
        self.history_file.as_ref()
    }

    /// Stores the results of a run at the given time: under the fingerprint
    /// of the graph and the seed inputs, and, where the cache has a history
    /// log, under the id of the request. Returns what is to be appended to
    /// the log.
    pub fn store_result_at(
        &self,
        ir_hash: u64,
        inputs: &Vec<(String, Data)>,
        results: &ResultMap,
        request_id: &String,
        timestamp: String,
    ) -> (res: Option<HistoryAppend>)
        ensures
            match res {
                Some(append) => self.history_path() == Some(append.path@) && append.record@
                    == record_doc(
                    RecordModel {
                        request_id: request_id@,
                        timestamp: timestamp@,
                        node_results: entries(*results),
                    },
                ),
                None => self.history_path() is None,
            },
    {
        let stored = self.entries_to_store(ir_hash, inputs, results, request_id, timestamp);
        put(&self.request_cache, stored.key, stored.record);
        match stored.replay {
            Some(replay) => {
                put(&self.history_cache, replay.0, replay.1);
            },
            None => {},
        }
        stored.append
    }

    /// What a store of the results of a run puts where: the record under the
    /// fingerprint of the graph and the seed inputs; and, where the cache
    /// has a history log, the record under the id of the request, and the
    /// record for the log.
    pub fn entries_to_store(
        &self,
        ir_hash: u64,
        inputs: &Vec<(String, Data)>,
        results: &ResultMap,
        request_id: &String,
        timestamp: String,
    ) -> (res: Stored)
        ensures
            res.key == (DAGInputHash { ir_hash, inputs_hash: seeds_hash(seeds(inputs@)) }),
            res.record@ == (RecordModel {
                request_id: request_id@,
                timestamp: timestamp@,
                node_results: entries(*results),
            }),
            match self.history_path() {
                Some(path) => {
                    &&& res.replay matches Some(replay) && replay.0@ == request_id@ && replay.1@
                        == res.record@
                    &&& res.append matches Some(append) && append.path@ == path && append.record@
                        == record_doc(res.record@)
                },
                None => res.replay is None && res.append is None,
            },
    {
        let record = record_of(request_id, timestamp, results);
        let key = create_cache_key(ir_hash, inputs);
        match &self.history_file {
            Some(path) => {
                let append = HistoryAppend { path: path.clone(), record: record.to_json() };
                let replay = (request_id.clone(), record.clone());
                Stored { key, record, replay: Some(replay), append: Some(append) }
            },
            None => Stored { key, record, replay: None, append: None },
        }
    }

    /// Stores the results of a run, with the current time. Returns what is
    /// to be appended to the history log, where the cache has one: the
    /// record of the run at some point in time.
    pub fn store_result(
        &self,
        ir_hash: u64,
        inputs: &Vec<(String, Data)>,
        results: &ResultMap,
        request_id: &String,
    ) -> (res: Option<HistoryAppend>)
        ensures
            match res {
                Some(append) => self.history_path() == Some(append.path@) && exists|
                    timestamp: Seq<char>,
                |
                    append.record@ == #[trigger] record_doc(
                        RecordModel {
                            request_id: request_id@,
                            timestamp,
                            node_results: entries(*results),
                        },
                    ),
                None => self.history_path() is None,
            },
    {
        let timestamp = timestamp_now();
        let ghost written = timestamp@;
        let res = self.store_result_at(ir_hash, inputs, results, request_id, timestamp);
        proof {
            if res is Some {
                assert(res->Some_0.record@ == record_doc(
                    RecordModel {
                        request_id: request_id@,
                        timestamp: written,
                        node_results: entries(*results),
                    },
                ));
            }
        }
        res
    }

    /// Stores the results of a run that no request id came with: under the
    /// fingerprint of the graph and the seed inputs alone.
    pub fn store_unnamed(&self, ir_hash: u64, inputs: &Vec<(String, Data)>, results: &ResultMap) {
        let record = record_of(&String::new(), timestamp_now(), results);
        let key = create_cache_key(ir_hash, inputs);
        put(&self.request_cache, key, record);
    }

    /// What the memoization keyspace holds for a graph and seed inputs. The
    /// store decides what it still holds.
    #[must_use]
    pub fn get_cached_result(&self, ir_hash: u64, inputs: &Vec<(String, Data)>) -> Option<
        DAGResult,
    > {
        let cache_key = create_cache_key(ir_hash, inputs);
        fetch(&self.request_cache, &cache_key)
    }

    /// What the replay keyspace holds for a request. The store decides what
    /// it still holds.
    #[must_use]
    pub fn get_result_by_request_id(&self, request_id: &str) -> Option<DAGResult> {
        let key = request_id.to_owned();
        fetch(&self.history_cache, &key)
    }

    /// The results of a past request. What the replay keyspace holds comes
    /// first. Where it holds nothing and the cache has a history log, the
    /// lines of the log are searched for the first record of the request,
    /// and what is found is put into the replay keyspace.
    pub fn get_historical_result(&self, request_id: &str, log: &Vec<String>) -> (res: Option<
        DAGResult,
    >)
        ensures
            res is None ==> self.history_path() is None || first_match(
                texts(log@),
                request_id@,
                0,
            ) is None,
    {
        let held = self.get_result_by_request_id(request_id);
        self.resolve_historical_result(held, request_id, log)
    }

    /// The results of a past request, given what the replay keyspace holds
    /// for it: that, where it holds something; else, where the cache has a
    /// history log, the first record of the request in the lines of the log,
    /// which is put into the replay keyspace.
    pub fn resolve_historical_result(
        &self,
        held: Option<DAGResult>,
        request_id: &str,
        log: &Vec<String>,
    ) -> (res: Option<DAGResult>)
        ensures
            match held {
                Some(r) => res == Some(r),
                None => match (self.history_path(), first_match(texts(log@), request_id@, 0)) {
                    (Some(_), Some(found)) => res matches Some(r) && r@ == found,
                    _ => res is None,
                },
            },
    {
        if let Some(result) = held {
            return Some(result);
        }
        if self.history_file.is_none() {
            return None;
        }
        match find_record(log, request_id) {
            Some(result) => {
                put(&self.history_cache, request_id.to_owned(), result.clone());
                Some(result)
            },
            None => None,
        }
    }

    /// The value of a node in what the memoization keyspace holds for a
    /// graph and seed inputs.
    #[must_use]
    pub fn get_cached_node_result(
        &self,
        ir_hash: u64,
        inputs: &Vec<(String, Data)>,
        node_id: &str,
    ) -> Option<Data> {
        let held = self.get_cached_result(ir_hash, inputs);
        node_result_of(&held, node_id)
    }
}

} // verus!
