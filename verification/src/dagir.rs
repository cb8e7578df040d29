//! The intermediate representation of a graph: the nodes of a description,
//! read and checked for their shape, before any component is made.

use vstd::prelude::*;
use vstd::bytes::*;
use vstd::std_specs::hash::DefaultHasherAdditionalSpecFns;
use std::collections::hash_map::DefaultHasher;
use std::hash::Hasher;
use crate::codec::number_int;
use crate::dag::DAGError;
use crate::data::{Data, DataModel};
use crate::fingerprint::{text_chunks, write_text, write_u64};
use crate::written::canonical_text;
use crate::json::{member, Json, JsonModel, JsonNumber};
use crate::text::same_text;

verus! {

/// A node of a description.
#[derive(Debug)]
pub struct NodeIR {
    /// The id of the node. It is not empty, and no other node has it.
    pub id: String,
    /// The name under which the component of the node is registered.
    pub component_type: String,
    /// The configuration of the component, as it stands in the description.
    pub config: Json,
    /// The seed of a source node.
    pub inputs: Option<Data>,
    /// The ids of the nodes whose outputs the node takes, in order.
    pub depends_on: Vec<String>,
}

/// The mathematical form of a [`NodeIR`].
pub struct NodeModel {
    pub id: Seq<char>,
    pub component_type: Seq<char>,
    pub config: JsonModel,
    pub inputs: Option<DataModel>,
    pub depends_on: Seq<Seq<char>>,
}

/// A description of a graph, read and checked for its shape.
#[derive(Debug)]
pub struct DAGIR {
    /// A label for the graph.
    pub alias: Option<String>,
    /// The nodes, in the order of the description.
    pub nodes: Vec<NodeIR>,
}

/// The mathematical form of a [`DAGIR`].
pub struct IRModel {
    pub alias: Option<Seq<char>>,
    pub nodes: Seq<NodeModel>,
}

/// The texts of the strings.
pub open spec fn names(items: Seq<String>) -> Seq<Seq<char>> {
    Seq::new(items.len(), |i: int| items[i]@)
}

impl View for NodeIR {
    type V = NodeModel;

    open spec fn view(&self) -> NodeModel {
        NodeModel {
            id: self.id@,
            component_type: self.component_type@,
            config: self.config@,
            inputs: match self.inputs {
                Some(d) => Some(d@),
                None => None,
            },
            depends_on: names(self.depends_on@),
        }
    }
}

/// The models of the nodes.
pub open spec fn node_models(nodes: Seq<NodeIR>) -> Seq<NodeModel> {
    Seq::new(nodes.len(), |i: int| nodes[i]@)
}

impl View for DAGIR {
    type V = IRModel;

    open spec fn view(&self) -> IRModel {
        IRModel {
            alias: match self.alias {
                Some(s) => Some(s@),
                None => None,
            },
            nodes: node_models(self.nodes@),
        }
    }
}

/// The seed that a literal of a description stands for. `null` is the null
/// value, an integer of 32 bits an integer, a float a float, a string a text,
/// an array the list of what its items stand for. Whatever else, an object
/// among it, is kept as a document.
pub open spec fn seed_of(doc: JsonModel) -> DataModel
    decreases doc,
{
    match doc {
        JsonModel::Null => DataModel::Null,
        JsonModel::Number(n) => match number_int(n) {
            Some(v) => DataModel::Integer(v),
            None => match n {
                JsonNumber::Float(bits) => DataModel::Float(bits),
                _ => DataModel::Json(doc),
            },
        },
        JsonModel::Text(s) => DataModel::Text(s),
        JsonModel::Array(items) => DataModel::List(
            Seq::new(
                items.len(),
                |i: int|
                    if 0 <= i < items.len() {
                        seed_of(items[i])
                    } else {
                        DataModel::Null
                    },
            ),
        ),
        _ => DataModel::Json(doc),
    }
}

/// The ids that the member `depends_on` of a node gives: none where the
/// member is absent, else the strings of an array of strings.
pub open spec fn depends_of(listed: Option<JsonModel>) -> Option<Seq<Seq<char>>> {
    match listed {
        None => Some(Seq::empty()),
        Some(JsonModel::Array(items)) => if forall|i: int|
            0 <= i < items.len() ==> (#[trigger] items[i]) is Text {
            Some(Seq::new(items.len(), |i: int| items[i]->Text_0))
        } else {
            None
        },
        Some(_) => None,
    }
}

/// The node that a document describes: an object with an `id`, a string that
/// is not empty, a `component_type`, a string, and, as far as they are
/// there, a `config`, `inputs` and `depends_on`. A node without `config` has
/// the empty object for it.
pub open spec fn node_of(doc: JsonModel) -> Option<NodeModel> {
    match (doc, member(doc, "id"@), member(doc, "component_type"@), depends_of(member(doc, "depends_on"@))) {
        (
            JsonModel::Object(_),
            Some(JsonModel::Text(id)),
            Some(JsonModel::Text(component_type)),
            Some(depends_on),
        ) => if id.len() > 0 {
            Some(
                NodeModel {
                    id,
                    component_type,
                    config: match member(doc, "config"@) {
                        Some(config) => config,
                        None => JsonModel::Object(Seq::empty()),
                    },
                    inputs: match member(doc, "inputs"@) {
                        Some(literal) => Some(seed_of(literal)),
                        None => None,
                    },
                    depends_on,
                },
            )
        } else {
            None
        },
        _ => None,
    }
}

/// Whether no two nodes have the same id.
pub open spec fn distinct_ids(nodes: Seq<NodeModel>) -> bool {
    forall|i: int, j: int| 0 <= i < j < nodes.len() ==> nodes[i].id != nodes[j].id
}

/// The nodes that the documents describe, where each describes a node and no
/// two of them have the same id.
pub open spec fn nodes_of(items: Seq<JsonModel>) -> Option<Seq<NodeModel>> {
    let nodes = Seq::new(items.len(), |i: int| node_of(items[i])->Some_0);
    if (forall|i: int| 0 <= i < items.len() ==> node_of(#[trigger] items[i]) is Some)
        && distinct_ids(nodes) {
        Some(nodes)
    } else {
        None
    }
}

/// The label that the member `alias` gives.
pub open spec fn alias_of(label: Option<JsonModel>) -> Option<Option<Seq<char>>> {
    match label {
        None => Some(None),
        Some(JsonModel::Text(s)) => Some(Some(s)),
        Some(_) => None,
    }
}

/// The graph that a document describes: an array of nodes, or an object with
/// the array under `nodes` and, if it likes, a label under `alias`.
pub open spec fn ir_of(doc: JsonModel) -> Option<IRModel> {
    match doc {
        JsonModel::Array(items) => match nodes_of(items) {
            Some(nodes) => Some(IRModel { alias: None, nodes }),
            None => None,
        },
        JsonModel::Object(_) => match (member(doc, "nodes"@), alias_of(member(doc, "alias"@))) {
            (Some(JsonModel::Array(items)), Some(alias)) => match nodes_of(items) {
                Some(nodes) => Some(IRModel { alias, nodes }),
                None => None,
            },
            _ => None,
        },
        _ => None,
    }
}

/// The seed that a literal of a description stands for.
pub fn seed_from(doc: &Json) -> (res: Data)
    ensures
        res@ == seed_of(doc@),
    decreases doc,
{
    match doc {
        Json::Null => Data::Null,
        Json::Number(n) => match n {
            JsonNumber::PosInt(u) => {
                if *u <= 0x7fff_ffff {
                    Data::Integer(*u as i32)
                } else {
                    Data::Json(doc.duplicate())
                }
            },
            JsonNumber::NegInt(i) => {
                if -0x8000_0000 <= *i && *i <= 0x7fff_ffff {
                    Data::Integer(*i as i32)
                } else {
                    Data::Json(doc.duplicate())
                }
            },
            JsonNumber::Float(bits) => Data::Float(*bits),
        },
        Json::Text(s) => Data::Text(s.clone()),
        Json::Array(items) => {
            let mut values: Vec<Data> = Vec::new();
            let mut i: usize = 0;
            while i < items.len()
                invariant
                    i <= items.len(),
                    doc == Json::Array(*items),
                    values@.len() == i,
                    forall|j: int| 0 <= j < i ==> values@[j]@ == seed_of(items@[j]@),
                decreases items.len() - i,
            {
                assert(doc->Array_0 == *items);
                let value = seed_from(&items[i]);
                values.push(value);
                i = i + 1;
            }
            let res = Data::List(values);
            assert(res@->List_0 =~= seed_of(doc@)->List_0) by {
                assert forall|j: int| 0 <= j < items@.len() implies doc@->Array_0[j]
                    == items@[j]@ by {}
            }
            res
        },
        _ => Data::Json(doc.duplicate()),
    }
}

/// What the first `n` ids write to a hasher.
pub open spec fn names_chunks(ids: Seq<Seq<char>>, n: nat) -> Seq<Seq<u8>>
    decreases n,
{
    if n == 0 || n > ids.len() {
        Seq::empty()
    } else {
        names_chunks(ids, (n - 1) as nat) + text_chunks(ids[n - 1])
    }
}

/// What a node writes to a hasher: its id, its component type, the text of
/// the canonical form of its configuration, and the ids that it depends on, in their order and behind
/// their number. Its seed is left out.
pub open spec fn node_chunks(node: NodeModel) -> Seq<Seq<u8>> {
    text_chunks(node.id) + text_chunks(node.component_type) + text_chunks(
        canonical_text(node.config),
    )
        + seq![spec_u64_to_le_bytes(node.depends_on.len() as u64)] + names_chunks(
        node.depends_on,
        node.depends_on.len(),
    )
}

/// What the first `n` nodes write to a hasher.
pub open spec fn nodes_chunks(nodes: Seq<NodeModel>, n: nat) -> Seq<Seq<u8>>
    decreases n,
{
    if n == 0 || n > nodes.len() {
        Seq::empty()
    } else {
        nodes_chunks(nodes, (n - 1) as nat) + node_chunks(nodes[n - 1])
    }
}

/// The fingerprint of a graph: the hash of what its nodes write, in their
/// order. The seeds have no part in it.
pub open spec fn ir_hash(ir: IRModel) -> u64 {
    DefaultHasher::spec_finish(nodes_chunks(ir.nodes, ir.nodes.len()))
}

/// Whether two nodes are the same but for their seeds.
pub open spec fn same_but_seed(a: NodeModel, b: NodeModel) -> bool {
    &&& a.id == b.id
    &&& a.component_type == b.component_type
    &&& a.config == b.config
    &&& a.depends_on == b.depends_on
}

/// The fingerprint of a graph does not depend on the seeds: two graphs
/// whose nodes are the same but for their seeds have the same fingerprint.
pub proof fn lemma_fingerprint_leaves_seeds_out(a: IRModel, b: IRModel)
    requires
        a.nodes.len() == b.nodes.len(),
        forall|i: int| 0 <= i < a.nodes.len() ==> same_but_seed(#[trigger] a.nodes[i], b.nodes[i]),
    ensures
        ir_hash(a) == ir_hash(b),
{
    lemma_nodes_chunks_leave_seeds_out(a.nodes, b.nodes, a.nodes.len());
}

/// Nodes that are the same but for their seeds write the same.
proof fn lemma_nodes_chunks_leave_seeds_out(a: Seq<NodeModel>, b: Seq<NodeModel>, n: nat)
    requires
        a.len() == b.len(),
        n <= a.len(),
        forall|i: int| 0 <= i < a.len() ==> same_but_seed(#[trigger] a[i], b[i]),
    ensures
        nodes_chunks(a, n) == nodes_chunks(b, n),
    decreases n,
{
    if n > 0 {
        lemma_nodes_chunks_leave_seeds_out(a, b, (n - 1) as nat);
        assert(same_but_seed(a[n - 1], b[n - 1]));
    }
}

impl NodeIR {
    /// Writes the node to the hasher, without its seed.
    pub fn hash(&self, state: &mut DefaultHasher)
        ensures
            final(state)@ == old(state)@ + node_chunks(self@),
    {
        write_text(state, self.id.as_str());
        write_text(state, self.component_type.as_str());
        let config = self.config.canonical_text();
        write_text(state, config.as_str());
        write_u64(state, self.depends_on.len() as u64);
        let ghost start = state@;
        let mut i: usize = 0;
        while i < self.depends_on.len()
            invariant
                i <= self.depends_on@.len(),
                state@ == start + names_chunks(self@.depends_on, i as nat),
            decreases self.depends_on@.len() - i,
        {
            write_text(state, self.depends_on[i].as_str());
            i = i + 1;
            assert(state@ =~= start + names_chunks(self@.depends_on, i as nat));
        }
        assert(state@ =~= old(state)@ + node_chunks(self@));
    }
}

impl DAGIR {
    /// The fingerprint of the graph.
    pub fn calculate_hash(&self) -> (res: u64)
        ensures
            res == ir_hash(self@),
    {
        let mut hasher = DefaultHasher::new();
        let mut i: usize = 0;
        while i < self.nodes.len()
            invariant
                i <= self.nodes@.len(),
                hasher@ == nodes_chunks(self@.nodes, i as nat),
            decreases self.nodes@.len() - i,
        {
            self.nodes[i].hash(&mut hasher);
            i = i + 1;
            assert(hasher@ =~= nodes_chunks(self@.nodes, i as nat));
        }
        hasher.finish()
    }
}

/// The error of a description that cannot be read: an invalid configuration
/// that says why.
fn malformed(message: &str) -> (res: DAGError)
    ensures
        res matches DAGError::InvalidConfiguration(text) && text@ == message@,
{
    DAGError::InvalidConfiguration(message.to_owned())
}

/// The ids that the member `depends_on` of a node gives.
fn depends_from(listed: Option<&Json>) -> (res: Result<Vec<String>, DAGError>)
    ensures
        match res {
            Ok(ids) => depends_of(
                match listed {
                    Some(doc) => Some(doc@),
                    None => None,
                },
            ) == Some(names(ids@)),
            Err(e) => depends_of(
                match listed {
                    Some(doc) => Some(doc@),
                    None => None,
                },
            ) is None && e is InvalidConfiguration,
        },
{
    match listed {
        None => {
            let ids: Vec<String> = Vec::new();
            assert(names(ids@) =~= Seq::empty());
            Ok(ids)
        },
        Some(Json::Array(items)) => {
            let doc = listed.unwrap();
            assert(doc@->Array_0.len() == items@.len());
            let mut ids: Vec<String> = Vec::new();
            let mut i: usize = 0;
            while i < items.len()
                invariant
                    i <= items.len(),
                    *doc == Json::Array(*items),
                    listed == Some(doc),
                    ids@.len() == i,
                    forall|j: int|
                        0 <= j < i ==> (#[trigger] doc@->Array_0[j]) is Text && doc@->Array_0[j]->Text_0
                            == ids@[j]@,
                decreases items.len() - i,
            {
                assert(doc@->Array_0[i as int] == items@[i as int]@);
                match &items[i] {
                    Json::Text(id) => {
                        ids.push(id.clone());
                    },
                    _ => {
                        return Err(malformed("a dependency of a node is not a string"));
                    },
                }
                i = i + 1;
            }
            assert(names(ids@) =~= Seq::new(
                doc@->Array_0.len(),
                |i: int| doc@->Array_0[i]->Text_0,
            ));
            Ok(ids)
        },
        Some(_) => Err(malformed("the dependencies of a node are not an array")),
    }
}

impl NodeIR {
    /// The node that a document describes. A document that describes none
    /// is refused as an invalid configuration.
    pub fn from_json(doc: &Json) -> (res: Result<NodeIR, DAGError>)
        ensures
            match res {
                Ok(node) => node_of(doc@) == Some(node@),
                Err(e) => node_of(doc@) is None && e is InvalidConfiguration,
            },
    {
        match doc {
            Json::Object(_) => {},
            _ => {
                return Err(malformed("a node is not an object"));
            },
        }
        let id = match doc.get("id") {
            Some(Json::Text(id)) => id,
            _ => {
                return Err(malformed("a node has no id that is a string"));
            },
        };
        proof {
            reveal_strlit("");
        }
        if same_text(id.as_str(), "") {
            return Err(malformed("a node has an empty id"));
        }
        assert(id@.len() > 0) by {
            if id@.len() == 0 {
                assert(id@ =~= ""@);
            }
        }
        let component_type = match doc.get("component_type") {
            Some(Json::Text(name)) => name,
            _ => {
                return Err(malformed("a node has no component type that is a string"));
            },
        };
        let depends_on = match depends_from(doc.get("depends_on")) {
            Ok(ids) => ids,
            Err(e) => {
                return Err(e);
            },
        };
        let config = match doc.get("config") {
            Some(config) => config.duplicate(),
            None => {
                let empty = Json::Object(Vec::new());
                assert(empty@->Object_0 =~= Seq::empty());
                empty
            },
        };
        let inputs = match doc.get("inputs") {
            Some(literal) => Some(seed_from(literal)),
            None => None,
        };
        Ok(
            NodeIR {
                id: id.clone(),
                component_type: component_type.clone(),
                config,
                inputs,
                depends_on,
            },
        )
    }
}

/// The nodes that the documents describe.
fn nodes_from(items: &Vec<Json>) -> (res: Result<Vec<NodeIR>, DAGError>)
    ensures
        match res {
            Ok(nodes) => nodes_of(Seq::new(items@.len(), |i: int| items@[i]@)) == Some(
                node_models(nodes@),
            ),
            Err(e) => nodes_of(Seq::new(items@.len(), |i: int| items@[i]@)) is None
                && e is InvalidConfiguration,
        },
{
    let ghost docs = Seq::new(items@.len(), |i: int| items@[i]@);
    let mut nodes: Vec<NodeIR> = Vec::new();
    let mut i: usize = 0;
    while i < items.len()
        invariant
            i <= items.len(),
            docs == Seq::new(items@.len(), |i: int| items@[i]@),
            nodes@.len() == i,
            forall|j: int| 0 <= j < i ==> node_of(#[trigger] docs[j]) == Some(nodes@[j]@),
            forall|a: int, b: int| 0 <= a < b < i ==> nodes@[a]@.id != nodes@[b]@.id,
        decreases items.len() - i,
    {
        assert(docs[i as int] == items@[i as int]@);
        let node = match NodeIR::from_json(&items[i]) {
            Ok(node) => node,
            Err(e) => {
                return Err(e);
            },
        };
        let mut j: usize = 0;
        while j < i
            invariant
                j <= i,
                i < items.len(),
                nodes@.len() == i,
                docs == Seq::new(items@.len(), |i: int| items@[i]@),
                node_of(docs[i as int]) == Some(node@),
                forall|a: int| 0 <= a < i ==> node_of(#[trigger] docs[a]) == Some(nodes@[a]@),
                forall|a: int| 0 <= a < j ==> nodes@[a]@.id != node@.id,
            decreases i - j,
        {
            if same_text(nodes[j].id.as_str(), node.id.as_str()) {
                proof {
                    let described = Seq::new(docs.len(), |i: int| node_of(docs[i])->Some_0);
                    assert(node_of(docs[j as int]) == Some(nodes@[j as int]@));
                    assert(described[j as int].id == described[i as int].id);
                    assert(!distinct_ids(described));
                }
                return Err(malformed("two nodes have the same id"));
            }
            j = j + 1;
        }
        nodes.push(node);
        i = i + 1;
    }
    proof {
        let described = Seq::new(docs.len(), |i: int| node_of(docs[i])->Some_0);
        assert(described =~= node_models(nodes@));
    }
    Ok(nodes)
}

impl DAGIR {
    /// The graph that a document describes. A document that describes none
    /// is refused as an invalid configuration.
    pub fn from_json(doc: &Json) -> (res: Result<DAGIR, DAGError>)
        ensures
            match res {
                Ok(ir) => ir_of(doc@) == Some(ir@),
                Err(e) => ir_of(doc@) is None && e is InvalidConfiguration,
            },
    {
        match doc {
            Json::Array(items) => {
                assert(doc@->Array_0 =~= Seq::new(items@.len(), |i: int| items@[i]@));
                match nodes_from(items) {
                    Ok(nodes) => Ok(DAGIR { alias: None, nodes }),
                    Err(e) => Err(e),
                }
            },
            Json::Object(_) => {
                let alias = match doc.get("alias") {
                    None => None,
                    Some(Json::Text(label)) => Some(label.clone()),
                    Some(_) => {
                        return Err(malformed("the alias of a graph is not a string"));
                    },
                };
                match doc.get("nodes") {
                    Some(Json::Array(items)) => {
                        let listed = doc.get("nodes").unwrap();
                        assert(listed@->Array_0 =~= Seq::new(items@.len(), |i: int| items@[i]@));
                        match nodes_from(items) {
                            Ok(nodes) => Ok(DAGIR { alias, nodes }),
                            Err(e) => Err(e),
                        }
                    },
                    _ => Err(malformed("a graph has no nodes that are an array")),
                }
            },
            _ => Err(malformed("a graph is neither an array nor an object")),
        }
    }
}

} // verus!
