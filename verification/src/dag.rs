//! Graphs that can be run: how the graph of a description is built and
//! checked, how its nodes run, and what can go wrong on the way.

use vstd::prelude::*;
use vstd::string::*;
use std::sync::Arc;
use crate::cache::{seeds, Cache, DAGResult, HistoryAppend};
use crate::component::{ComponentRegistry, Configured};
use crate::data::{type_of, Data, DataModel};
use crate::datatype::{compatible, name_of, DataType, TypeModel};
use crate::dagir::{distinct_ids, ir_hash, node_models, DAGIR, NodeIR, NodeModel};
use crate::history::{first_match, texts};
use crate::graph::{
    acyclic, analyze, depends_on, is_cycle, layered, lemma_edges_go_forward, links, ranked,
    valid_graph,
};
use crate::results::{entries, insert_result, lemma_index_absent, new_results, ResultMap};
use crate::text::same_text;

verus! {

/// What can go wrong while a graph is built or run.
#[derive(Debug)]
pub enum DAGError {
    /// The description cannot be read, or a component refuses its
    /// configuration.
    InvalidConfiguration(String),
    /// A node names a component type that is not registered.
    UnknownComponent(String),
    /// A node depends on an id that no node has.
    UnknownDependency { node: String, dependency: String },
    /// The nodes on a cycle, in order, each depending on the next.
    CycleDetected(Vec<String>),
    /// What reaches a node is not what the node accepts.
    TypeMismatch { node: String, expected: DataType, got: DataType },
    /// A component was handed a value of a type it does not accept.
    TypeSystemFailure { component: String, expected: DataType, received: DataType },
    /// A component failed while the graph ran.
    ComponentFailure { id: String, inner: Box<DAGError> },
    /// Nothing is stored under the key. Callers treat it as absence.
    CacheMiss,
}

/// The ids of the first `n` nodes of a circle, with ` -> ` between them.
pub open spec fn joined(ids: Seq<String>, n: nat) -> Seq<char>
    decreases n,
{
    if n == 0 || n > ids.len() {
        Seq::empty()
    } else if n == 1 {
        ids[0]@
    } else {
        joined(ids, (n - 1) as nat) + " -> "@ + ids[n - 1]@
    }
}

/// What an error says.
pub open spec fn message(e: DAGError) -> Seq<char>
    decreases e,
{
    match e {
        DAGError::InvalidConfiguration(text) => "Invalid configuration: "@ + text@,
        DAGError::UnknownComponent(name) => "Unknown component type: "@ + name@,
        DAGError::UnknownDependency { node, dependency } => "Node "@ + node@
            + " depends on unknown node "@ + dependency@,
        DAGError::CycleDetected(ids) => "Cycle detected: "@ + joined(ids@, ids@.len()),
        DAGError::TypeMismatch { node, expected, got } => "Type mismatch at node "@ + node@
            + ": Expected "@ + name_of(expected@) + ", got "@ + name_of(got@),
        DAGError::TypeSystemFailure { component, expected, received } =>
            "Type system failure in component "@ + component@ + ": Expected "@ + name_of(
            expected@,
        ) + ", received "@ + name_of(received@),
        DAGError::ComponentFailure { id, inner } => "Component "@ + id@ + " failed: "@ + message(
            *inner,
        ),
        DAGError::CacheMiss => "Cache miss"@,
    }
}

impl DAGError {
    /// What the error says.
    pub fn to_string(&self) -> (res: String)
        ensures
            res@ == message(*self),
        decreases self,
    {
        match self {
            DAGError::InvalidConfiguration(text) => {
                let mut res = "Invalid configuration: ".to_owned();
                res.append(text.as_str());
                res
            },
            DAGError::UnknownComponent(name) => {
                let mut res = "Unknown component type: ".to_owned();
                res.append(name.as_str());
                res
            },
            DAGError::UnknownDependency { node, dependency } => {
                let mut res = "Node ".to_owned();
                res.append(node.as_str());
                res.append(" depends on unknown node ");
                res.append(dependency.as_str());
                res
            },
            DAGError::CycleDetected(ids) => {
                let mut res = "Cycle detected: ".to_owned();
                let mut i: usize = 0;
                while i < ids.len()
                    invariant
                        i <= ids@.len(),
                        res@ == "Cycle detected: "@ + joined(ids@, i as nat),
                    decreases ids@.len() - i,
                {
                    if i > 0 {
                        res.append(" -> ");
                    }
                    res.append(ids[i].as_str());
                    i = i + 1;
                    assert(res@ =~= "Cycle detected: "@ + joined(ids@, i as nat));
                }
                res
            },
            DAGError::TypeMismatch { node, expected, got } => {
                let mut res = "Type mismatch at node ".to_owned();
                res.append(node.as_str());
                res.append(": Expected ");
                res.append(expected.name().as_str());
                res.append(", got ");
                res.append(got.name().as_str());
                res
            },
            DAGError::TypeSystemFailure { component, expected, received } => {
                let mut res = "Type system failure in component ".to_owned();
                res.append(component.as_str());
                res.append(": Expected ");
                res.append(expected.name().as_str());
                res.append(", received ");
                res.append(received.name().as_str());
                res
            },
            DAGError::ComponentFailure { id, inner } => {
                let mut res = "Component ".to_owned();
                res.append(id.as_str());
                res.append(" failed: ");
                res.append(inner.to_string().as_str());
                res
            },
            DAGError::CacheMiss => "Cache miss".to_owned(),
        }
    }
}

impl DAGError {
    /// The error as it leaves the engine: an invalid configuration that says
    /// what the error says. An invalid configuration stays what it is.
    pub fn into_invalid_configuration(self) -> (res: DAGError)
        ensures
            res matches DAGError::InvalidConfiguration(text) && text@ == (match self {
                DAGError::InvalidConfiguration(given) => given@,
                _ => message(self),
            }),
    {
        match self {
            DAGError::InvalidConfiguration(text) => DAGError::InvalidConfiguration(text),
            other => {
                let text = other.to_string();
                DAGError::InvalidConfiguration(text)
            },
        }
    }
}

/// The id of a node.
pub type NodeID = String;

/// The id of a request.
pub type RequestId = String;

/// The position of the first node, at or after `from`, with the id `id`.
pub open spec fn find_id(nodes: Seq<NodeModel>, id: Seq<char>, from: int) -> Option<int>
    decreases nodes.len() - from,
{
    if from < 0 || from >= nodes.len() {
        None
    } else if nodes[from].id == id {
        Some(from)
    } else {
        find_id(nodes, id, from + 1)
    }
}

/// The position of the node that dependency `j` of node `v` names.
pub open spec fn target(nodes: Seq<NodeModel>, v: int, j: int) -> Option<int> {
    find_id(nodes, nodes[v].depends_on[j], 0)
}

/// Whether every dependency of every node names a node.
pub open spec fn deps_known(nodes: Seq<NodeModel>) -> bool {
    forall|v: int, j: int|
        0 <= v < nodes.len() && 0 <= j < nodes[v].depends_on.len() ==> (#[trigger] target(
            nodes,
            v,
            j,
        )) is Some
}

/// The graph of the nodes: for each node, the positions of the nodes that
/// its dependencies name, in their order. It is the graph where every
/// dependency names a node.
pub open spec fn graph_of(nodes: Seq<NodeModel>) -> Seq<Seq<usize>> {
    Seq::new(
        nodes.len(),
        |v: int| Seq::new(nodes[v].depends_on.len(), |j: int| target(nodes, v, j)->Some_0 as usize),
    )
}

/// The position of the node with the id `id`.
fn locate(nodes: &Vec<NodeIR>, id: &str) -> (res: Option<usize>)
    ensures
        match res {
            Some(i) => find_id(node_models(nodes@), id@, 0) == Some(i as int) && i < nodes@.len(),
            None => find_id(node_models(nodes@), id@, 0) is None,
        },
{
    let mut i: usize = 0;
    while i < nodes.len()
        invariant
            i <= nodes@.len(),
            find_id(node_models(nodes@), id@, 0) == find_id(node_models(nodes@), id@, i as int),
        decreases nodes@.len() - i,
    {
        assert(node_models(nodes@)[i as int] == nodes@[i as int]@);
        if same_text(nodes[i].id.as_str(), id) {
            return Some(i);
        }
        i = i + 1;
    }
    None
}

/// The positions of the nodes that the dependencies name. A dependency that
/// names no node is refused: the first such of the first node that has one.
pub fn resolve(nodes: &Vec<NodeIR>) -> (res: Result<Vec<Vec<usize>>, DAGError>)
    ensures
        match res {
            Ok(deps) => links(deps@) == graph_of(node_models(nodes@)) && valid_graph(links(deps@)),
            Err(e) => e matches DAGError::UnknownDependency { node, dependency } && exists|
                v: int,
                j: int,
            |
                {
                    &&& 0 <= v < nodes@.len() && 0 <= j < nodes@[v]@.depends_on.len()
                    &&& node@ == nodes@[v]@.id
                    &&& dependency@ == nodes@[v]@.depends_on[j]
                    &&& (#[trigger] target(node_models(nodes@), v, j)) is None
                    &&& forall|w: int, i: int|
                        0 <= w < nodes@.len() && 0 <= i < nodes@[w]@.depends_on.len() && (w < v
                            || (w == v && i < j)) ==> (#[trigger] target(
                            node_models(nodes@),
                            w,
                            i,
                        )) is Some
                },
        },
        res is Ok <==> deps_known(node_models(nodes@)),
{
    let ghost models = node_models(nodes@);
    let mut deps: Vec<Vec<usize>> = Vec::new();
    let mut v: usize = 0;
    while v < nodes.len()
        invariant
            v <= nodes@.len(),
            models == node_models(nodes@),
            deps@.len() == v,
            forall|w: int| 0 <= w < v ==> (#[trigger] deps@[w])@.len() == models[w].depends_on.len(),
            forall|w: int, i: int|
                0 <= w < v && 0 <= i < models[w].depends_on.len() ==> (#[trigger] target(
                    models,
                    w,
                    i,
                )) == Some(deps@[w]@[i] as int),
            forall|w: int, i: int|
                0 <= w < v && 0 <= i < deps@[w]@.len() ==> (#[trigger] deps@[w]@[i]) < nodes@.len(),
        decreases nodes@.len() - v,
    {
        assert(models[v as int] == nodes@[v as int]@);
        let node = &nodes[v];
        let mut found: Vec<usize> = Vec::new();
        let mut j: usize = 0;
        while j < node.depends_on.len()
            invariant
                j <= node.depends_on@.len(),
                v < nodes@.len(),
                *node == nodes@[v as int],
                models == node_models(nodes@),
                models[v as int] == nodes@[v as int]@,
                found@.len() == j,
                forall|i: int|
                    0 <= i < j ==> (#[trigger] target(models, v as int, i)) == Some(
                        found@[i] as int,
                    ),
                forall|i: int| 0 <= i < j ==> (#[trigger] found@[i]) < nodes@.len(),
                forall|w: int, i: int|
                    0 <= w < v && 0 <= i < models[w].depends_on.len() ==> (#[trigger] target(
                        models,
                        w,
                        i,
                    )) is Some,
            decreases node.depends_on@.len() - j,
        {
            assert(models[v as int].depends_on[j as int] == node.depends_on@[j as int]@);
            match locate(nodes, node.depends_on[j].as_str()) {
                Some(u) => {
                    found.push(u);
                },
                None => {
                    assert(target(models, v as int, j as int) is None);
                    return Err(
                        DAGError::UnknownDependency {
                            node: node.id.clone(),
                            dependency: node.depends_on[j].clone(),
                        },
                    );
                },
            }
            j = j + 1;
        }
        deps.push(found);
        v = v + 1;
    }
    proof {
        assert forall|w: int| 0 <= w < models.len() implies (#[trigger] links(deps@)[w]) == graph_of(
            models,
        )[w] by {
            assert forall|i: int| 0 <= i < models[w].depends_on.len() implies links(deps@)[w][i]
                == graph_of(models)[w][i] by {
                assert(target(models, w, i) == Some(deps@[w]@[i] as int));
            }
            assert(links(deps@)[w] =~= graph_of(models)[w]);
        }
        assert(links(deps@) =~= graph_of(models));
        assert forall|w: int, i: int|
            0 <= w < links(deps@).len() && 0 <= i < links(deps@)[w].len() implies (
        #[trigger] links(deps@)[w][i]) < links(deps@).len() by {
            assert(deps@[w]@[i] < nodes@.len());
        }
    }
    Ok(deps)
}

/// Whether the component type of every node is registered.
pub open spec fn all_registered(nodes: Seq<NodeModel>, registry: &ComponentRegistry) -> bool {
    forall|v: int| 0 <= v < nodes.len() ==> registry.contains((#[trigger] nodes[v]).component_type)
}

/// Makes the component of each node from the configuration of the node. A
/// component type that is not registered is refused: the first such. So is
/// a configuration that its component reports as an error.
pub fn instantiate(nodes: &Vec<NodeIR>, registry: &ComponentRegistry) -> (res: Result<
    Vec<Configured>,
    DAGError,
>)
    ensures
        match res {
            Ok(components) => components@.len() == nodes@.len() && all_registered(
                node_models(nodes@),
                registry,
            ),
            Err(DAGError::UnknownComponent(name)) => exists|v: int|
                {
                    &&& 0 <= v < nodes@.len()
                    &&& name@ == (#[trigger] nodes@[v])@.component_type
                    &&& !registry.contains(name@)
                    &&& forall|w: int|
                        0 <= w < v ==> registry.contains((#[trigger] nodes@[w])@.component_type)
                },
            Err(DAGError::InvalidConfiguration(_)) => true,
            Err(_) => false,
        },
        !all_registered(node_models(nodes@), registry) ==> res is Err,
        nodes@.len() == 0 ==> res is Ok,
        nodes@.len() > 0 && !registry.contains(nodes@[0]@.component_type) ==> (res matches Err(
            DAGError::UnknownComponent(name),
        ) && name@ == nodes@[0]@.component_type),
{
    let mut components: Vec<Configured> = Vec::new();
    let mut v: usize = 0;
    while v < nodes.len()
        invariant
            v <= nodes@.len(),
            components@.len() == v,
            forall|w: int| 0 <= w < v ==> registry.contains((#[trigger] nodes@[w])@.component_type),
        decreases nodes@.len() - v,
    {
        let node = &nodes[v];
        match registry.get(node.component_type.as_str()) {
            Some(factory) => {
                let made = factory.build(node.config.duplicate());
                match made.component.configuration_error() {
                    Some(message) => {
                        return Err(DAGError::InvalidConfiguration(message));
                    },
                    None => {},
                }
                components.push(made);
            },
            None => {
                proof {
                    assert(node_models(nodes@)[v as int] == nodes@[v as int]@);
                }
                return Err(DAGError::UnknownComponent(node.component_type.clone()));
            },
        }
        v = v + 1;
    }
    proof {
        assert forall|w: int| 0 <= w < node_models(nodes@).len() implies registry.contains(
            (#[trigger] node_models(nodes@)[w]).component_type,
        ) by {
            assert(node_models(nodes@)[w] == nodes@[w]@);
        }
    }
    Ok(components)
}

/// The types as mathematical values.
pub open spec fn type_models(types: Seq<DataType>) -> Seq<TypeModel> {
    Seq::new(types.len(), |i: int| types[i]@)
}

/// The type of what reaches node `v`: of its seed, or of nothing, where it
/// depends on no node; of the output of the node that it depends on, where
/// that is one; and else of the list of the outputs of the nodes that it
/// depends on, a list of the union of their types.
pub open spec fn effective_type(
    nodes: Seq<NodeModel>,
    deps: Seq<Seq<usize>>,
    outputs: Seq<TypeModel>,
    v: int,
) -> TypeModel {
    let k = deps[v].len();
    if k == 0 {
        match nodes[v].inputs {
            Some(seed) => type_of(seed),
            None => TypeModel::Null,
        }
    } else if k == 1 {
        outputs[deps[v][0] as int]
    } else {
        TypeModel::List(
            Box::new(TypeModel::Union(Seq::new(k, |j: int| outputs[deps[v][j] as int]))),
        )
    }
}

/// Whether what reaches node `v` is what the node accepts.
pub open spec fn accepts(
    nodes: Seq<NodeModel>,
    deps: Seq<Seq<usize>>,
    inputs: Seq<TypeModel>,
    outputs: Seq<TypeModel>,
    v: int,
) -> bool {
    compatible(effective_type(nodes, deps, outputs, v), inputs[v])
}

/// Whether what reaches each node is what the node accepts.
pub open spec fn types_sound(
    nodes: Seq<NodeModel>,
    deps: Seq<Seq<usize>>,
    inputs: Seq<TypeModel>,
    outputs: Seq<TypeModel>,
) -> bool {
    forall|v: int| 0 <= v < nodes.len() ==> #[trigger] accepts(nodes, deps, inputs, outputs, v)
}

/// The type of what reaches node `v`.
fn reaching_type(
    nodes: &Vec<NodeIR>,
    deps: &Vec<Vec<usize>>,
    outputs: &Vec<DataType>,
    v: usize,
) -> (res: DataType)
    requires
        valid_graph(links(deps@)),
        links(deps@).len() == nodes@.len(),
        outputs@.len() == nodes@.len(),
        v < nodes@.len(),
    ensures
        res@ == effective_type(node_models(nodes@), links(deps@), type_models(outputs@), v as int),
{
    assert(node_models(nodes@)[v as int] == nodes@[v as int]@);
    let k = deps[v].len();
    if k == 0 {
        match &nodes[v].inputs {
            Some(seed) => seed.get_type(),
            None => DataType::Null,
        }
    } else if k == 1 {
        let u = deps[v][0];
        assert(u == links(deps@)[v as int][0]);
        assert(type_models(outputs@)[u as int] == outputs@[u as int]@);
        outputs[u].clone()
    } else {
        let mut arms: Vec<DataType> = Vec::new();
        let mut j: usize = 0;
        while j < k
            invariant
                j <= k,
                k == links(deps@)[v as int].len(),
                v < links(deps@).len(),
                valid_graph(links(deps@)),
                outputs@.len() == links(deps@).len(),
                arms@.len() == j,
                forall|i: int| 0 <= i < j ==> arms@[i]@ == outputs@[links(deps@)[v as int][i] as int]@,
            decreases k - j,
        {
            let u = deps[v][j];
            assert(u == links(deps@)[v as int][j as int]);
            arms.push(outputs[u].clone());
            j = j + 1;
        }
        let union = DataType::Union(arms);
        assert(union@->Union_0 =~= Seq::new(
            k as nat,
            |j: int| type_models(outputs@)[links(deps@)[v as int][j] as int],
        ));
        let res = DataType::List(Box::new(union));
        assert(res@ == TypeModel::List(Box::new(union@)));
        res
    }
}

/// Checks that what reaches each node is what the node accepts. The first
/// node that is reached by something else is named, with what it accepts
/// and what reaches it.
pub fn check_types(
    nodes: &Vec<NodeIR>,
    deps: &Vec<Vec<usize>>,
    inputs: &Vec<DataType>,
    outputs: &Vec<DataType>,
) -> (res: Result<(), DAGError>)
    requires
        valid_graph(links(deps@)),
        links(deps@).len() == nodes@.len(),
        inputs@.len() == nodes@.len(),
        outputs@.len() == nodes@.len(),
    ensures
        match res {
            Ok(_) => types_sound(
                node_models(nodes@),
                links(deps@),
                type_models(inputs@),
                type_models(outputs@),
            ),
            Err(e) => e matches DAGError::TypeMismatch { node, expected, got } && exists|v: int|
                {
                    &&& 0 <= v < nodes@.len()
                    &&& node@ == nodes@[v]@.id
                    &&& expected@ == inputs@[v]@
                    &&& got@ == effective_type(
                        node_models(nodes@),
                        links(deps@),
                        type_models(outputs@),
                        v,
                    )
                    &&& !(#[trigger] accepts(
                        node_models(nodes@),
                        links(deps@),
                        type_models(inputs@),
                        type_models(outputs@),
                        v,
                    ))
                    &&& forall|w: int|
                        0 <= w < v ==> #[trigger] accepts(
                            node_models(nodes@),
                            links(deps@),
                            type_models(inputs@),
                            type_models(outputs@),
                            w,
                        )
                },
        },
{
    let mut v: usize = 0;
    while v < nodes.len()
        invariant
            v <= nodes@.len(),
            valid_graph(links(deps@)),
            links(deps@).len() == nodes@.len(),
            inputs@.len() == nodes@.len(),
            outputs@.len() == nodes@.len(),
            forall|w: int|
                0 <= w < v ==> #[trigger] accepts(
                    node_models(nodes@),
                    links(deps@),
                    type_models(inputs@),
                    type_models(outputs@),
                    w,
                ),
        decreases nodes@.len() - v,
    {
        let got = reaching_type(nodes, deps, outputs, v);
        assert(type_models(inputs@)[v as int] == inputs@[v as int]@);
        if !got.is_compatible_with(&inputs[v]) {
            let node = nodes[v].id.clone();
            let expected = inputs[v].duplicate();
            assert(!accepts(
                node_models(nodes@),
                links(deps@),
                type_models(inputs@),
                type_models(outputs@),
                v as int,
            ));
            return Err(DAGError::TypeMismatch { node, expected, got });
        }
        v = v + 1;
    }
    Ok(())
}

/// The seed inputs of the first `n` nodes: the id and the seed of each node
/// that depends on none and has a seed, in the order of the nodes.
pub open spec fn seed_inputs(nodes: Seq<NodeModel>, n: nat) -> Seq<(Seq<char>, DataModel)>
    decreases n,
{
    if n == 0 || n > nodes.len() {
        Seq::empty()
    } else {
        let earlier = seed_inputs(nodes, (n - 1) as nat);
        let node = nodes[n - 1];
        if node.depends_on.len() == 0 && node.inputs is Some {
            earlier.push((node.id, node.inputs->Some_0))
        } else {
            earlier
        }
    }
}

/// The seed inputs of the nodes.
pub fn collect_seeds(nodes: &Vec<NodeIR>) -> (res: Vec<(String, Data)>)
    ensures
        seeds(res@) == seed_inputs(node_models(nodes@), nodes@.len() as nat),
{
    let mut inputs: Vec<(String, Data)> = Vec::new();
    let mut v: usize = 0;
    assert(seeds(inputs@) =~= Seq::empty());
    while v < nodes.len()
        invariant
            v <= nodes@.len(),
            seeds(inputs@) == seed_inputs(node_models(nodes@), v as nat),
        decreases nodes@.len() - v,
    {
        assert(node_models(nodes@)[v as int] == nodes@[v as int]@);
        let node = &nodes[v];
        if node.depends_on.len() == 0 {
            match &node.inputs {
                Some(seed) => {
                    let ghost before = seeds(inputs@);
                    inputs.push((node.id.clone(), seed.clone()));
                    assert(seeds(inputs@) =~= before.push((node@.id, seed@)));
                },
                None => {},
            }
        }
        v = v + 1;
    }
    inputs
}

/// Whether two nodes have the same id.
fn has_duplicate_ids(nodes: &Vec<NodeIR>) -> (res: bool)
    ensures
        res == !distinct_ids(node_models(nodes@)),
{
    let ghost models = node_models(nodes@);
    let mut i: usize = 0;
    while i < nodes.len()
        invariant
            i <= nodes@.len(),
            models == node_models(nodes@),
            forall|a: int, b: int| 0 <= a < b < i ==> models[a].id != models[b].id,
        decreases nodes@.len() - i,
    {
        let mut j: usize = 0;
        while j < i
            invariant
                j <= i,
                i < nodes@.len(),
                models == node_models(nodes@),
                forall|a: int| 0 <= a < j ==> models[a].id != models[i as int].id,
            decreases i - j,
        {
            assert(models[j as int] == nodes@[j as int]@);
            assert(models[i as int] == nodes@[i as int]@);
            if same_text(nodes[j].id.as_str(), nodes[i].id.as_str()) {
                return true;
            }
            j = j + 1;
        }
        i = i + 1;
    }
    false
}

/// The ids of the nodes at the positions of `path`.
fn path_ids(nodes: &Vec<NodeIR>, path: &Vec<usize>) -> (res: Vec<String>)
    requires
        forall|i: int| 0 <= i < path@.len() ==> (#[trigger] path@[i]) < nodes@.len(),
    ensures
        res@.len() == path@.len(),
        forall|i: int| 0 <= i < path@.len() ==> (#[trigger] res@[i])@ == nodes@[path@[i] as int]@.id,
{
    let mut ids: Vec<String> = Vec::new();
    let mut i: usize = 0;
    while i < path.len()
        invariant
            i <= path@.len(),
            ids@.len() == i,
            forall|a: int| 0 <= a < path@.len() ==> (#[trigger] path@[a]) < nodes@.len(),
            forall|a: int| 0 <= a < i ==> (#[trigger] ids@[a])@ == nodes@[path@[a] as int]@.id,
        decreases path@.len() - i,
    {
        ids.push(nodes[path[i]].id.clone());
        i = i + 1;
    }
    ids
}

/// The types that the components accept and produce, as they report them.
fn query_types(components: &Vec<Configured>) -> (res: (Vec<DataType>, Vec<DataType>))
    ensures
        res.0@.len() == components@.len(),
        res.1@.len() == components@.len(),
{
    let mut inputs: Vec<DataType> = Vec::new();
    let mut outputs: Vec<DataType> = Vec::new();
    let mut v: usize = 0;
    while v < components.len()
        invariant
            v <= components@.len(),
            inputs@.len() == v,
            outputs@.len() == v,
        decreases components@.len() - v,
    {
        inputs.push(components[v].component.input_type());
        outputs.push(components[v].component.output_type());
        v = v + 1;
    }
    (inputs, outputs)
}

/// Whether the nodes have distinct ids and there is a component, an accepted
/// type and a produced type for each.
pub open spec fn fitting(
    nodes: Seq<NodeModel>,
    components: nat,
    inputs: Seq<TypeModel>,
    outputs: Seq<TypeModel>,
) -> bool {
    &&& distinct_ids(nodes)
    &&& components == nodes.len()
    &&& inputs.len() == nodes.len()
    &&& outputs.len() == nodes.len()
}

/// How the building of a graph ends.
pub enum Verdict {
    /// A dependency names no node.
    UnknownDependency,
    /// The dependencies run in a circle.
    Cycle,
    /// What reaches a node is not what the node accepts.
    TypeMismatch,
    /// The graph is built.
    Built,
}

/// How the building of a graph of nodes with distinct ids ends, given the
/// types that their components reported: with the first of the checks that
/// fails, in the order dependencies, circle, types.
pub open spec fn verdict(
    nodes: Seq<NodeModel>,
    inputs: Seq<TypeModel>,
    outputs: Seq<TypeModel>,
) -> Verdict {
    if !deps_known(nodes) {
        Verdict::UnknownDependency
    } else if !acyclic(graph_of(nodes)) {
        Verdict::Cycle
    } else if !types_sound(nodes, graph_of(nodes), inputs, outputs) {
        Verdict::TypeMismatch
    } else {
        Verdict::Built
    }
}

/// Whether `node` and `dependency` are the id of the first node with a
/// dependency that names no node, and the first such dependency of it.
pub open spec fn first_unknown(
    nodes: Seq<NodeModel>,
    node: Seq<char>,
    dependency: Seq<char>,
) -> bool {
    exists|v: int, j: int|
        {
            &&& 0 <= v < nodes.len() && 0 <= j < nodes[v].depends_on.len()
            &&& node == nodes[v].id
            &&& dependency == nodes[v].depends_on[j]
            &&& (#[trigger] target(nodes, v, j)) is None
            &&& forall|w: int, i: int|
                0 <= w < nodes.len() && 0 <= i < nodes[w].depends_on.len() && (w < v || (w == v
                    && i < j)) ==> (#[trigger] target(nodes, w, i)) is Some
        }
}

/// Whether `ids` are the ids of the nodes on a circle of the graph, in the
/// order of the circle.
pub open spec fn names_cycle(nodes: Seq<NodeModel>, ids: Seq<String>) -> bool {
    exists|path: Seq<usize>|
        {
            &&& #[trigger] is_cycle(graph_of(nodes), path)
            &&& ids.len() == path.len()
            &&& forall|i: int|
                0 <= i < path.len() ==> (#[trigger] ids[i])@ == nodes[path[i] as int].id
        }
}

/// Whether `v` is the first node that is reached by what it does not accept,
/// `node` its id, `expected` what it accepts and `got` what reaches it.
pub open spec fn mismatch_at(
    nodes: Seq<NodeModel>,
    inputs: Seq<TypeModel>,
    outputs: Seq<TypeModel>,
    v: int,
    node: Seq<char>,
    expected: TypeModel,
    got: TypeModel,
) -> bool {
    &&& 0 <= v < nodes.len()
    &&& node == nodes[v].id
    &&& expected == inputs[v]
    &&& got == effective_type(nodes, graph_of(nodes), outputs, v)
    &&& !accepts(nodes, graph_of(nodes), inputs, outputs, v)
    &&& forall|w: int| 0 <= w < v ==> #[trigger] accepts(nodes, graph_of(nodes), inputs, outputs, w)
}

/// Whether `node`, `expected` and `got` tell of the first node that is
/// reached by what it does not accept.
pub open spec fn first_mismatch(
    nodes: Seq<NodeModel>,
    inputs: Seq<TypeModel>,
    outputs: Seq<TypeModel>,
    node: Seq<char>,
    expected: TypeModel,
    got: TypeModel,
) -> bool {
    exists|v: int| #[trigger] mismatch_at(nodes, inputs, outputs, v, node, expected, got)
}

/// A graph without nodes has no unknown dependency, no circle and no node
/// that is reached by what it does not accept.
pub proof fn lemma_empty_graph(nodes: Seq<NodeModel>)
    requires
        nodes.len() == 0,
    ensures
        distinct_ids(nodes),
        deps_known(nodes),
        acyclic(graph_of(nodes)),
        forall|inputs: Seq<TypeModel>, outputs: Seq<TypeModel>|
            #[trigger] verdict(nodes, inputs, outputs) is Built,
{
    assert forall|path: Seq<usize>| !is_cycle(graph_of(nodes), path) by {
        if is_cycle(graph_of(nodes), path) {
            assert(depends_on(graph_of(nodes), path[0] as int, path[if 1 < path.len() {
                1int
            } else {
                0int
            }] as int));
        }
    }
}

/// How a graph is built and run.
#[derive(Clone, Copy, Debug)]
pub struct DAGConfig {
    /// Whether the results of a run are looked up in the cache and stored
    /// there.
    pub enable_memory_cache: bool,
}

impl Default for DAGConfig {
    fn default() -> (res: Self)
        ensures
            res.enable_memory_cache,
    {
        DAGConfig { enable_memory_cache: true }
    }
}

/// A graph that can be run: the nodes of a description with their
/// components, the layers in which they run, and the types that were checked.
pub struct DAG {
    nodes: Vec<NodeIR>,
    components: Vec<Configured>,
    deps: Vec<Vec<usize>>,
    layers: Vec<Vec<usize>>,
    rank: Vec<usize>,
    input_types: Vec<DataType>,
    output_types: Vec<DataType>,
    inputs: Vec<(String, Data)>,
    ir_hash: u64,
    config: DAGConfig,
    cache: Option<Arc<Cache>>,
}

impl DAG {
    /// The nodes, in the order of the description.
    pub closed spec fn nodes(&self) -> Seq<NodeModel> {
        node_models(self.nodes@)
    }

    /// For each node, the positions of the nodes that it depends on.
    pub closed spec fn graph(&self) -> Seq<Seq<usize>> {
        links(self.deps@)
    }

    /// The layers: the positions of the nodes of each.
    pub closed spec fn layering(&self) -> Seq<Vec<usize>> {
        self.layers@
    }

    /// The layer of each node.
    pub closed spec fn ranks(&self) -> Seq<usize> {
        self.rank@
    }

    /// The type that each node accepts, as its component reported it when
    /// the graph was built.
    pub closed spec fn accepted(&self) -> Seq<TypeModel> {
        type_models(self.input_types@)
    }

    /// The type that each node produces, as its component reported it when
    /// the graph was built.
    pub closed spec fn produced(&self) -> Seq<TypeModel> {
        type_models(self.output_types@)
    }

    /// The seed inputs: the id and the seed of each source node that has
    /// one.
    pub closed spec fn seeds(&self) -> Seq<(Seq<char>, DataModel)> {
        seeds(self.inputs@)
    }

    /// The fingerprint of the description.
    pub closed spec fn fingerprint(&self) -> u64 {
        self.ir_hash
    }

    /// Whether the graph looks its results up in a cache and stores them
    /// there.
    pub closed spec fn caching(&self) -> bool {
        self.config.enable_memory_cache && self.cache is Some
    }

    /// Whether the graph has a cache.
    pub closed spec fn has_cache(&self) -> bool {
        self.cache is Some
    }

    /// The path of the history log of the graph's cache, where the graph has
    /// a cache and the cache a log.
    pub closed spec fn log_path(&self) -> Option<Seq<char>> {
        match self.cache {
            Some(cache) => cache.history_path(),
            None => None,
        }
    }

    /// What holds of every graph that was built: the ids are distinct, every
    /// dependency names a node, the nodes stand in layers such that each
    /// comes after all that it depends on, and what reaches each node is what
    /// the node accepts.
    pub open spec fn well_formed(&self) -> bool {
        &&& distinct_ids(self.nodes())
        &&& deps_known(self.nodes())
        &&& self.graph() == graph_of(self.nodes())
        &&& valid_graph(self.graph())
        &&& ranked(self.graph(), self.ranks())
        &&& layered(self.layering(), self.ranks())
        &&& acyclic(self.graph())
        &&& self.accepted().len() == self.nodes().len()
        &&& self.produced().len() == self.nodes().len()
        &&& types_sound(self.nodes(), self.graph(), self.accepted(), self.produced())
        &&& self.seeds() == seed_inputs(self.nodes(), self.nodes().len())
    }

    #[verifier::type_invariant]
    spec fn built(&self) -> bool {
        self.well_formed() && self.components@.len() == self.nodes@.len()
    }

    /// Builds the graph of a description. The ids are checked and the
    /// components are made first; what follows, given the components and the
    /// types that they report, is the work of `assemble`. A description
    /// without nodes is always built. Whether a component refuses its
    /// configuration, and what types it reports, is the component's to say.
    pub fn from_ir(
        ir: DAGIR,
        registry: &ComponentRegistry,
        config: DAGConfig,
        cache: Option<Arc<Cache>>,
    ) -> (res: Result<DAG, DAGError>)
        ensures
            match res {
                Ok(dag) => {
                    &&& dag.well_formed()
                    &&& dag.nodes() == ir@.nodes
                    &&& dag.fingerprint() == ir_hash(ir@)
                    &&& dag.caching() == (config.enable_memory_cache && cache is Some)
                    &&& dag.has_cache() == (cache is Some)
                    &&& dag.log_path() == (match cache {
                        Some(held) => held.history_path(),
                        None => None,
                    })
                    &&& all_registered(ir@.nodes, registry)
                },
                Err(DAGError::InvalidConfiguration(_)) => true,
                Err(DAGError::UnknownComponent(name)) => {
                    &&& distinct_ids(ir@.nodes)
                    &&& !registry.contains(name@)
                    &&& exists|v: int|
                        0 <= v < ir@.nodes.len() && name@ == (#[trigger] ir@.nodes[v]).component_type
                },
                Err(DAGError::UnknownDependency { node, dependency }) => {
                    &&& distinct_ids(ir@.nodes)
                    &&& all_registered(ir@.nodes, registry)
                    &&& exists|v: int, j: int|
                        {
                            &&& 0 <= v < ir@.nodes.len() && 0 <= j < ir@.nodes[v].depends_on.len()
                            &&& node@ == ir@.nodes[v].id
                            &&& dependency@ == ir@.nodes[v].depends_on[j]
                            &&& (#[trigger] target(ir@.nodes, v, j)) is None
                        }
                },
                Err(DAGError::CycleDetected(ids)) => {
                    &&& distinct_ids(ir@.nodes)
                    &&& all_registered(ir@.nodes, registry)
                    &&& deps_known(ir@.nodes)
                    &&& exists|path: Seq<usize>|
                        {
                            &&& #[trigger] is_cycle(graph_of(ir@.nodes), path)
                            &&& ids@.len() == path.len()
                            &&& forall|i: int|
                                0 <= i < path.len() ==> (#[trigger] ids@[i])@
                                    == ir@.nodes[path[i] as int].id
                        }
                },
                Err(DAGError::TypeMismatch { node, expected, got }) => {
                    &&& distinct_ids(ir@.nodes)
                    &&& all_registered(ir@.nodes, registry)
                    &&& deps_known(ir@.nodes)
                    &&& acyclic(graph_of(ir@.nodes))
                    &&& !compatible(got@, expected@)
                    &&& exists|v: int| 0 <= v < ir@.nodes.len() && node@ == (#[trigger] ir@.nodes[v]).id
                },
                Err(_) => false,
            },
            distinct_ids(ir@.nodes) && all_registered(ir@.nodes, registry) && deps_known(ir@.nodes)
                && !acyclic(graph_of(ir@.nodes)) ==> (res matches Err(e) && (e is CycleDetected
                || e is InvalidConfiguration)),
            distinct_ids(ir@.nodes) && all_registered(ir@.nodes, registry) && !deps_known(
                ir@.nodes,
            ) ==> (res matches Err(e) && (e is UnknownDependency || e is InvalidConfiguration)),
            distinct_ids(ir@.nodes) && !all_registered(ir@.nodes, registry) ==> (res matches Err(e)
                && (e is UnknownComponent || e is InvalidConfiguration)),
            !distinct_ids(ir@.nodes) ==> (res matches Err(e) && e is InvalidConfiguration),
            ir@.nodes.len() == 0 ==> res is Ok,
            distinct_ids(ir@.nodes) && ir@.nodes.len() > 0 && !registry.contains(
                ir@.nodes[0].component_type,
            ) ==> (res matches Err(DAGError::UnknownComponent(name)) && name@
                == ir@.nodes[0].component_type),
    {
        let ir_hash = ir.calculate_hash();
        let nodes = ir.nodes;
        assert(node_models(nodes@) == ir@.nodes);
        if has_duplicate_ids(&nodes) {
            return Err(DAGError::InvalidConfiguration("two nodes have the same id".to_owned()));
        }
        let components = match instantiate(&nodes, registry) {
            Ok(components) => components,
            Err(e) => {
                proof {
                    if e is UnknownComponent {
                        let name = e->UnknownComponent_0;
                        let v = choose|v: int|
                            {
                                &&& 0 <= v < nodes@.len()
                                &&& name@ == (#[trigger] nodes@[v])@.component_type
                                &&& !registry.contains(name@)
                                &&& forall|w: int|
                                    0 <= w < v ==> registry.contains(
                                        (#[trigger] nodes@[w])@.component_type,
                                    )
                            };
                        assert(ir@.nodes[v] == nodes@[v]@);
                    }
                }
                return Err(e);
            },
        };
        let (input_types, output_types) = query_types(&components);
        proof {
            if nodes@.len() == 0 {
                lemma_empty_graph(node_models(nodes@));
            }
        }
        DAG::assemble(nodes, components, input_types, output_types, ir_hash, config, cache)
    }

    /// Builds the graph of nodes, given the component of each and the types
    /// that the components reported. The ids are checked first, then the
    /// dependencies are looked up, then the graph is searched for a circle
    /// and laid out in layers, then the types are checked; the first of
    /// these that fails gives the error, and where none fails the graph is
    /// built.
    pub fn assemble(
        nodes: Vec<NodeIR>,
        components: Vec<Configured>,
        input_types: Vec<DataType>,
        output_types: Vec<DataType>,
        ir_hash: u64,
        config: DAGConfig,
        cache: Option<Arc<Cache>>,
    ) -> (res: Result<DAG, DAGError>)
        ensures
            !fitting(
                node_models(nodes@),
                components@.len(),
                type_models(input_types@),
                type_models(output_types@),
            ) ==> (res matches Err(e) && e is InvalidConfiguration),
            fitting(
                node_models(nodes@),
                components@.len(),
                type_models(input_types@),
                type_models(output_types@),
            ) ==> match verdict(
                node_models(nodes@),
                type_models(input_types@),
                type_models(output_types@),
            ) {
                Verdict::UnknownDependency => res matches Err(
                    DAGError::UnknownDependency { node, dependency },
                ) && first_unknown(node_models(nodes@), node@, dependency@),
                Verdict::Cycle => res matches Err(DAGError::CycleDetected(ids)) && names_cycle(
                    node_models(nodes@),
                    ids@,
                ),
                Verdict::TypeMismatch => res matches Err(
                    DAGError::TypeMismatch { node, expected, got },
                ) && first_mismatch(
                    node_models(nodes@),
                    type_models(input_types@),
                    type_models(output_types@),
                    node@,
                    expected@,
                    got@,
                ),
                Verdict::Built => res matches Ok(dag) && {
                    &&& dag.well_formed()
                    &&& dag.nodes() == node_models(nodes@)
                    &&& dag.accepted() == type_models(input_types@)
                    &&& dag.produced() == type_models(output_types@)
                    &&& dag.fingerprint() == ir_hash
                    &&& dag.caching() == (config.enable_memory_cache && cache is Some)
                    &&& dag.has_cache() == (cache is Some)
                    &&& dag.log_path() == (match cache {
                        Some(held) => held.history_path(),
                        None => None,
                    })
                },
            },
    {
        let ghost models = node_models(nodes@);
        if components.len() != nodes.len() || input_types.len() != nodes.len()
            || output_types.len() != nodes.len() {
            return Err(
                DAGError::InvalidConfiguration(
                    "the components and types are not those of the nodes".to_owned(),
                ),
            );
        }
        if has_duplicate_ids(&nodes) {
            return Err(DAGError::InvalidConfiguration("two nodes have the same id".to_owned()));
        }
        let deps = match resolve(&nodes) {
            Ok(deps) => deps,
            Err(e) => {
                return Err(e);
            },
        };
        let found = match analyze(&deps) {
            Ok(found) => found,
            Err(path) => {
                proof {
                    assert(is_cycle(links(deps@), path@));
                    assert forall|i: int| 0 <= i < path@.len() implies (#[trigger] path@[i])
                        < nodes@.len() by {
                        assert(depends_on(
                            links(deps@),
                            path@[i] as int,
                            path@[if i + 1 < path@.len() {
                                i + 1
                            } else {
                                0
                            }] as int,
                        ));
                    }
                }
                let ids = path_ids(&nodes, &path);
                proof {
                    assert forall|i: int| 0 <= i < path@.len() implies (#[trigger] ids@[i])@
                        == models[path@[i] as int].id by {
                        assert(models[path@[i] as int] == nodes@[path@[i] as int]@);
                    }
                    assert(names_cycle(models, ids@));
                }
                return Err(DAGError::CycleDetected(ids));
            },
        };
        match check_types(&nodes, &deps, &input_types, &output_types) {
            Ok(_) => {},
            Err(e) => {
                proof {
                    let node = e->TypeMismatch_node;
                    let expected = e->TypeMismatch_expected;
                    let got = e->TypeMismatch_got;
                    let v = choose|v: int|
                        {
                            &&& 0 <= v < nodes@.len()
                            &&& node@ == nodes@[v]@.id
                            &&& expected@ == input_types@[v]@
                            &&& got@ == effective_type(
                                node_models(nodes@),
                                links(deps@),
                                type_models(output_types@),
                                v,
                            )
                            &&& !(#[trigger] accepts(
                                node_models(nodes@),
                                links(deps@),
                                type_models(input_types@),
                                type_models(output_types@),
                                v,
                            ))
                            &&& forall|w: int|
                                0 <= w < v ==> #[trigger] accepts(
                                    node_models(nodes@),
                                    links(deps@),
                                    type_models(input_types@),
                                    type_models(output_types@),
                                    w,
                                )
                        };
                    assert(models[v] == nodes@[v]@);
                    assert(type_models(input_types@)[v] == input_types@[v]@);
                    assert(mismatch_at(
                        models,
                        type_models(input_types@),
                        type_models(output_types@),
                        v,
                        node@,
                        expected@,
                        got@,
                    ));
                }
                return Err(e);
            },
        }
        let inputs = collect_seeds(&nodes);
        Ok(
            DAG {
                nodes,
                components,
                deps,
                layers: found.layers,
                rank: found.rank,
                input_types,
                output_types,
                inputs,
                ir_hash,
                config,
                cache,
            },
        )
    }

    /// The number of nodes.
    pub fn len(&self) -> (res: usize)
        ensures
            res == self.nodes().len(),
    {
        self.nodes.len()
    }

    /// The layers: the positions of the nodes of each, in the order in which
    /// the layers run.
    pub fn layers(&self) -> (res: &Vec<Vec<usize>>)
        ensures
            res@ == self.layering(),
    {
        &self.layers
    }

    /// The id of the node at a position.
    pub fn node_id(&self, v: usize) -> (res: Option<&String>)
        ensures
            match res {
                Some(id) => v < self.nodes().len() && id@ == self.nodes()[v as int].id,
                None => v >= self.nodes().len(),
            },
    {
        if v < self.nodes.len() {
            assert(node_models(self.nodes@)[v as int] == self.nodes@[v as int]@);
            Some(&self.nodes[v].id)
        } else {
            None
        }
    }

    /// The type that the node at a position accepts, as its component
    /// reported it when the graph was built.
    pub fn accepted_type(&self, v: usize) -> (res: Option<&DataType>)
        ensures
            match res {
                Some(t) => v < self.nodes().len() && t@ == self.accepted()[v as int],
                None => v >= self.nodes().len(),
            },
    {
        proof {
            use_type_invariant(self);
        }
        if v < self.input_types.len() {
            assert(type_models(self.input_types@)[v as int] == self.input_types@[v as int]@);
            Some(&self.input_types[v])
        } else {
            None
        }
    }

    /// The type that the node at a position produces, as its component
    /// reported it when the graph was built.
    pub fn produced_type(&self, v: usize) -> (res: Option<&DataType>)
        ensures
            match res {
                Some(t) => v < self.nodes().len() && t@ == self.produced()[v as int],
                None => v >= self.nodes().len(),
            },
    {
        proof {
            use_type_invariant(self);
        }
        if v < self.output_types.len() {
            assert(type_models(self.output_types@)[v as int] == self.output_types@[v as int]@);
            Some(&self.output_types[v])
        } else {
            None
        }
    }

    /// The positions of the nodes that the node at a position depends on, in
    /// their order.
    pub fn dependencies(&self, v: usize) -> (res: Option<&Vec<usize>>)
        ensures
            match res {
                Some(deps) => v < self.nodes().len() && deps@ == self.graph()[v as int],
                None => v >= self.nodes().len(),
            },
    {
        proof {
            use_type_invariant(self);
        }
        if v < self.deps.len() {
            Some(&self.deps[v])
        } else {
            None
        }
    }

    /// The fingerprint of the description.
    pub fn ir_hash(&self) -> (res: u64)
        ensures
            res == self.fingerprint(),
    {
        self.ir_hash
    }

    /// The seed inputs: the id and the seed of each source node that has
    /// one.
    pub fn seed_inputs(&self) -> (res: &Vec<(String, Data)>)
        ensures
            seeds(res@) == self.seeds(),
    {
        &self.inputs
    }

    /// What is handed to node `v`, given the outputs of the nodes that ran so
    /// far. `None` where `v` is no node, or where an output that it takes is
    /// not there.
    pub fn input_for(&self, outputs: &Vec<Option<Data>>, v: usize) -> (res: Option<Data>)
        ensures
            match res {
                Some(input) => supplied(self.graph(), outputs@, v as int) && input@ == gathered(
                    self.nodes(),
                    self.graph(),
                    values(outputs@),
                    v as int,
                ),
                None => !supplied(self.graph(), outputs@, v as int),
            },
    {
        proof {
            use_type_invariant(self);
        }
        if v >= self.nodes.len() || outputs.len() != self.nodes.len() {
            return None;
        }
        assert(links(self.deps@)[v as int] == self.deps@[v as int]@);
        let mut j: usize = 0;
        while j < self.deps[v].len()
            invariant
                j <= self.deps@[v as int]@.len(),
                v < self.deps@.len(),
                links(self.deps@)[v as int] == self.deps@[v as int]@,
                valid_graph(links(self.deps@)),
                outputs@.len() == self.deps@.len(),
                forall|i: int|
                    0 <= i < j ==> outputs@[(#[trigger] links(self.deps@)[v as int][i]) as int] is Some,
            decreases self.deps@[v as int]@.len() - j,
        {
            let u = self.deps[v][j];
            assert(u == links(self.deps@)[v as int][j as int]);
            if outputs[u].is_none() {
                return None;
            }
            j = j + 1;
        }
        Some(self.gather(outputs, v))
    }

    /// Runs node `v` on what is handed to it. Where its component fails, the
    /// failure names the node.
    pub fn run_node(&self, v: usize, input: Data) -> (res: Result<Data, DAGError>)
        requires
            v < self.nodes().len(),
        ensures
            res matches Err(e) ==> e matches DAGError::ComponentFailure { id, inner } && id@
                == self.nodes()[v as int].id,
    {
        proof {
            use_type_invariant(self);
        }
        assert(node_models(self.nodes@)[v as int] == self.nodes@[v as int]@);
        let outcome = self.components[v].component.execute(input);
        node_outcome(&self.nodes[v].id, outcome)
    }

    /// What is handed to node `v`, given the outputs of the nodes that it
    /// depends on.
    fn gather(&self, outputs: &Vec<Option<Data>>, v: usize) -> (res: Data)
        requires
            v < self.nodes().len(),
            outputs@.len() == self.nodes().len(),
            forall|j: int|
                0 <= j < self.graph()[v as int].len() ==> outputs@[(
                #[trigger] self.graph()[v as int][j]) as int] is Some,
        ensures
            res@ == gathered(self.nodes(), self.graph(), values(outputs@), v as int),
    {
        proof {
            use_type_invariant(self);
        }
        assert(node_models(self.nodes@)[v as int] == self.nodes@[v as int]@);
        assert(links(self.deps@)[v as int] == self.deps@[v as int]@);
        let k = self.deps[v].len();
        if k == 0 {
            match &self.nodes[v].inputs {
                Some(seed) => seed.clone(),
                None => Data::Null,
            }
        } else if k == 1 {
            let u = self.deps[v][0];
            assert(u == self.graph()[v as int][0]);
            match &outputs[u] {
                Some(value) => value.clone(),
                None => Data::Null,
            }
        } else {
            let mut items: Vec<Data> = Vec::new();
            let mut j: usize = 0;
            while j < k
                invariant
                    j <= k,
                    v < self.deps@.len(),
                    k == self.deps@[v as int]@.len(),
                    links(self.deps@)[v as int] == self.deps@[v as int]@,
                    valid_graph(links(self.deps@)),
                    outputs@.len() == self.deps@.len(),
                    items@.len() == j,
                    forall|i: int|
                        0 <= i < k ==> outputs@[(#[trigger] self.deps@[v as int]@[i]) as int] is Some,
                    forall|i: int|
                        0 <= i < j ==> items@[i]@ == outputs@[self.deps@[v as int]@[i] as int]->Some_0@,
                decreases k - j,
            {
                let u = self.deps[v][j];
                assert(u == self.deps@[v as int]@[j as int]);
                assert(u == links(self.deps@)[v as int][j as int]);
                match &outputs[u] {
                    Some(value) => {
                        items.push(value.clone());
                    },
                    None => {
                        assert(false);
                    },
                }
                j = j + 1;
            }
            let res = Data::List(items);
            assert(res@->List_0 =~= gathered(
                self.nodes(),
                self.graph(),
                values(outputs@),
                v as int,
            )->List_0);
            res
        }
    }

    /// Runs the nodes, layer by layer, each on what the nodes that it depends
    /// on produced. The first node that fails ends the run.
    pub fn run(&self) -> (res: Result<Vec<Data>, DAGError>)
        ensures
            match res {
                Ok(outputs) => outputs@.len() == self.nodes().len(),
                Err(e) => e matches DAGError::ComponentFailure { id, inner } && exists|v: int|
                    0 <= v < self.nodes().len() && id@ == (#[trigger] self.nodes()[v]).id,
            },
    {
        proof {
            use_type_invariant(self);
        }
        let n = self.nodes.len();
        let mut outputs: Vec<Option<Data>> = Vec::new();
        let mut v: usize = 0;
        while v < n
            invariant
                v <= n,
                outputs@.len() == v,
                forall|w: int| 0 <= w < v ==> (#[trigger] outputs@[w]) is None,
            decreases n - v,
        {
            outputs.push(None);
            v = v + 1;
        }
        let mut k: usize = 0;
        while k < self.layers.len()
            invariant
                k <= self.layers@.len(),
                n == self.nodes@.len(),
                self.well_formed(),
                self.components@.len() == n,
                outputs@.len() == n,
                forall|w: int| 0 <= w < n && self.rank@[w] < k ==> (#[trigger] outputs@[w]) is Some,
            decreases self.layers@.len() - k,
        {
            let layer = &self.layers[k];
            let mut i: usize = 0;
            while i < layer.len()
                invariant
                    i <= layer@.len(),
                    k < self.layers@.len(),
                    *layer == self.layers@[k as int],
                    n == self.nodes@.len(),
                    self.well_formed(),
                    self.components@.len() == n,
                    outputs@.len() == n,
                    forall|w: int|
                        0 <= w < n && self.rank@[w] < k ==> (#[trigger] outputs@[w]) is Some,
                    forall|a: int| 0 <= a < i ==> outputs@[(#[trigger] layer@[a]) as int] is Some,
                decreases layer@.len() - i,
            {
                let v = layer[i];
                assert(v == self.layers@[k as int]@[i as int]);
                assert(v < n && self.rank@[v as int] == k);
                assert forall|j: int| 0 <= j < self.graph()[v as int].len() implies outputs@[(
                #[trigger] self.graph()[v as int][j]) as int] is Some by {
                    let u = self.graph()[v as int][j];
                    assert(self.rank@[u as int] < self.rank@[v as int]);
                }
                let input = self.gather(&outputs, v);
                match self.run_node(v, input) {
                    Ok(output) => {
                        outputs.set(v, Some(output));
                    },
                    Err(e) => {
                        return Err(e);
                    },
                }
                i = i + 1;
            }
            proof {
                assert forall|w: int| 0 <= w < n && self.rank@[w] < k + 1 implies (
                #[trigger] outputs@[w]) is Some by {
                    if self.rank@[w] == k {
                        let j = choose|j: int|
                            0 <= j < self.layers@[self.rank@[w] as int]@.len()
                                && #[trigger] self.layers@[self.rank@[w] as int]@[j] == w;
                        assert(outputs@[layer@[j] as int] is Some);
                    }
                }
            }
            k = k + 1;
        }
        let mut produced: Vec<Data> = Vec::new();
        let mut v: usize = 0;
        while v < n
            invariant
                v <= n,
                n == self.nodes@.len(),
                self.well_formed(),
                outputs@.len() == n,
                produced@.len() == v,
                forall|w: int|
                    0 <= w < n && self.rank@[w] < self.layers@.len() ==> (#[trigger] outputs@[w]) is Some,
            decreases n - v,
        {
            assert(self.rank@[v as int] < self.layers@.len());
            match &outputs[v] {
                Some(value) => {
                    produced.push(value.clone());
                },
                None => {
                    assert(false);
                },
            }
            v = v + 1;
        }
        Ok(produced)
    }

    /// The result map of a run: the output of each node under the id of the
    /// node, in the order of the nodes.
    pub fn collect(&self, outputs: &Vec<Data>) -> (res: ResultMap)
        requires
            outputs@.len() == self.nodes().len(),
        ensures
            entries(res) == Seq::new(
                self.nodes().len(),
                |v: int| (self.nodes()[v].id, outputs@[v]@),
            ),
    {
        proof {
            use_type_invariant(self);
        }
        let n = self.nodes.len();
        let mut map = new_results();
        let mut v: usize = 0;
        while v < n
            invariant
                v <= n,
                n == self.nodes@.len(),
                outputs@.len() == n,
                distinct_ids(node_models(self.nodes@)),
                entries(map) == Seq::new(
                    v as nat,
                    |w: int| (node_models(self.nodes@)[w].id, outputs@[w]@),
                ),
            decreases n - v,
        {
            let ghost before = entries(map);
            assert(node_models(self.nodes@)[v as int] == self.nodes@[v as int]@);
            proof {
                assert forall|w: int| 0 <= w < before.len() implies before[w].0
                    != self.nodes@[v as int]@.id by {
                    assert(node_models(self.nodes@)[w].id != node_models(self.nodes@)[v as int].id);
                }
                lemma_index_absent(before, self.nodes@[v as int]@.id, 0);
            }
            insert_result(&mut map, self.nodes[v].id.clone(), outputs[v].clone());
            v = v + 1;
            assert(entries(map) =~= Seq::new(
                v as nat,
                |w: int| (node_models(self.nodes@)[w].id, outputs@[w]@),
            ));
        }
        map
    }

    /// What the cache holds for the graph and its seed inputs, where the
    /// graph looks its results up in a cache. The store of the cache decides
    /// what it still holds.
    pub fn lookup(&self) -> (res: Option<DAGResult>)
        ensures
            !self.caching() ==> res is None,
    {
        if !self.config.enable_memory_cache {
            return None;
        }
        match &self.cache {
            Some(cache) => cache.get_cached_result(self.ir_hash, &self.inputs),
            None => None,
        }
    }

    /// Runs the graph, given what the cache holds for it. Where the cache
    /// holds results, they are the results, and no node runs. Else the nodes
    /// run, and the results are stored in the cache where the graph has one:
    /// under the fingerprint of the graph and its seed inputs and, where a
    /// request id came with the run, under that id.
    pub fn execute_given(&self, held: Option<DAGResult>, request_id: Option<String>) -> (res: Result<
        Execution,
        DAGError,
    >)
        ensures
            match held {
                Some(r) => res matches Ok(run) && run.from_cache && run.append is None && entries(
                    run.results,
                ) == r@.node_results,
                None => match res {
                    Ok(run) => !run.from_cache && in_node_order(self.nodes(), entries(run.results))
                        && (run.append is Some ==> self.caching() && request_id is Some),
                    Err(e) => e matches DAGError::ComponentFailure { id, inner } && exists|v: int|
                        0 <= v < self.nodes().len() && id@ == (#[trigger] self.nodes()[v]).id,
                },
            },
    {
        if let Some(r) = held {
            return Ok(Execution { results: r.node_results, from_cache: true, append: None });
        }
        let outputs = match self.run() {
            Ok(outputs) => outputs,
            Err(e) => {
                return Err(e);
            },
        };
        Ok(self.complete(&outputs, request_id))
    }

    /// Ends a run in which every node ran: the outputs become the results,
    /// and the results are stored in the cache where the graph has one,
    /// under the fingerprint of the graph and its seed inputs and, where a
    /// request id came with the run, under that id.
    pub fn complete(&self, outputs: &Vec<Data>, request_id: Option<String>) -> (run: Execution)
        requires
            outputs@.len() == self.nodes().len(),
        ensures
            !run.from_cache,
            entries(run.results) == Seq::new(
                self.nodes().len(),
                |v: int| (self.nodes()[v].id, outputs@[v]@),
            ),
            run.append is Some ==> self.caching() && request_id is Some,
    {
        let results = self.collect(outputs);
        let mut append: Option<HistoryAppend> = None;
        if self.config.enable_memory_cache {
            match &self.cache {
                Some(cache) => {
                    match &request_id {
                        Some(id) => {
                            append = cache.store_result(self.ir_hash, &self.inputs, &results, id);
                        },
                        None => {
                            cache.store_unnamed(self.ir_hash, &self.inputs, &results);
                        },
                    }
                },
                None => {},
            }
        }
        Execution { results, from_cache: false, append }
    }

    /// Runs the graph. Where the graph has a cache and the cache holds
    /// results for the graph and its seed inputs, they are the results, and
    /// no node runs. Else the nodes run: the results hold the output of each
    /// node under the id of the node, in the order of the nodes.
    pub fn execute(&self, request_id: Option<String>) -> (res: Result<Execution, DAGError>)
        ensures
            match res {
                Ok(run) => (run.from_cache && self.caching() && run.append is None) || (
                !run.from_cache && in_node_order(self.nodes(), entries(run.results))),
                Err(e) => e matches DAGError::ComponentFailure { id, inner } && exists|v: int|
                    0 <= v < self.nodes().len() && id@ == (#[trigger] self.nodes()[v]).id,
            },
    {
        let held = self.lookup();
        self.execute_given(held, request_id)
    }

    /// The results of a past request: what the cache holds under the id of
    /// the request, or else the first record of the request in the lines of
    /// the history log.
    pub fn replay(&self, request_id: &str, log: &Vec<String>) -> (res: Result<ResultMap, DAGError>)
        ensures
            res matches Err(e) ==> e is CacheMiss,
            !self.has_cache() ==> res is Err,
            self.log_path() is Some && first_match(texts(log@), request_id@, 0) is Some ==> res is Ok,
    {
        match &self.cache {
            Some(cache) => replayed(cache.get_historical_result(request_id, log)),
            None => Err(DAGError::CacheMiss),
        }
    }
}

impl DAG {
    /// The layer that runs next, when `done` layers have run: the layer at
    /// that position. None runs where a node has failed or every layer has
    /// run.
    pub fn next_layer(&self, done: usize, failure: &Option<DAGError>) -> (res: Option<&Vec<usize>>)
        ensures
            match res {
                Some(layer) => failure is None && done < self.layering().len() && *layer
                    == self.layering()[done as int],
                None => failure is Some || done >= self.layering().len(),
            },
    {
        if failure.is_some() || done >= self.layers.len() {
            None
        } else {
            Some(&self.layers[done])
        }
    }

    /// How a run ends, given the outputs of the nodes and the failure of the
    /// run, if a node failed: with that failure; else with the results,
    /// stored as `complete` stores them. A run without a failure in which a
    /// node has no output ends as an invalid configuration.
    pub fn finish(
        &self,
        outputs: &Vec<Option<Data>>,
        failure: Option<DAGError>,
        request_id: Option<String>,
    ) -> (res: Result<Execution, DAGError>)
        ensures
            match failure {
                Some(e) => res == Err::<Execution, DAGError>(e),
                None => if all_there(self.nodes().len(), outputs@) {
                    res matches Ok(run) && !run.from_cache && entries(run.results) == Seq::new(
                        self.nodes().len(),
                        |v: int| (self.nodes()[v].id, outputs@[v]->Some_0@),
                    ) && (run.append is Some ==> self.caching() && request_id is Some)
                } else {
                    res matches Err(e) && e is InvalidConfiguration
                },
            },
    {
        if let Some(e) = failure {
            return Err(e);
        }
        if outputs.len() != self.nodes.len() {
            return Err(DAGError::InvalidConfiguration("a node has no output".to_owned()));
        }
        let mut produced: Vec<Data> = Vec::new();
        let mut v: usize = 0;
        while v < outputs.len()
            invariant
                v <= outputs@.len(),
                failure is None,
                outputs@.len() == self.nodes().len(),
                produced@.len() == v,
                forall|w: int| 0 <= w < v ==> (#[trigger] outputs@[w]) is Some && produced@[w]@
                    == outputs@[w]->Some_0@,
            decreases outputs@.len() - v,
        {
            match &outputs[v] {
                Some(value) => {
                    produced.push(value.clone());
                },
                None => {
                    return Err(DAGError::InvalidConfiguration("a node has no output".to_owned()));
                },
            }
            v = v + 1;
        }
        let run = self.complete(&produced, request_id);
        assert(entries(run.results) =~= Seq::new(
            self.nodes().len(),
            |v: int| (self.nodes()[v].id, outputs@[v]->Some_0@),
        ));
        Ok(run)
    }
}

/// Whether there is an output for each of `n` nodes.
pub open spec fn all_there(n: nat, outputs: Seq<Option<Data>>) -> bool {
    outputs.len() == n && forall|w: int| 0 <= w < n ==> (#[trigger] outputs[w]) is Some
}

/// Takes in what node `v` handed on: its output becomes the output of the
/// node; its failure becomes the failure of the run, unless a node failed
/// before.
pub fn settle(
    outputs: &mut Vec<Option<Data>>,
    failure: &mut Option<DAGError>,
    v: usize,
    outcome: Result<Data, DAGError>,
)
    requires
        v < old(outputs)@.len(),
    ensures
        match outcome {
            Ok(output) => final(outputs)@ == old(outputs)@.update(v as int, Some(output))
                && *final(failure) == *old(failure),
            Err(e) => final(outputs)@ == old(outputs)@ && *final(failure) == (match *old(failure) {
                Some(earlier) => Some(earlier),
                None => Some(e),
            }),
        },
{
    match outcome {
        Ok(output) => {
            outputs.set(v, Some(output));
        },
        Err(e) => {
            if failure.is_none() {
                *failure = Some(e);
            }
        },
    }
}

/// What a node hands on, given what its component gave: the output, or a
/// failure that names the node and holds what the component failed with.
pub fn node_outcome(id: &String, outcome: Result<Data, DAGError>) -> (res: Result<Data, DAGError>)
    ensures
        match outcome {
            Ok(output) => res == Ok::<Data, DAGError>(output),
            Err(cause) => res matches Err(DAGError::ComponentFailure { id: named, inner })
                && named@ == id@ && *inner == cause,
        },
{
    match outcome {
        Ok(output) => Ok(output),
        Err(cause) => Err(DAGError::ComponentFailure { id: id.clone(), inner: Box::new(cause) }),
    }
}

/// The results of a replay, given what was found for the request: its
/// results, or a miss where nothing was found.
pub fn replayed(found: Option<DAGResult>) -> (res: Result<ResultMap, DAGError>)
    ensures
        match found {
            Some(record) => res == Ok::<ResultMap, DAGError>(record.node_results),
            None => res matches Err(DAGError::CacheMiss),
        },
{
    match found {
        Some(record) => Ok(record.node_results),
        None => Err(DAGError::CacheMiss),
    }
}

/// In a graph that was built, a node runs in a later layer than every node
/// that it depends on: where `v` depends on `u`, `u` stands in layer `ku` and
/// `v` in layer `kv`, `ku` is below `kv`.
pub proof fn lemma_dependencies_run_first(
    dag: DAG,
    v: int,
    u: int,
    kv: int,
    iv: int,
    ku: int,
    iu: int,
)
    requires
        dag.well_formed(),
        depends_on(dag.graph(), v, u),
        0 <= kv < dag.layering().len() && 0 <= iv < dag.layering()[kv]@.len()
            && dag.layering()[kv]@[iv] == v,
        0 <= ku < dag.layering().len() && 0 <= iu < dag.layering()[ku]@.len()
            && dag.layering()[ku]@[iu] == u,
    ensures
        ku < kv,
{
    lemma_edges_go_forward(dag.graph(), dag.layering(), dag.ranks(), v, u, kv, iv, ku, iu);
}

/// In a graph that was built, every node stands in exactly one layer.
pub proof fn lemma_layers_cover(dag: DAG, v: int)
    requires
        dag.well_formed(),
        0 <= v < dag.nodes().len(),
    ensures
        exists|k: int, i: int|
            0 <= k < dag.layering().len() && 0 <= i < dag.layering()[k]@.len()
                && #[trigger] dag.layering()[k]@[i] == v,
        forall|k: int, i: int, l: int, j: int|
            0 <= k < dag.layering().len() && 0 <= i < dag.layering()[k]@.len() && 0 <= l
                < dag.layering().len() && 0 <= j < dag.layering()[l]@.len()
                && #[trigger] dag.layering()[k]@[i] == v && #[trigger] dag.layering()[l]@[j] == v
                ==> k == l && i == j,
{
    let layers = dag.layering();
    let rank = dag.ranks();
    assert(rank.len() == dag.nodes().len());
    let k = rank[v] as int;
    let i = choose|i: int| 0 <= i < layers[k]@.len() && #[trigger] layers[k]@[i] == v;
    assert(layers[k]@[i] == v);
    assert forall|k: int, i: int, l: int, j: int|
        0 <= k < layers.len() && 0 <= i < layers[k]@.len() && 0 <= l < layers.len() && 0 <= j
            < layers[l]@.len() && #[trigger] layers[k]@[i] == v && #[trigger] layers[l]@[j]
            == v implies k == l && i == j by {
        assert(rank[layers[k]@[i] as int] == k);
        assert(rank[layers[l]@[j] as int] == l);
        if i < j {
            assert(layers[k]@[i] < layers[k]@[j]);
        }
        if j < i {
            assert(layers[k]@[j] < layers[k]@[i]);
        }
    }
}

/// In a graph that was built, a node that depends on one node accepts what
/// that node produces.
pub proof fn lemma_edge_types(dag: DAG, v: int)
    requires
        dag.well_formed(),
        0 <= v < dag.nodes().len(),
        dag.graph()[v].len() == 1,
    ensures
        compatible(dag.produced()[dag.graph()[v][0] as int], dag.accepted()[v]),
{
    assert(accepts(dag.nodes(), dag.graph(), dag.accepted(), dag.produced(), v));
}

/// In a graph that was built, a node that depends on several nodes accepts
/// the list of what they produce: a list of the union of their types.
pub proof fn lemma_joined_types(dag: DAG, v: int)
    requires
        dag.well_formed(),
        0 <= v < dag.nodes().len(),
        dag.graph()[v].len() >= 2,
    ensures
        compatible(
            TypeModel::List(
                Box::new(
                    TypeModel::Union(
                        Seq::new(
                            dag.graph()[v].len(),
                            |j: int| dag.produced()[dag.graph()[v][j] as int],
                        ),
                    ),
                ),
            ),
            dag.accepted()[v],
        ),
{
    assert(accepts(dag.nodes(), dag.graph(), dag.accepted(), dag.produced(), v));
}

/// In a graph that was built, a node that depends on no node accepts its
/// seed, or the null value where it has none.
pub proof fn lemma_seed_types(dag: DAG, v: int)
    requires
        dag.well_formed(),
        0 <= v < dag.nodes().len(),
        dag.graph()[v].len() == 0,
    ensures
        compatible(
            match dag.nodes()[v].inputs {
                Some(seed) => type_of(seed),
                None => TypeModel::Null,
            },
            dag.accepted()[v],
        ),
{
    assert(accepts(dag.nodes(), dag.graph(), dag.accepted(), dag.produced(), v));
}

/// Whether `v` is a node and the outputs that it takes are there.
pub open spec fn supplied(deps: Seq<Seq<usize>>, outputs: Seq<Option<Data>>, v: int) -> bool {
    &&& 0 <= v < deps.len()
    &&& outputs.len() == deps.len()
    &&& forall|j: int| 0 <= j < deps[v].len() ==> outputs[(#[trigger] deps[v][j]) as int] is Some
}

/// The outputs as mathematical values.
pub open spec fn values(outputs: Seq<Option<Data>>) -> Seq<Option<DataModel>> {
    Seq::new(
        outputs.len(),
        |i: int|
            match outputs[i] {
                Some(d) => Some(d@),
                None => None,
            },
    )
}

/// What is handed to node `v`: its seed, or the null value, where it depends
/// on no node; the output of the node that it depends on, where that is one;
/// and else the list of the outputs of the nodes that it depends on, in their
/// order.
pub open spec fn gathered(
    nodes: Seq<NodeModel>,
    deps: Seq<Seq<usize>>,
    outputs: Seq<Option<DataModel>>,
    v: int,
) -> DataModel {
    let k = deps[v].len();
    if k == 0 {
        match nodes[v].inputs {
            Some(seed) => seed,
            None => DataModel::Null,
        }
    } else if k == 1 {
        outputs[deps[v][0] as int]->Some_0
    } else {
        DataModel::List(Seq::new(k, |j: int| outputs[deps[v][j] as int]->Some_0))
    }
}

/// Whether the entries are those of the nodes, one for each and in their
/// order.
pub open spec fn in_node_order(nodes: Seq<NodeModel>, entries: Seq<(Seq<char>, DataModel)>) -> bool {
    &&& entries.len() == nodes.len()
    &&& forall|v: int| 0 <= v < nodes.len() ==> (#[trigger] entries[v]).0 == nodes[v].id
}

/// What a run gives.
pub struct Execution {
    /// The output of each node under the id of the node.
    pub results: ResultMap,
    /// Whether the results come from the cache.
    pub from_cache: bool,
    /// What is to be appended to the history log.
    pub append: Option<HistoryAppend>,
}

} // verus!
