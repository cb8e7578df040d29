use baselard::cache::Cache;
use baselard::component::{Component, ComponentRegistry, Data, DataType};
use baselard::components::flexible_wildcard_processor::FlexibleWildcardProcessor;
use baselard::component::Configured;
use baselard::dag::{node_outcome, replayed, settle, DAGConfig, DAGError, DAG};
use baselard::dagir::{DAGIR, NodeIR};
use baselard::json::{Json, JsonNumber};
use std::sync::atomic::{AtomicUsize, Ordering};
use std::sync::Arc;

fn object(members: Vec<(&str, Json)>) -> Json {
    Json::Object(members.into_iter().map(|(key, value)| (key.to_string(), value)).collect())
}

fn text(s: &str) -> Json {
    Json::Text(s.to_string())
}

fn number(n: u64) -> Json {
    Json::Number(JsonNumber::PosInt(n))
}

fn node(id: &str, component_type: &str, inputs: Option<Json>, depends_on: Vec<&str>) -> Json {
    let mut members = vec![("id", text(id)), ("component_type", text(component_type))];
    if let Some(literal) = inputs {
        members.push(("inputs", literal));
    }
    if !depends_on.is_empty() {
        members.push(("depends_on", Json::Array(depends_on.into_iter().map(text).collect())));
    }
    object(members)
}

/// Adds one to an integer.
struct Next;

impl Component for Next {
    fn configure(_: Json) -> Self {
        Next
    }

    fn execute(&self, input: Data) -> Result<Data, DAGError> {
        match input {
            Data::Integer(n) => Ok(Data::Integer(n + 1)),
            other => Err(DAGError::TypeSystemFailure {
                component: "Next".to_string(),
                expected: DataType::Integer,
                received: other.get_type(),
            }),
        }
    }

    fn input_type(&self) -> DataType {
        DataType::Integer
    }

    fn output_type(&self) -> DataType {
        DataType::Integer
    }
}

/// Names what it is handed.
struct Named;

impl Component for Named {
    fn configure(_: Json) -> Self {
        Named
    }

    fn execute(&self, input: Data) -> Result<Data, DAGError> {
        Ok(Data::Text(input.get_type().name()))
    }

    fn input_type(&self) -> DataType {
        DataType::Union(vec![DataType::Null, DataType::Integer])
    }

    fn output_type(&self) -> DataType {
        DataType::Text
    }
}

/// Fails whatever it is handed.
struct Failing;

impl Component for Failing {
    fn configure(_: Json) -> Self {
        Failing
    }

    fn execute(&self, _: Data) -> Result<Data, DAGError> {
        Err(DAGError::InvalidConfiguration("no luck".to_string()))
    }

    fn input_type(&self) -> DataType {
        DataType::Integer
    }

    fn output_type(&self) -> DataType {
        DataType::Integer
    }
}

static COUNTED: AtomicUsize = AtomicUsize::new(0);

/// Counts how often it runs.
struct Counting;

impl Component for Counting {
    fn configure(_: Json) -> Self {
        Counting
    }

    fn execute(&self, input: Data) -> Result<Data, DAGError> {
        COUNTED.fetch_add(1, Ordering::SeqCst);
        Ok(input)
    }

    fn input_type(&self) -> DataType {
        DataType::Integer
    }

    fn output_type(&self) -> DataType {
        DataType::Integer
    }
}

fn registry() -> ComponentRegistry {
    let mut registry = ComponentRegistry::new();
    registry.register::<Next>("Next");
    registry.register::<Named>("Named");
    registry.register::<Failing>("Failing");
    registry.register::<Counting>("Counting");
    registry.register::<FlexibleWildcardProcessor>("Wildcard");
    registry
}

fn build(doc: &Json) -> Result<DAG, DAGError> {
    DAGIR::from_json(doc).and_then(|ir| DAG::from_ir(ir, &registry(), DAGConfig::default(), None))
}

#[test]
fn a_description_is_an_array_of_nodes_or_an_object_with_them() {
    let nodes = vec![node("a", "Next", Some(number(1)), vec![]), node("b", "Next", None, vec!["a"])];
    let bare = DAGIR::from_json(&Json::Array(nodes.clone())).expect("a graph");
    assert_eq!(bare.alias, None);
    assert_eq!(bare.nodes.len(), 2);
    assert_eq!(bare.nodes[0].id, "a");
    assert_eq!(bare.nodes[0].component_type, "Next");
    assert_eq!(bare.nodes[0].config, object(vec![]));
    assert_eq!(bare.nodes[0].inputs, Some(Data::Integer(1)));
    assert!(bare.nodes[0].depends_on.is_empty());
    assert_eq!(bare.nodes[1].inputs, None);
    assert_eq!(bare.nodes[1].depends_on, vec!["a".to_string()]);

    let labelled = DAGIR::from_json(&object(vec![
        ("alias", text("my graph")),
        ("nodes", Json::Array(nodes.clone())),
    ]))
    .expect("a graph");
    assert_eq!(labelled.alias, Some("my graph".to_string()));
    assert_eq!(labelled.nodes.len(), 2);

    let plain = DAGIR::from_json(&object(vec![("nodes", Json::Array(nodes))])).expect("a graph");
    assert_eq!(plain.alias, None);
    assert_eq!(DAGIR::from_json(&Json::Array(vec![])).expect("an empty graph").nodes.len(), 0);
}

#[test]
fn the_configuration_of_a_node_is_kept_as_it_stands() {
    let config = object(vec![("b", number(1)), ("a", Json::Array(vec![Json::Null]))]);
    let doc = Json::Array(vec![object(vec![
        ("id", text("n")),
        ("component_type", text("Next")),
        ("config", config.clone()),
    ])]);
    let ir = DAGIR::from_json(&doc).expect("a graph");
    assert_eq!(ir.nodes[0].config, config);
}

#[test]
fn a_literal_stands_for_a_seed() {
    let seed = |literal: Json| -> Option<Data> {
        let doc = Json::Array(vec![node("n", "Next", Some(literal), vec![])]);
        DAGIR::from_json(&doc).expect("a graph").nodes.remove(0).inputs
    };
    assert_eq!(seed(number(10)), Some(Data::Integer(10)));
    assert_eq!(seed(Json::Number(JsonNumber::NegInt(-10))), Some(Data::Integer(-10)));
    assert_eq!(seed(number(2147483647)), Some(Data::Integer(i32::MAX)));
    assert_eq!(
        seed(Json::Number(JsonNumber::Float(2.5f64.to_bits()))),
        Some(Data::Float(2.5f64.to_bits()))
    );
    assert_eq!(seed(text("not a number")), Some(Data::Text("not a number".to_string())));
    assert_eq!(seed(Json::Null), Some(Data::Null));
    assert_eq!(
        seed(Json::Array(vec![number(1), text("a"), Json::Array(vec![])])),
        Some(Data::List(vec![Data::Integer(1), Data::Text("a".to_string()), Data::List(vec![])]))
    );
    let doc = object(vec![("message", text("Hello"))]);
    assert_eq!(seed(doc.clone()), Some(Data::Json(doc)));
    assert_eq!(seed(Json::Bool(true)), Some(Data::Json(Json::Bool(true))));
    assert_eq!(seed(number(2147483648)), Some(Data::Json(number(2147483648))));
    assert_eq!(
        seed(Json::Number(JsonNumber::NegInt(-2147483649))),
        Some(Data::Json(Json::Number(JsonNumber::NegInt(-2147483649))))
    );
}

#[test]
fn a_description_of_the_wrong_shape_is_refused() {
    let refused = vec![
        Json::Null,
        text("nodes"),
        object(vec![]),
        object(vec![("nodes", object(vec![]))]),
        object(vec![("alias", number(1)), ("nodes", Json::Array(vec![]))]),
        Json::Array(vec![text("a")]),
        Json::Array(vec![object(vec![("component_type", text("Next"))])]),
        Json::Array(vec![object(vec![("id", text("a"))])]),
        Json::Array(vec![object(vec![("id", number(1)), ("component_type", text("Next"))])]),
        Json::Array(vec![object(vec![("id", text("")), ("component_type", text("Next"))])]),
        Json::Array(vec![object(vec![("id", text("a")), ("component_type", Json::Null)])]),
        Json::Array(vec![object(vec![
            ("id", text("a")),
            ("component_type", text("Next")),
            ("depends_on", text("b")),
        ])]),
        Json::Array(vec![object(vec![
            ("id", text("a")),
            ("component_type", text("Next")),
            ("depends_on", Json::Array(vec![number(1)])),
        ])]),
        Json::Array(vec![node("a", "Next", None, vec![]), node("a", "Next", None, vec![])]),
    ];
    for doc in refused {
        match DAGIR::from_json(&doc) {
            Err(DAGError::InvalidConfiguration(_)) => {}
            _ => panic!("refused as an invalid configuration: {:?}", doc),
        }
    }
}

#[test]
fn an_unknown_component_is_named() {
    let doc = Json::Array(vec![
        node("a", "Next", Some(number(1)), vec![]),
        node("b", "NoSuch", None, vec!["a"]),
        node("c", "NoneEither", None, vec!["zzz"]),
    ]);
    match build(&doc) {
        Err(e) => {
            assert!(matches!(&e, DAGError::UnknownComponent(name) if name == "NoSuch"));
            assert_eq!(e.to_string(), "Unknown component type: NoSuch");
        }
        Ok(_) => panic!("an unknown component is refused"),
    }
}

#[test]
fn an_unknown_dependency_is_named() {
    let doc = Json::Array(vec![
        node("a", "Next", Some(number(1)), vec![]),
        node("b", "Next", None, vec!["a"]),
        node("c", "Wildcard", None, vec!["a", "missing", "gone"]),
    ]);
    match build(&doc) {
        Err(e) => {
            assert!(matches!(
                &e,
                DAGError::UnknownDependency { node, dependency } if node == "c" && dependency == "missing"
            ));
            assert_eq!(e.to_string(), "Node c depends on unknown node missing");
        }
        Ok(_) => panic!("an unknown dependency is refused"),
    }
}

fn is_circle(doc: &Json, ids: &Vec<String>) -> bool {
    let ir = DAGIR::from_json(doc).expect("a graph");
    let find = |id: &String| -> &NodeIR { ir.nodes.iter().find(|n| &n.id == id).expect("a node") };
    !ids.is_empty()
        && (0..ids.len()).all(|i| find(&ids[i]).depends_on.contains(&ids[(i + 1) % ids.len()]))
}

#[test]
fn a_circle_is_refused() {
    let docs = vec![
        Json::Array(vec![node("a", "Next", None, vec!["a"])]),
        Json::Array(vec![node("a", "Next", None, vec!["b"]), node("b", "Next", None, vec!["a"])]),
        Json::Array(vec![
            node("s", "Next", Some(number(1)), vec![]),
            node("a", "Next", None, vec!["s"]),
            node("b", "Wildcard", None, vec!["a", "d"]),
            node("c", "Next", None, vec!["b"]),
            node("d", "Next", None, vec!["c"]),
            node("e", "Next", None, vec!["s"]),
        ]),
    ];
    for doc in docs {
        match build(&doc) {
            Err(DAGError::CycleDetected(ids)) => {
                assert!(is_circle(&doc, &ids), "{:?}", ids);
            }
            _ => panic!("a circle is refused"),
        }
    }
    let e = DAGError::CycleDetected(vec!["b".to_string(), "d".to_string(), "c".to_string()]);
    assert_eq!(e.to_string(), "Cycle detected: b -> d -> c");
}

#[test]
fn what_reaches_a_node_must_be_what_it_accepts() {
    let mismatch = |doc: Json| -> (String, DataType, DataType) {
        match build(&doc) {
            Err(DAGError::TypeMismatch { node, expected, got }) => (node, expected, got),
            _ => panic!("a type mismatch"),
        }
    };
    assert_eq!(
        mismatch(Json::Array(vec![node("a", "Next", Some(text("one")), vec![])])),
        ("a".to_string(), DataType::Integer, DataType::Text)
    );
    assert_eq!(
        mismatch(Json::Array(vec![node("a", "Next", None, vec![])])),
        ("a".to_string(), DataType::Integer, DataType::Null)
    );
    assert_eq!(
        mismatch(Json::Array(vec![
            node("a", "Named", None, vec![]),
            node("b", "Next", None, vec!["a"]),
        ])),
        ("b".to_string(), DataType::Integer, DataType::Text)
    );
    assert_eq!(
        mismatch(Json::Array(vec![
            node("a", "Next", Some(number(1)), vec![]),
            node("b", "Next", Some(number(1)), vec![]),
            node("c", "Next", None, vec!["a", "b"]),
        ])),
        (
            "c".to_string(),
            DataType::Integer,
            DataType::List(Box::new(DataType::Union(vec![DataType::Integer, DataType::Integer])))
        )
    );
    let e = DAGError::TypeMismatch {
        node: "transform1".to_string(),
        expected: DataType::Json,
        got: DataType::Integer,
    };
    assert_eq!(e.to_string(), "Type mismatch at node transform1: Expected Json, got Integer");
}

#[test]
fn the_layers_follow_the_dependencies() {
    // A diamond with a tail, not listed in the order in which it runs.
    let doc = Json::Array(vec![
        node("join", "Wildcard", None, vec!["left", "right"]),
        node("left", "Next", None, vec!["source"]),
        node("source", "Next", Some(number(1)), vec![]),
        node("right", "Named", None, vec!["source"]),
        node("alone", "Named", None, vec![]),
        node("tail", "Wildcard", None, vec!["join"]),
    ]);
    let dag = build(&doc).expect("a graph");
    assert_eq!(dag.len(), 6);
    assert_eq!(dag.layers(), &vec![vec![2, 4], vec![1, 3], vec![0], vec![5]]);
    assert_eq!(dag.node_id(0), Some(&"join".to_string()));
    assert_eq!(dag.node_id(5), Some(&"tail".to_string()));
    assert_eq!(dag.node_id(6), None);
}

#[test]
fn the_results_stand_in_the_order_of_the_nodes() {
    let doc = Json::Array(vec![
        node("join", "Wildcard", None, vec!["left", "right"]),
        node("left", "Next", None, vec!["source"]),
        node("source", "Next", Some(number(1)), vec![]),
        node("right", "Named", None, vec!["source"]),
        node("alone", "Named", None, vec![]),
    ]);
    let dag = build(&doc).expect("a graph");
    let run = dag.execute(None).expect("a run");
    assert!(!run.from_cache);
    assert!(run.append.is_none());
    let keys: Vec<&String> = run.results.keys().collect();
    assert_eq!(keys, vec!["join", "left", "source", "right", "alone"]);
    assert_eq!(run.results.get("source"), Some(&Data::Integer(2)));
    assert_eq!(run.results.get("left"), Some(&Data::Integer(3)));
    assert_eq!(run.results.get("right"), Some(&Data::Text("Integer".to_string())));
    assert_eq!(run.results.get("alone"), Some(&Data::Text("Null".to_string())));
    assert_eq!(
        run.results.get("join"),
        Some(&Data::Json(object(vec![
            ("type", text("list")),
            (
                "values",
                Json::Array(vec![
                    object(vec![("type", text("integer")), ("value", number(3))]),
                    object(vec![("type", text("text")), ("value", text("Integer"))]),
                ]),
            ),
        ])))
    );
}

#[test]
fn an_empty_graph_runs_to_no_results() {
    let dag = build(&Json::Array(vec![])).expect("a graph");
    assert_eq!(dag.len(), 0);
    assert!(dag.layers().is_empty());
    let run = dag.execute(None).expect("a run");
    assert!(run.results.is_empty());
}

#[test]
fn a_component_that_fails_ends_the_run() {
    let doc = Json::Array(vec![
        node("a", "Next", Some(number(1)), vec![]),
        node("b", "Failing", None, vec!["a"]),
        node("c", "Next", None, vec!["b"]),
    ]);
    let dag = build(&doc).expect("a graph");
    match dag.execute(None) {
        Err(e) => {
            assert!(matches!(
                &e,
                DAGError::ComponentFailure { id, inner }
                    if id == "b" && matches!(**inner, DAGError::InvalidConfiguration(_))
            ));
            assert_eq!(e.to_string(), "Component b failed: Invalid configuration: no luck");
        }
        Ok(_) => panic!("the run fails"),
    }
}

#[test]
fn the_seed_inputs_are_those_of_the_source_nodes() {
    let doc = Json::Array(vec![
        node("a", "Next", Some(number(1)), vec![]),
        node("b", "Next", Some(number(2)), vec!["a"]),
        node("c", "Named", None, vec![]),
        node("d", "Named", Some(number(4)), vec![]),
    ]);
    let dag = build(&doc).expect("a graph");
    assert_eq!(
        dag.seed_inputs(),
        &vec![("a".to_string(), Data::Integer(1)), ("d".to_string(), Data::Integer(4))]
    );
}

#[test]
fn the_fingerprint_of_a_graph_leaves_the_seeds_out() {
    let hash = |doc: Json| DAGIR::from_json(&doc).expect("a graph").calculate_hash();
    let with = |config: Json, inputs: u64, depends_on: Vec<&str>| {
        let mut members = vec![
            ("id", text("b")),
            ("component_type", text("Next")),
            ("config", config),
            ("inputs", number(inputs)),
        ];
        if !depends_on.is_empty() {
            members.push(("depends_on", Json::Array(depends_on.into_iter().map(text).collect())));
        }
        Json::Array(vec![
            node("a", "Next", Some(number(1)), vec![]),
            node("c", "Next", Some(number(1)), vec![]),
            object(members),
        ])
    };
    let config = object(vec![("x", number(1)), ("y", number(2))]);
    let base = hash(with(config.clone(), 1, vec!["a", "c"]));
    assert_eq!(base, hash(with(config.clone(), 1, vec!["a", "c"])));
    assert_eq!(base, hash(with(config.clone(), 2, vec!["a", "c"])));
    assert_eq!(base, hash(with(object(vec![("y", number(2)), ("x", number(1))]), 1, vec!["a", "c"])));
    assert_ne!(base, hash(with(object(vec![("x", number(1)), ("y", number(3))]), 1, vec!["a", "c"])));
    assert_ne!(base, hash(with(config.clone(), 1, vec!["c", "a"])));
    assert_ne!(base, hash(with(config.clone(), 1, vec!["a"])));
    assert_ne!(base, hash(Json::Array(vec![])));

    let dag = build(&with(config, 1, vec![])).expect("a graph");
    assert_eq!(dag.ir_hash(), hash(with(object(vec![("x", number(1)), ("y", number(2))]), 5, vec![])));
}

#[test]
fn a_second_run_takes_its_results_from_the_cache() {
    let cache = Arc::new(Cache::new(None, 100));
    let doc = Json::Array(vec![
        node("a", "Counting", Some(number(1)), vec![]),
        node("b", "Counting", None, vec!["a"]),
    ]);
    let ir = DAGIR::from_json(&doc).expect("a graph");
    let dag = DAG::from_ir(ir, &registry(), DAGConfig::default(), Some(Arc::clone(&cache)))
        .expect("a graph");
    let before = COUNTED.load(Ordering::SeqCst);
    let first = dag.execute(None).expect("a run");
    assert!(!first.from_cache);
    assert_eq!(COUNTED.load(Ordering::SeqCst), before + 2);
    let second = dag.execute(Some("again".to_string())).expect("a run");
    assert!(second.from_cache);
    assert!(second.append.is_none());
    assert_eq!(COUNTED.load(Ordering::SeqCst), before + 2);
    assert_eq!(first.results, second.results);

    // Without the cache the nodes run again.
    let ir = DAGIR::from_json(&doc).expect("a graph");
    let uncached = DAG::from_ir(
        ir,
        &registry(),
        DAGConfig { enable_memory_cache: false },
        Some(Arc::clone(&cache)),
    )
    .expect("a graph");
    let third = uncached.execute(None).expect("a run");
    assert!(!third.from_cache);
    assert_eq!(COUNTED.load(Ordering::SeqCst), before + 4);
    assert_eq!(third.results, first.results);
}

#[test]
fn a_run_that_is_held_is_not_made_again() {
    let doc = Json::Array(vec![node("a", "Failing", Some(number(1)), vec![])]);
    let dag = build(&doc).expect("a graph");
    assert!(dag.lookup().is_none());
    let held = baselard::cache::DAGResult {
        request_id: "r".to_string(),
        timestamp: "2024-01-01T00:00:00Z".to_string(),
        node_results: vec![("a".to_string(), Data::Integer(9))].into_iter().collect(),
    };
    let run = dag.execute_given(Some(held), None).expect("what is held");
    assert!(run.from_cache);
    assert_eq!(run.results.get("a"), Some(&Data::Integer(9)));
    assert!(dag.execute_given(None, None).is_err());
}

#[test]
fn a_replay_without_a_record_is_a_miss() {
    let doc = Json::Array(vec![node("a", "Next", Some(number(1)), vec![])]);
    let dag = build(&doc).expect("a graph");
    assert!(matches!(dag.replay("r", &vec![]), Err(DAGError::CacheMiss)));
    let cache = Arc::new(Cache::new(Some("log".to_string()), 10));
    let ir = DAGIR::from_json(&doc).expect("a graph");
    let cached = DAG::from_ir(ir, &registry(), DAGConfig::default(), Some(cache)).expect("a graph");
    assert!(matches!(cached.replay("r", &vec![]), Err(DAGError::CacheMiss)));
    assert_eq!(DAGError::CacheMiss.to_string(), "Cache miss");
    let log = vec![
        r#"{"request_id":"r","timestamp":"2024-01-01T00:00:00Z","node_results":{"a":{"Integer":2}}}"#
            .to_string(),
    ];
    let replayed = cached.replay("r", &log).expect("a record");
    assert_eq!(replayed.get("a"), Some(&Data::Integer(2)));
}

#[test]
fn a_graph_built_by_hand_is_checked_for_its_ids() {
    let hand = |id: &str| NodeIR {
        id: id.to_string(),
        component_type: "Next".to_string(),
        config: object(vec![]),
        inputs: Some(Data::Integer(1)),
        depends_on: vec![],
    };
    let ir = DAGIR { alias: None, nodes: vec![hand("a"), hand("a")] };
    assert!(matches!(
        DAG::from_ir(ir, &registry(), DAGConfig::default(), None),
        Err(DAGError::InvalidConfiguration(_))
    ));
    let ir = DAGIR { alias: None, nodes: vec![hand("a"), hand("b")] };
    assert!(DAG::from_ir(ir, &registry(), DAGConfig::default(), None).is_ok());
    assert!(DAGConfig::default().enable_memory_cache);
}

#[test]
fn every_error_says_what_went_wrong() {
    let union = DataType::Union(vec![
        DataType::Integer,
        DataType::List(Box::new(DataType::Text)),
        DataType::OneConsumerChannel(Box::new(DataType::Float)),
    ]);
    assert_eq!(union.name(), "Union([Integer, List(Text), OneConsumerChannel(Float)])");
    assert_eq!(DataType::Union(vec![]).name(), "Union([])");
    assert_eq!(DataType::Null.name(), "Null");
    assert_eq!(
        DAGError::InvalidConfiguration("a node has no id".to_string()).to_string(),
        "Invalid configuration: a node has no id"
    );
    assert_eq!(
        DAGError::TypeSystemFailure {
            component: "Multiplier".to_string(),
            expected: union,
            received: DataType::Json,
        }
        .to_string(),
        "Type system failure in component Multiplier: Expected Union([Integer, List(Text), \
         OneConsumerChannel(Float)]), received Json"
    );
    assert_eq!(DAGError::CycleDetected(vec![]).to_string(), "Cycle detected: ");
    assert_eq!(DAGError::CycleDetected(vec!["a".to_string()]).to_string(), "Cycle detected: a");
}

#[test]
fn an_error_leaves_the_engine_as_an_invalid_configuration() {
    let wrapped = DAGError::UnknownComponent("NoSuch".to_string()).into_invalid_configuration();
    assert!(matches!(
        &wrapped,
        DAGError::InvalidConfiguration(text) if text == "Unknown component type: NoSuch"
    ));
    let kept = DAGError::InvalidConfiguration("as it is".to_string()).into_invalid_configuration();
    assert!(matches!(&kept, DAGError::InvalidConfiguration(text) if text == "as it is"));
    let miss = DAGError::CacheMiss.into_invalid_configuration();
    assert_eq!(miss.to_string(), "Invalid configuration: Cache miss");
}

#[test]
fn a_registry_lists_its_names_in_the_order_of_their_registration() {
    let mut registry = ComponentRegistry::new();
    assert!(registry.registered().is_empty());
    registry.register::<Next>("Next");
    registry.register::<Named>("Named");
    registry.register::<Failing>("Next");
    assert_eq!(registry.registered(), vec!["Next".to_string(), "Named".to_string()]);
    let made = registry.get("Next").expect("a factory").build(Json::Null);
    assert!(made.component.execute(Data::Integer(1)).is_err());
}

#[test]
fn every_node_of_a_graph_accepts_what_reaches_it() {
    let doc = Json::Array(vec![
        node("join", "Wildcard", None, vec!["left", "right"]),
        node("left", "Next", None, vec!["source"]),
        node("source", "Next", Some(number(1)), vec![]),
        node("right", "Named", None, vec!["source"]),
        node("tail", "Wildcard", None, vec!["join"]),
    ]);
    let dag = build(&doc).expect("a graph");
    let rank = |v: usize| dag.layers().iter().position(|layer| layer.contains(&v)).expect("a layer");
    for v in 0..dag.len() {
        let deps = dag.dependencies(v).expect("a node");
        let accepted = dag.accepted_type(v).expect("a node");
        for u in deps {
            assert!(rank(*u) < rank(v));
        }
        if deps.len() == 1 {
            assert!(dag.produced_type(deps[0]).expect("a node").is_compatible_with(accepted));
        }
        if deps.len() > 1 {
            let arms = deps.iter().map(|u| dag.produced_type(*u).expect("a node").clone()).collect();
            assert!(DataType::List(Box::new(DataType::Union(arms))).is_compatible_with(accepted));
        }
    }
    assert_eq!(dag.dependencies(0), Some(&vec![1, 3]));
    assert_eq!(dag.accepted_type(1), Some(&DataType::Integer));
    assert_eq!(dag.produced_type(3), Some(&DataType::Text));
    assert_eq!(dag.produced_type(5), None);
    assert_eq!(dag.accepted_type(5), None);
    assert_eq!(dag.dependencies(5), None);
}

fn by_hand(id: &str, component_type: &str, inputs: Option<Data>, depends_on: Vec<&str>) -> NodeIR {
    NodeIR {
        id: id.to_string(),
        component_type: component_type.to_string(),
        config: object(vec![]),
        inputs,
        depends_on: depends_on.into_iter().map(String::from).collect(),
    }
}

fn made(nodes: &Vec<NodeIR>) -> Vec<Configured> {
    let registry = registry();
    nodes
        .iter()
        .map(|n| registry.get(&n.component_type).expect("a factory").build(n.config.clone()))
        .collect()
}

fn assembled(
    nodes: Vec<NodeIR>,
    accepted: Vec<DataType>,
    produced: Vec<DataType>,
) -> Result<DAG, DAGError> {
    let components = made(&nodes);
    DAG::assemble(nodes, components, accepted, produced, 7, DAGConfig::default(), None)
}

#[test]
fn a_graph_is_assembled_from_the_types_that_are_given() {
    let nodes = || {
        vec![
            by_hand("a", "Next", Some(Data::Integer(1)), vec![]),
            by_hand("b", "Next", None, vec!["a"]),
            by_hand("c", "Next", None, vec!["a", "b"]),
        ]
    };
    let pair = DataType::List(Box::new(DataType::Union(vec![DataType::Integer, DataType::Text])));
    let dag = assembled(
        nodes(),
        vec![DataType::Integer, DataType::Integer, pair.clone()],
        vec![DataType::Integer, DataType::Text, DataType::Json],
    )
    .expect("a graph");
    assert_eq!(dag.len(), 3);
    assert_eq!(dag.ir_hash(), 7);
    assert_eq!(dag.layers(), &vec![vec![0], vec![1], vec![2]]);
    assert_eq!(dag.accepted_type(2), Some(&pair));
    assert_eq!(dag.produced_type(1), Some(&DataType::Text));
    assert!(dag.lookup().is_none());

    // The same nodes with other types: the types decide.
    match assembled(
        nodes(),
        vec![DataType::Integer, DataType::Integer, pair.clone()],
        vec![DataType::Integer, DataType::Integer, DataType::Json],
    ) {
        Err(DAGError::TypeMismatch { node, expected, got }) => {
            assert_eq!(node, "c");
            assert_eq!(expected, pair);
            assert_eq!(
                got,
                DataType::List(Box::new(DataType::Union(vec![DataType::Integer, DataType::Integer])))
            );
        }
        _ => panic!("a type mismatch"),
    }
    match assembled(
        nodes(),
        vec![DataType::Text, DataType::Text, DataType::Text],
        vec![DataType::Text, DataType::Text, DataType::Text],
    ) {
        Err(DAGError::TypeMismatch { node, expected, got }) => {
            assert_eq!(node, "a");
            assert_eq!(expected, DataType::Text);
            assert_eq!(got, DataType::Integer);
        }
        _ => panic!("a type mismatch"),
    }
}

#[test]
fn the_first_check_that_fails_ends_the_assembly() {
    let integers = |n: usize| vec![DataType::Integer; n];
    // Too few types for the nodes.
    let nodes = vec![by_hand("a", "Next", Some(Data::Integer(1)), vec![])];
    assert!(matches!(
        assembled(nodes, vec![], integers(1)),
        Err(DAGError::InvalidConfiguration(_))
    ));
    let nodes = vec![by_hand("a", "Next", Some(Data::Integer(1)), vec![])];
    assert!(matches!(
        DAG::assemble(nodes, vec![], integers(1), integers(1), 0, DAGConfig::default(), None),
        Err(DAGError::InvalidConfiguration(_))
    ));
    // An id twice, and an unknown dependency and a circle besides.
    let nodes = vec![
        by_hand("a", "Next", None, vec!["a", "zzz"]),
        by_hand("a", "Next", None, vec![]),
    ];
    assert!(matches!(
        assembled(nodes, integers(2), integers(2)),
        Err(DAGError::InvalidConfiguration(_))
    ));
    // An unknown dependency, and a circle and a type mismatch besides.
    let nodes = vec![
        by_hand("a", "Next", Some(Data::Text("t".to_string())), vec![]),
        by_hand("b", "Next", None, vec!["c", "b"]),
        by_hand("c", "Next", None, vec!["a", "x", "y"]),
    ];
    assert!(matches!(
        assembled(nodes, integers(3), integers(3)),
        Err(DAGError::UnknownDependency { node, dependency }) if node == "c" && dependency == "x"
    ));
    // A circle, and a type mismatch besides.
    let nodes = vec![
        by_hand("a", "Next", Some(Data::Text("t".to_string())), vec![]),
        by_hand("b", "Next", None, vec!["c"]),
        by_hand("c", "Next", None, vec!["b"]),
    ];
    match assembled(nodes, integers(3), integers(3)) {
        Err(DAGError::CycleDetected(ids)) => {
            assert!(ids == vec!["b".to_string(), "c".to_string()]
                || ids == vec!["c".to_string(), "b".to_string()]);
        }
        _ => panic!("a circle"),
    }
    // No nodes: nothing can fail.
    assert!(assembled(vec![], vec![], vec![]).is_ok());
}

#[test]
fn a_description_without_nodes_is_always_built() {
    let empty = ComponentRegistry::new();
    let ir = DAGIR { alias: Some("nothing".to_string()), nodes: vec![] };
    let dag = DAG::from_ir(ir, &empty, DAGConfig::default(), None).expect("a graph");
    assert_eq!(dag.len(), 0);
    let ir = DAGIR {
        alias: None,
        nodes: vec![by_hand("a", "Next", None, vec!["zzz"]), by_hand("b", "Next", None, vec![])],
    };
    assert!(matches!(
        DAG::from_ir(ir, &empty, DAGConfig::default(), None),
        Err(DAGError::UnknownComponent(name)) if name == "Next"
    ));
}

#[test]
fn a_node_hands_on_what_its_component_gave() {
    let id = "n1".to_string();
    assert_eq!(node_outcome(&id, Ok(Data::Integer(4))).expect("an output"), Data::Integer(4));
    assert_eq!(
        node_outcome(&id, Ok(Data::Text("t".to_string()))).expect("an output"),
        Data::Text("t".to_string())
    );
    match node_outcome(&id, Err(DAGError::CacheMiss)) {
        Err(DAGError::ComponentFailure { id, inner }) => {
            assert_eq!(id, "n1");
            assert!(matches!(*inner, DAGError::CacheMiss));
        }
        _ => panic!("a failure that names the node"),
    }
    match node_outcome(&id, Err(DAGError::UnknownComponent("x".to_string()))) {
        Err(DAGError::ComponentFailure { id, inner }) => {
            assert_eq!(id, "n1");
            assert!(matches!(*inner, DAGError::UnknownComponent(ref name) if name == "x"));
        }
        _ => panic!("a failure that names the node"),
    }
}

#[test]
fn a_replay_gives_the_results_that_were_found() {
    assert!(matches!(replayed(None), Err(DAGError::CacheMiss)));
    let record = baselard::cache::DAGResult {
        request_id: "r".to_string(),
        timestamp: "2024-01-01T00:00:00Z".to_string(),
        node_results: vec![("a".to_string(), Data::Integer(9)), ("b".to_string(), Data::Null)]
            .into_iter()
            .collect(),
    };
    let results = replayed(Some(record)).expect("the results");
    assert_eq!(results.len(), 2);
    assert_eq!(results.get("a"), Some(&Data::Integer(9)));
    assert_eq!(results.get("b"), Some(&Data::Null));
}

#[test]
fn a_description_that_is_refused_says_why() {
    let said = |doc: Json| DAGIR::from_json(&doc).expect_err("refused").to_string();
    assert_eq!(said(Json::Null), "Invalid configuration: a graph is neither an array nor an object");
    assert_eq!(
        said(object(vec![])),
        "Invalid configuration: a graph has no nodes that are an array"
    );
    assert_eq!(said(Json::Array(vec![text("a")])), "Invalid configuration: a node is not an object");
    assert_eq!(
        said(Json::Array(vec![object(vec![("id", text("")), ("component_type", text("Next"))])])),
        "Invalid configuration: a node has an empty id"
    );
    assert_eq!(
        said(Json::Array(vec![node("a", "Next", None, vec![]), node("a", "Next", None, vec![])])),
        "Invalid configuration: two nodes have the same id"
    );
}

#[test]
fn a_component_that_does_not_say_so_defers_nothing_and_refuses_nothing() {
    let next = Next::configure(Json::Null);
    assert!(!next.is_deferrable());
    assert!(next.configuration_error().is_none());
    let processor = FlexibleWildcardProcessor::configure(Json::Null);
    assert!(!processor.is_deferrable());
    assert!(processor.configuration_error().is_none());
}

#[test]
fn the_first_failure_of_a_run_is_kept() {
    let mut outputs: Vec<Option<Data>> = vec![None, None, None];
    let mut failure: Option<DAGError> = None;
    settle(&mut outputs, &mut failure, 1, Ok(Data::Integer(5)));
    assert_eq!(outputs, vec![None, Some(Data::Integer(5)), None]);
    assert!(failure.is_none());
    settle(&mut outputs, &mut failure, 0, Err(DAGError::UnknownComponent("first".to_string())));
    assert_eq!(outputs, vec![None, Some(Data::Integer(5)), None]);
    assert!(matches!(&failure, Some(DAGError::UnknownComponent(name)) if name == "first"));
    settle(&mut outputs, &mut failure, 2, Err(DAGError::CacheMiss));
    assert!(matches!(&failure, Some(DAGError::UnknownComponent(name)) if name == "first"));
    settle(&mut outputs, &mut failure, 2, Ok(Data::Null));
    assert_eq!(outputs, vec![None, Some(Data::Integer(5)), Some(Data::Null)]);
    settle(&mut outputs, &mut failure, 1, Ok(Data::Integer(6)));
    assert_eq!(outputs[1], Some(Data::Integer(6)));
}

#[test]
fn a_run_goes_layer_by_layer_until_a_node_fails() {
    let doc = Json::Array(vec![
        node("b", "Next", None, vec!["a"]),
        node("a", "Next", Some(number(1)), vec![]),
        node("c", "Named", None, vec![]),
    ]);
    let dag = build(&doc).expect("a graph");
    assert_eq!(dag.next_layer(0, &None), Some(&vec![1, 2]));
    assert_eq!(dag.next_layer(1, &None), Some(&vec![0]));
    assert_eq!(dag.next_layer(2, &None), None);
    assert_eq!(dag.next_layer(0, &Some(DAGError::CacheMiss)), None);
    assert_eq!(dag.next_layer(1, &Some(DAGError::CacheMiss)), None);

    // The run, step by step.
    let mut outputs: Vec<Option<Data>> = vec![None; dag.len()];
    let mut failure = None;
    let mut done = 0;
    while let Some(layer) = dag.next_layer(done, &failure) {
        for v in layer.clone() {
            let input = dag.input_for(&outputs, v).expect("what the node takes is there");
            let outcome = dag.run_node(v, input);
            settle(&mut outputs, &mut failure, v, outcome);
        }
        done += 1;
    }
    assert_eq!(done, 2);
    let run = dag.finish(&outputs, failure, None).expect("a run");
    assert!(!run.from_cache);
    let keys: Vec<&String> = run.results.keys().collect();
    assert_eq!(keys, vec!["b", "a", "c"]);
    assert_eq!(run.results.get("b"), Some(&Data::Integer(3)));
    assert_eq!(run.results.get("a"), Some(&Data::Integer(2)));
    assert_eq!(run.results.get("c"), Some(&Data::Text("Null".to_string())));
    assert_eq!(dag.execute(None).expect("a run").results, run.results);
}

#[test]
fn a_run_ends_with_its_failure_or_with_its_results() {
    let doc = Json::Array(vec![node("a", "Next", Some(number(1)), vec![])]);
    let dag = build(&doc).expect("a graph");
    assert!(matches!(
        dag.finish(&vec![Some(Data::Integer(2))], Some(DAGError::CacheMiss), None),
        Err(DAGError::CacheMiss)
    ));
    assert!(matches!(dag.finish(&vec![None], None, None), Err(DAGError::InvalidConfiguration(_))));
    assert!(matches!(dag.finish(&vec![], None, None), Err(DAGError::InvalidConfiguration(_))));
    assert!(matches!(
        dag.finish(&vec![Some(Data::Null), Some(Data::Null)], None, None),
        Err(DAGError::InvalidConfiguration(_))
    ));
    let run = dag.finish(&vec![Some(Data::Integer(2))], None, None).expect("a run");
    assert_eq!(run.results.get("a"), Some(&Data::Integer(2)));
    assert!(dag.input_for(&vec![], 0).is_none());
    assert!(dag.input_for(&vec![None], 1).is_none());
    assert_eq!(dag.input_for(&vec![None], 0), Some(Data::Integer(1)));
}

#[test]
fn the_last_registration_under_a_name_makes_the_components() {
    let mut registry = ComponentRegistry::new();
    registry.register::<Next>("one");
    registry.register::<Named>("two");
    let run = |registry: &ComponentRegistry, name: &str| {
        registry.get(name).expect("a factory").build(Json::Null).component.execute(Data::Integer(1))
    };
    assert_eq!(run(&registry, "one").expect("an output"), Data::Integer(2));
    assert_eq!(run(&registry, "two").expect("an output"), Data::Text("Integer".to_string()));
    registry.register::<Failing>("one");
    assert!(run(&registry, "one").is_err());
    assert_eq!(run(&registry, "two").expect("an output"), Data::Text("Integer".to_string()));
    registry.register::<Next>("three");
    assert!(run(&registry, "one").is_err());
    assert_eq!(run(&registry, "two").expect("an output"), Data::Text("Integer".to_string()));
    assert_eq!(run(&registry, "three").expect("an output"), Data::Integer(2));
}
