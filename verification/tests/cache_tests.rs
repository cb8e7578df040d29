use baselard::cache::{
    calculate_inputs_hash, create_cache_key, node_result_of, record_of, Cache, DAGResult,
};
use baselard::component::Data;
use baselard::history::{find_record, read_line};
use baselard::json::{Json, JsonNumber};
use baselard::results::ResultMap;

fn object(members: Vec<(&str, Json)>) -> Json {
    Json::Object(members.into_iter().map(|(key, value)| (key.to_string(), value)).collect())
}

fn text(s: &str) -> Json {
    Json::Text(s.to_string())
}

fn results(entries: Vec<(&str, Data)>) -> ResultMap {
    entries.into_iter().map(|(key, value)| (key.to_string(), value)).collect()
}

fn seeds(entries: Vec<(&str, Data)>) -> Vec<(String, Data)> {
    entries.into_iter().map(|(key, value)| (key.to_string(), value)).collect()
}

#[test]
fn the_fingerprint_of_seed_inputs_depends_on_ids_and_values() {
    let base = seeds(vec![("a", Data::Integer(1)), ("b", Data::Text("x".to_string()))]);
    let same = seeds(vec![("a", Data::Integer(1)), ("b", Data::Text("x".to_string()))]);
    assert_eq!(calculate_inputs_hash(&base), calculate_inputs_hash(&same));
    assert_ne!(
        calculate_inputs_hash(&base),
        calculate_inputs_hash(&seeds(vec![("a", Data::Integer(2)), ("b", Data::Text("x".to_string()))]))
    );
    assert_ne!(
        calculate_inputs_hash(&base),
        calculate_inputs_hash(&seeds(vec![("c", Data::Integer(1)), ("b", Data::Text("x".to_string()))]))
    );
    assert_ne!(calculate_inputs_hash(&base), calculate_inputs_hash(&seeds(vec![])));
    assert_eq!(calculate_inputs_hash(&seeds(vec![])), calculate_inputs_hash(&seeds(vec![])));
}

#[test]
fn the_cache_key_holds_both_fingerprints() {
    let inputs = seeds(vec![("a", Data::Integer(1))]);
    let key = create_cache_key(42, &inputs);
    assert_eq!(key.ir_hash, 42);
    assert_eq!(key.inputs_hash, calculate_inputs_hash(&inputs));
    assert_eq!(key, create_cache_key(42, &inputs));
    assert_ne!(key, create_cache_key(43, &inputs));
}

#[test]
fn a_cache_without_a_history_file_stores_under_the_fingerprint_alone() {
    let cache = Cache::new(None, 100);
    assert!(cache.history_file().is_none());
    let inputs = seeds(vec![("mult1", Data::Integer(5))]);
    let map = results(vec![("mult1", Data::Integer(15))]);
    let append = cache.store_result(7, &inputs, &map, &"r1".to_string());
    assert!(append.is_none());

    let held = cache.get_cached_result(7, &inputs).expect("what was stored");
    assert_eq!(held.request_id, "r1");
    assert_eq!(held.node_results, map);
    assert!(cache.get_cached_result(8, &inputs).is_none());
    assert!(cache.get_cached_result(7, &seeds(vec![("mult1", Data::Integer(6))])).is_none());
    assert!(cache.get_result_by_request_id("r1").is_none());
    assert!(cache.get_historical_result("r1", &vec![]).is_none());
}

#[test]
fn a_cache_with_a_history_file_stores_under_the_request_id_too() {
    let cache = Cache::new(Some("history.jsonl".to_string()), 100);
    assert_eq!(cache.history_file(), Some(&"history.jsonl".to_string()));
    let inputs = seeds(vec![("mult1", Data::Integer(5))]);
    let map = results(vec![("mult1", Data::Integer(15)), ("other", Data::Null)]);
    let append = cache
        .store_result_at(7, &inputs, &map, &"r1".to_string(), "2024-05-06T07:08:09Z".to_string())
        .expect("a line for the log");
    assert_eq!(append.path, "history.jsonl");
    assert_eq!(
        append.record,
        object(vec![
            ("request_id", text("r1")),
            ("timestamp", text("2024-05-06T07:08:09Z")),
            (
                "node_results",
                object(vec![
                    ("mult1", object(vec![("Integer", Json::Number(JsonNumber::PosInt(15)))])),
                    ("other", text("Null")),
                ]),
            ),
        ])
    );
    let held = cache.get_result_by_request_id("r1").expect("what was stored");
    assert_eq!(held.timestamp, "2024-05-06T07:08:09Z");
    assert_eq!(held.node_results, map);
    assert!(cache.get_result_by_request_id("r2").is_none());
    let replayed = cache.get_historical_result("r1", &vec![]).expect("what was stored");
    assert_eq!(replayed.node_results, map);
}

#[test]
fn the_time_of_a_stored_result_reads_as_a_point_in_time() {
    let cache = Cache::new(Some("history.jsonl".to_string()), 100);
    let map = results(vec![("n", Data::Integer(1))]);
    let append = cache.store_result(1, &seeds(vec![]), &map, &"r".to_string()).expect("a line");
    let written = match append.record.get("timestamp") {
        Some(Json::Text(time)) => time.clone(),
        _ => panic!("a record has a time"),
    };
    assert!(written.ends_with('Z'));
    let read = DAGResult::from_json(&append.record).expect("the record is read back");
    assert_eq!(read.timestamp, written);
    assert_eq!(read.request_id, "r");
    assert_eq!(read.node_results, map);
}

#[test]
fn the_value_of_a_node_is_found_in_the_results() {
    let cache = Cache::new(None, 100);
    let inputs = seeds(vec![]);
    let map = results(vec![("a", Data::Integer(1)), ("b", Data::Text("two".to_string()))]);
    cache.store_result(3, &inputs, &map, &"r".to_string());
    assert_eq!(cache.get_cached_node_result(3, &inputs, "a"), Some(Data::Integer(1)));
    assert_eq!(cache.get_cached_node_result(3, &inputs, "b"), Some(Data::Text("two".to_string())));
    assert_eq!(cache.get_cached_node_result(3, &inputs, "c"), None);
    assert_eq!(cache.get_cached_node_result(4, &inputs, "a"), None);

    let held = cache.get_cached_result(3, &inputs);
    assert_eq!(node_result_of(&held, "b"), Some(Data::Text("two".to_string())));
    assert_eq!(node_result_of(&None, "b"), None);
    assert_eq!(held.expect("what was stored").node_result("a"), Some(Data::Integer(1)));
}

#[test]
fn results_stored_without_a_request_id_are_found_by_the_fingerprint() {
    let cache = Cache::new(Some("history.jsonl".to_string()), 100);
    let inputs = seeds(vec![("a", Data::Integer(1))]);
    let map = results(vec![("a", Data::Integer(2))]);
    cache.store_unnamed(9, &inputs, &map);
    let held = cache.get_cached_result(9, &inputs).expect("what was stored");
    assert_eq!(held.request_id, "");
    assert_eq!(held.node_results, map);
    assert!(cache.get_result_by_request_id("").is_none());
}

#[test]
fn what_the_replay_keyspace_holds_comes_before_the_log() {
    let cache = Cache::new(Some("history.jsonl".to_string()), 100);
    let map = results(vec![("n", Data::Integer(1))]);
    cache.store_result(1, &seeds(vec![]), &map, &"r".to_string());
    let log = vec![
        r#"{"request_id":"r","timestamp":"2024-01-01T00:00:00Z","node_results":{"n":{"Integer":2}}}"#
            .to_string(),
    ];
    let held = cache.get_historical_result("r", &log).expect("what is held");
    assert_eq!(held.node_results, map);
    let found = cache
        .resolve_historical_result(None, "r", &log)
        .expect("what the log holds");
    assert_eq!(found.node_results, results(vec![("n", Data::Integer(2))]));
    let without = Cache::new(None, 100);
    assert!(without.resolve_historical_result(None, "r", &log).is_none());
    assert!(without.get_historical_result("r", &log).is_none());
}

#[test]
fn a_line_of_the_log_is_read_as_a_record() {
    let line = r#"{"request_id":"r1","timestamp":"2024-05-06T07:08:09.5Z","node_results":{"b":{"Text":"x"},"a":{"List":[{"Integer":-1},"Null",{"Float":2.5},{"Json":{"k":[true,null]}},"OneConsumerChannel"]}}}"#;
    let record = read_line(line).expect("a record");
    assert_eq!(record.request_id, "r1");
    assert_eq!(record.timestamp, "2024-05-06T07:08:09.500Z");
    let keys: Vec<&String> = record.node_results.keys().collect();
    assert_eq!(keys, vec!["b", "a"]);
    assert_eq!(record.node_results.get("b"), Some(&Data::Text("x".to_string())));
    match record.node_results.get("a") {
        Some(Data::List(items)) => {
            assert_eq!(items.len(), 5);
            assert_eq!(items[0], Data::Integer(-1));
            assert_eq!(items[1], Data::Null);
            assert_eq!(items[2], Data::Float(2.5f64.to_bits()));
            assert_eq!(
                items[3],
                Data::Json(object(vec![("k", Json::Array(vec![Json::Bool(true), Json::Null]))]))
            );
            assert_eq!(items[4], items[4].clone());
        }
        _ => panic!("a list"),
    }
}

#[test]
fn the_time_of_a_record_is_written_in_utc() {
    let line = r#"{"request_id":"r","timestamp":"2024-01-01T00:30:00+01:00","node_results":{}}"#;
    let record = read_line(line).expect("a record");
    assert_eq!(record.timestamp, "2023-12-31T23:30:00Z");
    assert_eq!(record.node_results.len(), 0);
}

#[test]
fn a_line_that_holds_no_record_is_not_read() {
    let refused = vec![
        "",
        "not a document",
        "{",
        "[]",
        "null",
        r#"{"request_id":"r","timestamp":"2024-01-01T00:00:00Z"}"#,
        r#"{"request_id":"r","node_results":{}}"#,
        r#"{"timestamp":"2024-01-01T00:00:00Z","node_results":{}}"#,
        r#"{"request_id":1,"timestamp":"2024-01-01T00:00:00Z","node_results":{}}"#,
        r#"{"request_id":"r","timestamp":"yesterday","node_results":{}}"#,
        r#"{"request_id":"r","timestamp":20240101,"node_results":{}}"#,
        r#"{"request_id":"r","timestamp":"2024-01-01T00:00:00Z","node_results":[]}"#,
        r#"{"request_id":"r","timestamp":"2024-01-01T00:00:00Z","node_results":{"n":{"Integer":"1"}}}"#,
        r#"{"request_id":"r","timestamp":"2024-01-01T00:00:00Z","node_results":{"n":{"Integer":1}}"#,
    ];
    for line in refused {
        assert!(read_line(line).is_none(), "{}", line);
    }
    let passed_over = r#"{"more":1,"request_id":"r","timestamp":"2024-01-01T00:00:00Z","node_results":{}}"#;
    assert!(read_line(passed_over).is_some());
}

#[test]
fn the_first_record_of_a_request_is_found_in_the_log() {
    let log: Vec<String> = vec![
        r#"{"request_id":"a","timestamp":"2024-01-01T00:00:00Z","node_results":{"n":{"Integer":1}}}"#,
        "a broken line",
        r#"{"request_id":"b","timestamp":"bad","node_results":{"n":{"Integer":2}}}"#,
        r#"{"request_id":"b","timestamp":"2024-01-01T00:00:00Z","node_results":{"n":{"Integer":3}}}"#,
        r#"{"request_id":"b","timestamp":"2024-01-01T00:00:00Z","node_results":{"n":{"Integer":4}}}"#,
        r#"{"request_id":"a","timestamp":"2024-01-01T00:00:00Z","node_results":{"n":{"Integer":5}}}"#,
    ]
    .into_iter()
    .map(String::from)
    .collect();
    let a = find_record(&log, "a").expect("a record of a");
    assert_eq!(a.node_results.get("n"), Some(&Data::Integer(1)));
    let b = find_record(&log, "b").expect("a record of b");
    assert_eq!(b.node_results.get("n"), Some(&Data::Integer(3)));
    assert!(find_record(&log, "c").is_none());
    assert!(find_record(&vec![], "a").is_none());
}

#[test]
fn a_record_is_read_back_from_its_written_form() {
    let record = DAGResult {
        request_id: "r9".to_string(),
        timestamp: "2024-05-06T07:08:09.123456Z".to_string(),
        node_results: results(vec![
            ("z", Data::Integer(1)),
            ("a", Data::List(vec![Data::Float(0.1f64.to_bits()), Data::Text("t".to_string())])),
        ]),
    };
    let read = DAGResult::from_json(&record.to_json()).expect("a record");
    assert_eq!(read.request_id, record.request_id);
    assert_eq!(read.timestamp, record.timestamp);
    assert_eq!(read.node_results, record.node_results);
    let keys: Vec<&String> = read.node_results.keys().collect();
    assert_eq!(keys, vec!["z", "a"]);
    let copy = record.clone();
    assert_eq!(copy.node_results, record.node_results);
    assert_eq!(copy.request_id, "r9");
}

#[test]
fn the_fingerprint_of_seed_inputs_does_not_depend_on_their_order() {
    let one = seeds(vec![
        ("b", Data::Text("x".to_string())),
        ("a", Data::Integer(1)),
        ("c", Data::List(vec![Data::Null])),
    ]);
    let other = seeds(vec![
        ("c", Data::List(vec![Data::Null])),
        ("b", Data::Text("x".to_string())),
        ("a", Data::Integer(1)),
    ]);
    assert_eq!(calculate_inputs_hash(&one), calculate_inputs_hash(&other));
    assert_eq!(create_cache_key(1, &one), create_cache_key(1, &other));
    let swapped = seeds(vec![
        ("a", Data::Text("x".to_string())),
        ("b", Data::Integer(1)),
        ("c", Data::List(vec![Data::Null])),
    ]);
    assert_ne!(calculate_inputs_hash(&one), calculate_inputs_hash(&swapped));

    let cache = Cache::new(None, 100);
    let map = results(vec![("n", Data::Integer(1))]);
    cache.store_result(5, &one, &map, &"r".to_string());
    let held = cache.get_cached_result(5, &other).expect("what was stored");
    assert_eq!(held.node_results, map);
}

#[test]
fn a_store_puts_the_record_of_the_run_into_each_keyspace() {
    let inputs = seeds(vec![("a", Data::Integer(1))]);
    let map = results(vec![("a", Data::Integer(2)), ("b", Data::Text("t".to_string()))]);
    let time = "2024-05-06T07:08:09Z".to_string();

    let record = record_of(&"r7".to_string(), time.clone(), &map);
    assert_eq!(record.request_id, "r7");
    assert_eq!(record.timestamp, time);
    assert_eq!(record.node_results, map);

    let with_log = Cache::new(Some("log.jsonl".to_string()), 10);
    let stored = with_log.entries_to_store(3, &inputs, &map, &"r7".to_string(), time.clone());
    assert_eq!(stored.key, create_cache_key(3, &inputs));
    assert_eq!(stored.record.request_id, "r7");
    assert_eq!(stored.record.timestamp, time);
    assert_eq!(stored.record.node_results, map);
    let (id, replay) = stored.replay.expect("a record for the replay keyspace");
    assert_eq!(id, "r7");
    assert_eq!(replay.request_id, "r7");
    assert_eq!(replay.timestamp, time);
    assert_eq!(replay.node_results, map);
    let append = stored.append.expect("a record for the log");
    assert_eq!(append.path, "log.jsonl");
    assert_eq!(append.record, record.to_json());

    let without = Cache::new(None, 10);
    let stored = without.entries_to_store(3, &inputs, &map, &"r7".to_string(), time);
    assert_eq!(stored.key, create_cache_key(3, &inputs));
    assert_eq!(stored.record.node_results, map);
    assert!(stored.replay.is_none());
    assert!(stored.append.is_none());
}

#[test]
fn a_record_says_whether_it_can_be_written_and_read_back() {
    let record = |time: &str, entries: Vec<(&str, Data)>| DAGResult {
        request_id: "r".to_string(),
        timestamp: time.to_string(),
        node_results: results(entries),
    };
    let good = record(
        "2024-05-06T07:08:09Z",
        vec![("a", Data::List(vec![Data::Float(2.5f64.to_bits()), Data::Null])), ("b", Data::Integer(1))],
    );
    assert!(good.is_storable());
    assert!(DAGResult::from_json(&good.to_json()).is_some());
    assert!(record("2024-05-06T07:08:09Z", vec![]).is_storable());
    // A time that is written otherwise than it stands, or that is none.
    assert!(!record("2024-05-06T07:08:09+00:00", vec![]).is_storable());
    assert!(!record("2024-05-06T09:08:09+02:00", vec![]).is_storable());
    assert!(!record("yesterday", vec![]).is_storable());
    // A float that is not finite, at whatever depth.
    assert!(!record("2024-05-06T07:08:09Z", vec![("a", Data::Float(f64::NAN.to_bits()))]).is_storable());
    assert!(!record(
        "2024-05-06T07:08:09Z",
        vec![("a", Data::List(vec![Data::List(vec![Data::Float(f64::INFINITY.to_bits())])]))]
    )
    .is_storable());
    assert!(Data::Float(0.5f64.to_bits()).is_storable());
    assert!(Data::List(vec![]).is_storable());
    assert!(!Data::Float(f64::NEG_INFINITY.to_bits()).is_storable());
    // What a store writes can be written and read back.
    let cache = Cache::new(Some("log".to_string()), 10);
    let map = results(vec![("n", Data::Integer(1))]);
    cache.store_result(1, &seeds(vec![]), &map, &"r".to_string());
    assert!(cache.get_result_by_request_id("r").expect("what was stored").is_storable());
}
