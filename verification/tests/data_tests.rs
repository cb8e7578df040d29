use baselard::component::{ChannelState, Data, DataType};
use baselard::json::{Json, JsonNumber};
use std::collections::hash_map::DefaultHasher;
use std::hash::Hasher;

fn object(members: Vec<(&str, Json)>) -> Json {
    Json::Object(members.into_iter().map(|(key, value)| (key.to_string(), value)).collect())
}

fn fingerprint(value: &Data) -> u64 {
    let mut hasher = DefaultHasher::new();
    value.hash(&mut hasher);
    hasher.finish()
}

#[test]
fn values_compare_by_what_they_hold() {
    assert_eq!(Data::Null, Data::Null);
    assert_eq!(Data::Integer(7), Data::Integer(7));
    assert_ne!(Data::Integer(7), Data::Integer(8));
    assert_ne!(Data::Integer(7), Data::Text("7".to_string()));
    assert_eq!(Data::Text("a".to_string()), Data::Text("a".to_string()));
    assert_ne!(Data::Text("a".to_string()), Data::Text("b".to_string()));
    assert_eq!(
        Data::List(vec![Data::Integer(1), Data::Text("x".to_string())]),
        Data::List(vec![Data::Integer(1), Data::Text("x".to_string())])
    );
    assert_ne!(
        Data::List(vec![Data::Integer(1)]),
        Data::List(vec![Data::Integer(1), Data::Integer(2)])
    );
    assert_eq!(Data::Json(Json::Bool(true)), Data::Json(Json::Bool(true)));
    assert_ne!(Data::Json(Json::Bool(true)), Data::Json(Json::Null));
}

#[test]
fn floats_compare_by_their_bits() {
    let nan = f64::NAN.to_bits();
    assert_eq!(Data::Float(nan), Data::Float(nan));
    assert_eq!(Data::Float(2.5f64.to_bits()), Data::Float(2.5f64.to_bits()));
    assert_ne!(Data::Float(0.0f64.to_bits()), Data::Float((-0.0f64).to_bits()));
    assert_ne!(Data::Float(2.5f64.to_bits()), Data::Float(2.75f64.to_bits()));
}

#[test]
fn channels_are_equal_only_when_both_are_consumed() {
    let consumed = Data::OneConsumerChannel(ChannelState::Consumed);
    let pending = Data::OneConsumerChannel(ChannelState::Pending);
    assert_eq!(consumed, Data::OneConsumerChannel(ChannelState::Consumed));
    assert_ne!(pending, Data::OneConsumerChannel(ChannelState::Pending));
    assert_ne!(pending, consumed);
    assert_ne!(consumed, pending);
    assert_ne!(
        Data::List(vec![Data::OneConsumerChannel(ChannelState::Pending)]),
        Data::List(vec![Data::OneConsumerChannel(ChannelState::Pending)])
    );
}

#[test]
fn every_value_has_its_type() {
    assert_eq!(Data::Null.get_type(), DataType::Null);
    assert_eq!(Data::Integer(1).get_type(), DataType::Integer);
    assert_eq!(Data::Float(1.5f64.to_bits()).get_type(), DataType::Float);
    assert_eq!(Data::Text("t".to_string()).get_type(), DataType::Text);
    assert_eq!(Data::Json(Json::Null).get_type(), DataType::Json);
    assert_eq!(
        Data::List(vec![Data::Text("t".to_string()), Data::Integer(1)]).get_type(),
        DataType::List(Box::new(DataType::Text))
    );
    assert_eq!(
        Data::List(vec![Data::List(vec![])]).get_type(),
        DataType::List(Box::new(DataType::List(Box::new(DataType::Integer))))
    );
    assert_eq!(Data::List(vec![]).get_type(), DataType::List(Box::new(DataType::Integer)));
    assert_eq!(
        Data::OneConsumerChannel(ChannelState::Pending).get_type(),
        DataType::OneConsumerChannel(Box::new(DataType::Integer))
    );
    assert_eq!(
        Data::OneConsumerChannel(ChannelState::Consumed).get_type(),
        DataType::OneConsumerChannel(Box::new(DataType::Integer))
    );
    assert_eq!(
        Data::List(vec![Data::OneConsumerChannel(ChannelState::Pending)]).get_type(),
        DataType::List(Box::new(DataType::OneConsumerChannel(Box::new(DataType::Integer))))
    );
}

#[test]
fn values_are_taken_apart_by_case() {
    assert_eq!(Data::Integer(-4).as_integer(), Some(-4));
    assert_eq!(Data::Text("4".to_string()).as_integer(), None);
    assert_eq!(Data::Text("hello".to_string()).as_text(), Some("hello"));
    assert_eq!(Data::Integer(1).as_text(), None);
    let list = Data::List(vec![Data::Integer(1), Data::Null]);
    assert_eq!(list.as_list(), Some(&[Data::Integer(1), Data::Null][..]));
    assert_eq!(Data::Null.as_list(), None);
}

#[test]
fn a_copy_equals_what_it_was_made_of() {
    let value = Data::List(vec![
        Data::Integer(3),
        Data::Text("x".to_string()),
        Data::Json(object(vec![("k", Json::Array(vec![Json::Bool(false)]))])),
        Data::Float(1.25f64.to_bits()),
        Data::List(vec![Data::Null]),
    ]);
    assert_eq!(value.clone(), value);
    assert!(matches!(
        Data::OneConsumerChannel(ChannelState::Pending).clone(),
        Data::OneConsumerChannel(ChannelState::Pending)
    ));
}

#[test]
fn values_are_written_with_the_name_of_their_case() {
    assert_eq!(Data::Null.to_json(), Json::Text("Null".to_string()));
    assert_eq!(
        Data::Integer(25).to_json(),
        object(vec![("Integer", Json::Number(JsonNumber::PosInt(25)))])
    );
    assert_eq!(
        Data::Integer(-3).to_json(),
        object(vec![("Integer", Json::Number(JsonNumber::NegInt(-3)))])
    );
    assert_eq!(
        Data::Float(2.5f64.to_bits()).to_json(),
        object(vec![("Float", Json::Number(JsonNumber::Float(2.5f64.to_bits())))])
    );
    assert_eq!(
        Data::Text("hi".to_string()).to_json(),
        object(vec![("Text", Json::Text("hi".to_string()))])
    );
    assert_eq!(
        Data::List(vec![Data::Integer(1), Data::Null]).to_json(),
        object(vec![(
            "List",
            Json::Array(vec![
                object(vec![("Integer", Json::Number(JsonNumber::PosInt(1)))]),
                Json::Text("Null".to_string()),
            ])
        )])
    );
    assert_eq!(
        Data::Json(object(vec![("a", Json::Null)])).to_json(),
        object(vec![("Json", object(vec![("a", Json::Null)]))])
    );
    assert_eq!(
        Data::OneConsumerChannel(ChannelState::Pending).to_json(),
        Json::Text("OneConsumerChannel".to_string())
    );
}

#[test]
fn a_float_that_is_not_finite_is_written_as_null() {
    for x in [f64::NAN, f64::INFINITY, f64::NEG_INFINITY] {
        let written = Data::Float(x.to_bits()).to_json();
        assert_eq!(written, object(vec![("Float", Json::Null)]));
        assert!(Data::from_json(&written).is_none());
    }
    let largest = Data::Float(f64::MAX.to_bits());
    assert_eq!(Data::from_json(&largest.to_json()), Some(largest));
}

#[test]
fn written_values_are_read_back() {
    let values = vec![
        Data::Null,
        Data::Integer(0),
        Data::Integer(i32::MAX),
        Data::Integer(i32::MIN),
        Data::Float(2.5f64.to_bits()),
        Data::Float((-0.0f64).to_bits()),
        Data::Text("".to_string()),
        Data::Text("Null".to_string()),
        Data::List(vec![]),
        Data::List(vec![Data::List(vec![Data::Integer(1)]), Data::Text("x".to_string())]),
        Data::Json(object(vec![("Integer", Json::Number(JsonNumber::PosInt(1)))])),
        Data::Json(Json::Text("Null".to_string())),
    ];
    for value in values {
        assert_eq!(Data::from_json(&value.to_json()), Some(value));
    }
}

#[test]
fn a_channel_is_read_back_consumed() {
    let read = Data::from_json(&Data::OneConsumerChannel(ChannelState::Pending).to_json());
    assert!(matches!(read, Some(Data::OneConsumerChannel(ChannelState::Consumed))));
    let list = Data::List(vec![Data::OneConsumerChannel(ChannelState::Pending), Data::Integer(1)]);
    match Data::from_json(&list.to_json()) {
        Some(Data::List(items)) => {
            assert!(matches!(items[0], Data::OneConsumerChannel(ChannelState::Consumed)));
            assert_eq!(items[1], Data::Integer(1));
        }
        _ => panic!("a list is read back as a list"),
    }
}

#[test]
fn what_is_no_written_value_is_not_read() {
    let number = |n: u64| Json::Number(JsonNumber::PosInt(n));
    let refused = vec![
        Json::Null,
        Json::Bool(true),
        number(1),
        Json::Text("Integer".to_string()),
        Json::Text("null".to_string()),
        Json::Array(vec![]),
        object(vec![]),
        object(vec![("Integer", number(1)), ("Text", Json::Text("a".to_string()))]),
        object(vec![("integer", number(1))]),
        object(vec![("Integer", number(2147483648))]),
        object(vec![("Integer", Json::Number(JsonNumber::NegInt(-2147483649)))]),
        object(vec![("Integer", Json::Number(JsonNumber::Float(1.0f64.to_bits())))]),
        object(vec![("Integer", Json::Text("1".to_string()))]),
        object(vec![("Float", Json::Null)]),
        object(vec![("Text", number(1))]),
        object(vec![("List", object(vec![]))]),
        object(vec![("List", Json::Array(vec![number(1)]))]),
        object(vec![("Null", Json::Null)]),
        object(vec![("OneConsumerChannel", Json::Null)]),
    ];
    for doc in refused {
        assert!(Data::from_json(&doc).is_none(), "{:?}", doc);
    }
    assert_eq!(
        Data::from_json(&object(vec![("Integer", number(2147483647))])),
        Some(Data::Integer(i32::MAX))
    );
    assert_eq!(
        Data::from_json(&object(vec![("Integer", Json::Number(JsonNumber::NegInt(-2147483648)))])),
        Some(Data::Integer(i32::MIN))
    );
    assert_eq!(Data::from_json(&object(vec![("Json", Json::Null)])), Some(Data::Json(Json::Null)));
    assert_eq!(
        Data::from_json(&object(vec![("Float", number(1))])),
        Some(Data::Float(1.0f64.to_bits()))
    );
    assert_eq!(
        Data::from_json(&object(vec![("Float", Json::Number(JsonNumber::NegInt(-3)))])),
        Some(Data::Float((-3.0f64).to_bits()))
    );
    assert_eq!(
        Data::from_json(&object(vec![("Float", number(9007199254740993))])),
        Some(Data::Float(9007199254740992.0f64.to_bits()))
    );
}

#[test]
fn equal_values_have_the_same_fingerprint() {
    let a = Data::List(vec![Data::Integer(1), Data::Text("x".to_string())]);
    let b = Data::List(vec![Data::Integer(1), Data::Text("x".to_string())]);
    assert_eq!(fingerprint(&a), fingerprint(&b));
    assert_ne!(fingerprint(&Data::Integer(1)), fingerprint(&Data::Integer(2)));
    assert_ne!(fingerprint(&Data::Integer(1)), fingerprint(&Data::Float(1)));
    assert_ne!(fingerprint(&Data::Null), fingerprint(&Data::Text("Null".to_string())));
    assert_ne!(
        fingerprint(&Data::Text("ab".to_string())),
        fingerprint(&Data::Text("a".to_string()))
    );
    assert_eq!(
        fingerprint(&Data::OneConsumerChannel(ChannelState::Pending)),
        fingerprint(&Data::OneConsumerChannel(ChannelState::Consumed))
    );
}

#[test]
fn the_fingerprint_of_a_document_does_not_depend_on_the_order_of_its_members() {
    let one = Data::Json(object(vec![
        ("b", Json::Number(JsonNumber::PosInt(2))),
        ("a", object(vec![("y", Json::Null), ("x", Json::Bool(true))])),
    ]));
    let other = Data::Json(object(vec![
        ("a", object(vec![("x", Json::Bool(true)), ("y", Json::Null)])),
        ("b", Json::Number(JsonNumber::PosInt(2))),
    ]));
    assert_eq!(fingerprint(&one), fingerprint(&other));
    let third = Data::Json(object(vec![
        ("a", object(vec![("x", Json::Bool(false)), ("y", Json::Null)])),
        ("b", Json::Number(JsonNumber::PosInt(2))),
    ]));
    assert_ne!(fingerprint(&one), fingerprint(&third));
}

#[test]
fn documents_are_equal_whatever_the_order_of_their_members() {
    let one = Data::Json(object(vec![
        ("b", Json::Number(JsonNumber::PosInt(2))),
        ("a", object(vec![("y", Json::Null), ("x", Json::Bool(true))])),
    ]));
    let other = Data::Json(object(vec![
        ("a", object(vec![("x", Json::Bool(true)), ("y", Json::Null)])),
        ("b", Json::Number(JsonNumber::PosInt(2))),
    ]));
    assert_eq!(one, other);
    assert_eq!(fingerprint(&one), fingerprint(&other));
    assert_eq!(Data::List(vec![one.clone()]), Data::List(vec![other]));
    let third = Data::Json(object(vec![
        ("a", object(vec![("x", Json::Bool(true)), ("y", Json::Bool(false))])),
        ("b", Json::Number(JsonNumber::PosInt(2))),
    ]));
    assert_ne!(one, third);
}
