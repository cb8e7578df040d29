use baselard::component::{ChannelState, Component, ComponentRegistry, Data, DataType};
use baselard::components::flexible_wildcard_processor::FlexibleWildcardProcessor;
use baselard::dag::DAGError;
use baselard::json::{Json, JsonNumber};

fn object(members: Vec<(&str, Json)>) -> Json {
    Json::Object(members.into_iter().map(|(key, value)| (key.to_string(), value)).collect())
}

fn text(s: &str) -> Json {
    Json::Text(s.to_string())
}

fn run(input: Data) -> Data {
    FlexibleWildcardProcessor::configure(Json::Null).execute(input).expect("a document")
}

#[test]
fn the_processor_says_what_it_was_handed() {
    assert_eq!(run(Data::Null), Data::Json(object(vec![("type", text("null"))])));
    assert_eq!(
        run(Data::Integer(5)),
        Data::Json(object(vec![("type", text("integer")), ("value", Json::Number(JsonNumber::PosInt(5)))]))
    );
    assert_eq!(
        run(Data::Integer(-5)),
        Data::Json(object(vec![("type", text("integer")), ("value", Json::Number(JsonNumber::NegInt(-5)))]))
    );
    assert_eq!(
        run(Data::Text("hi".to_string())),
        Data::Json(object(vec![("type", text("text")), ("value", text("hi"))]))
    );
    assert_eq!(
        run(Data::OneConsumerChannel(ChannelState::Pending)),
        Data::Json(object(vec![("type", text("one_consumer_channel"))]))
    );
}

#[test]
fn the_processor_hands_a_document_on() {
    let doc = object(vec![("b", Json::Bool(true)), ("a", Json::Array(vec![Json::Null]))]);
    assert_eq!(run(Data::Json(doc.clone())), Data::Json(doc));
}

#[test]
fn the_processor_lists_the_items_of_a_list() {
    let input = Data::List(vec![
        Data::Integer(1),
        Data::Text("two".to_string()),
        Data::Null,
        Data::List(vec![Data::Integer(3)]),
        Data::Float(1.5f64.to_bits()),
    ]);
    let expected = object(vec![
        ("type", text("list")),
        (
            "values",
            Json::Array(vec![
                object(vec![("type", text("integer")), ("value", Json::Number(JsonNumber::PosInt(1)))]),
                object(vec![("type", text("text")), ("value", text("two"))]),
                object(vec![("type", text("unknown"))]),
                object(vec![("type", text("unknown"))]),
                object(vec![("type", text("unknown"))]),
            ]),
        ),
    ]);
    assert_eq!(run(input), Data::Json(expected));
    assert_eq!(
        run(Data::List(vec![])),
        Data::Json(object(vec![("type", text("list")), ("values", Json::Array(vec![]))]))
    );
}

#[test]
fn the_processor_refuses_a_float() {
    let processor = FlexibleWildcardProcessor::configure(Json::Null);
    match processor.execute(Data::Float(1.5f64.to_bits())) {
        Err(DAGError::TypeSystemFailure { component, expected, received }) => {
            assert_eq!(component, "FlexibleWildcardProcessor");
            assert_eq!(expected, processor.input_type());
            assert_eq!(received, DataType::Float);
        }
        _ => panic!("a float is refused"),
    }
}

#[test]
fn the_processor_accepts_documents_integers_texts_and_lists_of_them() {
    let processor = FlexibleWildcardProcessor::configure(object(vec![]));
    let accepted = processor.input_type();
    assert_eq!(
        accepted,
        DataType::Union(vec![
            DataType::Json,
            DataType::Integer,
            DataType::Text,
            DataType::List(Box::new(DataType::Union(vec![DataType::Integer, DataType::Text]))),
        ])
    );
    assert_eq!(processor.output_type(), DataType::Json);
    assert!(!processor.is_deferrable());
    assert!(processor.configuration_error().is_none());
    assert!(DataType::Integer.is_compatible_with(&accepted));
    assert!(DataType::List(Box::new(DataType::Integer)).is_compatible_with(&accepted));
    assert!(DataType::List(Box::new(DataType::Text)).is_compatible_with(&accepted));
    assert!(!DataType::List(Box::new(DataType::Float)).is_compatible_with(&accepted));
    assert!(!DataType::Null.is_compatible_with(&accepted));
}

#[test]
fn a_registry_makes_the_components_that_are_registered() {
    let mut registry = ComponentRegistry::new();
    assert!(registry.get("Wildcard").is_none());
    registry.register::<FlexibleWildcardProcessor>("Wildcard");
    registry.register::<FlexibleWildcardProcessor>("Other");
    registry.register::<FlexibleWildcardProcessor>("Wildcard");
    assert!(registry.get("Wildcard").is_some());
    assert!(registry.get("Other").is_some());
    assert!(registry.get("wildcard").is_none());
    assert!(registry.get("").is_none());
    let made = registry.get("Wildcard").expect("a factory").build(Json::Null);
    assert_eq!(made.component.output_type(), DataType::Json);
    assert_eq!(
        made.component.execute(Data::Null).expect("a document"),
        Data::Json(object(vec![("type", text("null"))]))
    );
}
