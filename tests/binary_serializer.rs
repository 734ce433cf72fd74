use marmotte::binary_serializer::{BinarySerializer, DecodeError, JsonValue, TypeFlag};
use marmotte::document::get_property_value;

fn text(s: &str) -> JsonValue {
    JsonValue::Text(String::from(s))
}

fn object(props: Vec<(&str, JsonValue)>) -> JsonValue {
    JsonValue::Object(props.into_iter().map(|(k, v)| (String::from(k), v)).collect())
}

fn get<'a>(doc: &'a JsonValue, key: &str) -> &'a JsonValue {
    match doc {
        JsonValue::Object(props) => &props.iter().find(|(k, _)| k == key).unwrap().1,
        _ => panic!("should be an object"),
    }
}

fn encode(doc: &JsonValue) -> Vec<u8> {
    let mut serializer = BinarySerializer::new();
    serializer.serialize_json_value(doc);
    serializer.writer.buffer.to_vec()
}

fn round_trip(doc: &JsonValue) -> JsonValue {
    BinarySerializer::deserialize_json(&encode(doc)).unwrap()
}

#[test]
fn type_flag_to_bin_should_return_valid_value() {
    assert_eq!(0, TypeFlag::Null.to_bin());
    assert_eq!(1, TypeFlag::Bool.to_bin());
    assert_eq!(2, TypeFlag::Int64.to_bin());
    assert_eq!(3, TypeFlag::Float.to_bin());
    assert_eq!(4, TypeFlag::Text.to_bin());
    assert_eq!(5, TypeFlag::Array.to_bin());
}

#[test]
fn type_flag_from_bin_should_return_valid_value() {
    assert_eq!(TypeFlag::From(0).unwrap().to_bin(), TypeFlag::Null.to_bin());
    assert_eq!(TypeFlag::From(1).unwrap().to_bin(), TypeFlag::Bool.to_bin());
    assert_eq!(TypeFlag::From(2).unwrap().to_bin(), TypeFlag::Int64.to_bin());
    assert_eq!(TypeFlag::From(3).unwrap().to_bin(), TypeFlag::Float.to_bin());
    assert_eq!(TypeFlag::From(4).unwrap().to_bin(), TypeFlag::Text.to_bin());
    assert_eq!(TypeFlag::From(5).unwrap().to_bin(), TypeFlag::Array.to_bin());
}

#[test]
fn serialize_simple_payload_should_success() {
    let payload = object(vec![
        ("name", text("John Doe")),
        ("age", JsonValue::Int64(48)),
        ("activated", JsonValue::Bool(true)),
    ]);
    let doc = round_trip(&payload);

    assert_eq!(get(&doc, "name"), &text("John Doe"));
    assert_eq!(get(&doc, "age"), &JsonValue::Int64(48));
    assert_eq!(get(&doc, "activated"), &JsonValue::Bool(true));
}

#[test]
fn serialize_payload_with_int_array_should_success() {
    let payload = object(vec![
        ("name", text("John Doe")),
        ("age", JsonValue::Int64(48)),
        ("activated", JsonValue::Bool(true)),
        ("messageIds", JsonValue::Array(vec![JsonValue::Int64(1234), JsonValue::Int64(998)])),
    ]);
    let doc = round_trip(&payload);

    assert_eq!(get(&doc, "name"), &text("John Doe"));
    assert_eq!(get(&doc, "age"), &JsonValue::Int64(48));
    assert_eq!(get(&doc, "activated"), &JsonValue::Bool(true));
    assert_eq!(
        get(&doc, "messageIds"),
        &JsonValue::Array(vec![JsonValue::Int64(1234), JsonValue::Int64(998)])
    );
}

fn messages_doc(messages: Vec<(&str, &str)>) -> JsonValue {
    object(vec![
        ("id", JsonValue::Int64(9800)),
        ("Name", text("John Doe")),
        ("Age", JsonValue::Int64(35)),
        (
            "messages",
            JsonValue::Array(
                messages
                    .into_iter()
                    .map(|(t, x)| object(vec![("title", text(t)), ("text", text(x))]))
                    .collect(),
            ),
        ),
    ])
}

#[test]
fn serialize_complex_payload_with_objects_array_should_success() {
    let doc = round_trip(&messages_doc(vec![("Hello", "ca va")]));

    assert_eq!(get(&doc, "Name"), &text("John Doe"));
    assert_eq!(get(&doc, "Age"), &JsonValue::Int64(35));
    assert_eq!(get(&doc, "id"), &JsonValue::Int64(9800));

    match get(&doc, "messages") {
        JsonValue::Array(values) => {
            assert_eq!(1, values.len());
            match &values[0] {
                JsonValue::Object(message) => {
                    assert_eq!(message.len(), 2);
                    assert_eq!(get(&values[0], "title"), &text("Hello"));
                    assert_eq!(get(&values[0], "text"), &text("ca va"));
                }
                _ => panic!("should be an array"),
            }
        }
        _ => panic!("should be an array"),
    }
}

#[test]
fn serialize_complex_payload_with_objects_array_of_2_items_should_success() {
    let doc = round_trip(&messages_doc(vec![("Hello", "ca va"), ("Bye", "yes")]));

    assert_eq!(get(&doc, "Name"), &text("John Doe"));
    assert_eq!(get(&doc, "Age"), &JsonValue::Int64(35));
    assert_eq!(get(&doc, "id"), &JsonValue::Int64(9800));

    match get(&doc, "messages") {
        JsonValue::Array(values) => {
            assert_eq!(2, values.len());
            match &values[0] {
                JsonValue::Object(message) => {
                    assert_eq!(message.len(), 2);
                    assert_eq!(get(&values[0], "title"), &text("Hello"));
                    assert_eq!(get(&values[0], "text"), &text("ca va"));
                }
                _ => panic!("should be an object"),
            }
            match &values[1] {
                JsonValue::Object(message) => {
                    assert_eq!(message.len(), 2);
                    assert_eq!(get(&values[1], "title"), &text("Bye"));
                    assert_eq!(get(&values[1], "text"), &text("yes"));
                }
                _ => panic!("should be an object"),
            }
        }
        _ => panic!("should be an array"),
    }
}

#[test]
fn nested_document_round_trips_and_yields_message_titles() {
    let sent = messages_doc(vec![("Hello", "ca va"), ("Bye", "yes")]);
    let doc = round_trip(&sent);
    assert_eq!(doc, sent);
    let titles = get_property_value(doc, String::from("messages.title"));
    assert_eq!(titles, vec![text("Hello"), text("Bye")]);
}

#[test]
fn every_kind_of_value_round_trips_in_order() {
    let sent = object(vec![
        ("z", JsonValue::Null),
        ("a", JsonValue::Bool(false)),
        ("min", JsonValue::Int64(i64::MIN)),
        ("max", JsonValue::Int64(i64::MAX)),
        ("pi", JsonValue::Float(3.25f64.to_bits())),
        ("t", text("été")),
        ("nested", JsonValue::Array(vec![JsonValue::Array(vec![]), object(vec![])])),
    ]);
    assert_eq!(round_trip(&sent), sent);
}

#[test]
fn encoding_has_the_documented_layout() {
    let bytes = encode(&object(vec![("k", JsonValue::Bool(true))]));
    let mut expected = vec![6u8, 0, 0, 0, 0, 0, 0, 0, 1, 0, 0, 0, 0, 0, 0, 0, 1, b'k', 1, 1];
    assert_eq!(bytes, expected);
    expected[0] = 5;
    assert_eq!(BinarySerializer::deserialize_json(&expected), Err(DecodeError::Corrupted));
}

#[test]
fn decoding_rejects_unknown_tags_and_truncation() {
    let bytes = encode(&object(vec![("k", JsonValue::Int64(5))]));
    let mut bad = bytes.clone();
    bad[18] = 9;
    assert_eq!(BinarySerializer::deserialize_json(&bad), Err(DecodeError::UnknownTag(9)));
    assert_eq!(
        BinarySerializer::deserialize_json(&bytes[..bytes.len() - 1]),
        Err(DecodeError::Truncated)
    );
    assert_eq!(BinarySerializer::deserialize_json(&[]), Err(DecodeError::Truncated));
    assert_eq!(BinarySerializer::deserialize_json(&[7]), Err(DecodeError::UnknownTag(7)));
}
