use marmotte::binary_serializer::JsonValue;
use marmotte::document::{find_id_of_document, get_property_value};

fn text(s: &str) -> JsonValue {
    JsonValue::Text(String::from(s))
}

fn object(props: Vec<(&str, JsonValue)>) -> JsonValue {
    JsonValue::Object(props.into_iter().map(|(k, v)| (String::from(k), v)).collect())
}

#[test]
fn property_value_should_be_string() {
    let json = object(vec![
        ("name", text("John Doe")),
        ("age", JsonValue::Int64(43)),
        ("id", text("id-4687")),
    ]);
    let r = get_property_value(json, String::from("name"));
    assert_eq!(vec![text("John Doe")], r);
}

#[test]
fn property_value_of_level2_should_be_string() {
    let json = object(vec![
        ("name", text("John Doe")),
        ("message", object(vec![("title", text("hello !")), ("text", text("How are you ?"))])),
        ("age", JsonValue::Int64(43)),
        ("id", text("id-4687")),
    ]);
    let r = get_property_value(json, String::from("message.title"));
    assert_eq!(vec![text("hello !")], r);
}

#[test]
fn property_value_of_level2_should_be_string_array() {
    let json = object(vec![
        ("name", text("John Doe")),
        (
            "messages",
            JsonValue::Array(vec![
                object(vec![
                    ("id", JsonValue::Int64(1)),
                    ("title", text("hello !")),
                    ("text", text("How are you ?")),
                ]),
                object(vec![
                    ("id", JsonValue::Int64(2)),
                    ("title", text("hello 2 !")),
                    ("text", text("How are you 2 ?")),
                ]),
                object(vec![("id", JsonValue::Int64(3)), ("text", text("How are you 3 ?"))]),
                object(vec![
                    ("id", JsonValue::Int64(4)),
                    ("title", text("hello 4 !")),
                    ("text", text("How are you 4 ?")),
                ]),
            ]),
        ),
        ("age", JsonValue::Int64(43)),
        ("id", text("id-4687")),
    ]);
    let r = get_property_value(json, String::from("messages.title"));
    assert_eq!(vec![text("hello !"), text("hello 2 !"), text("hello 4 !")], r);
}

#[test]
fn property_value_of_level3_should_be_bool() {
    let json = object(vec![
        ("name", text("John Doe")),
        (
            "message",
            object(vec![
                ("title", text("hello !")),
                ("text", text("How are you ?")),
                (
                    "meta",
                    object(vec![("deleted", JsonValue::Bool(true)), ("readcount", JsonValue::Int64(2))]),
                ),
            ]),
        ),
        ("age", JsonValue::Int64(43)),
        ("id", text("id-4687")),
    ]);
    let r = get_property_value(json, String::from("message.meta.deleted"));
    assert_eq!(vec![JsonValue::Bool(true)], r);
}

#[test]
fn property_value_skips_nulls_and_walks_nested_arrays() {
    let json = object(vec![(
        "a",
        JsonValue::Array(vec![
            JsonValue::Array(vec![object(vec![("b", JsonValue::Int64(1))])]),
            object(vec![("b", JsonValue::Null)]),
            JsonValue::Int64(7),
            object(vec![("b", JsonValue::Int64(2))]),
        ]),
    )]);
    let r = get_property_value(json, String::from("a.b"));
    assert_eq!(vec![JsonValue::Int64(1), JsonValue::Int64(2)], r);
}

#[test]
fn property_value_of_missing_path_is_empty() {
    let json = object(vec![("a", JsonValue::Int64(1))]);
    assert_eq!(get_property_value(json, String::from("a.b.c")), Vec::<JsonValue>::new());
}

#[test]
fn find_id_should_return_string_id() {
    let doc = object(vec![
        ("name", text("John Doe")),
        ("age", JsonValue::Int64(43)),
        ("id", text("id-4687")),
    ]);
    assert_eq!(Some(String::from("id-4687")), find_id_of_document(&doc));
}

#[test]
fn find_id_should_return_number_id() {
    let doc = object(vec![
        ("name", text("John Doe")),
        ("age", JsonValue::Int64(43)),
        ("id", JsonValue::Int64(4687)),
    ]);
    assert_eq!(Some(String::from("4687")), find_id_of_document(&doc));
}

#[test]
fn find_id_receiving_json_without_id_should_return_none() {
    let doc = object(vec![("name", text("John Doe")), ("age", JsonValue::Int64(43))]);
    assert_eq!(None, find_id_of_document(&doc));
}

#[test]
fn find_id_of_negative_number_and_of_non_object() {
    let doc = object(vec![("id", JsonValue::Int64(-12))]);
    assert_eq!(Some(String::from("-12")), find_id_of_document(&doc));
    assert_eq!(None, find_id_of_document(&JsonValue::Array(vec![])));
    assert_eq!(None, find_id_of_document(&object(vec![("id", JsonValue::Bool(true))])));
}
