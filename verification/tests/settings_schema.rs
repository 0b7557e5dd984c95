use session_wrapper::doc::Doc;
use session_wrapper::settings_schema::{known_top_level, unknown_top_level};

fn doc_of(value: serde_json::Value) -> Doc {
    match value {
        serde_json::Value::Null => Doc::Null,
        serde_json::Value::Bool(flag) => Doc::Bool(flag),
        serde_json::Value::Number(number) => Doc::Number(number.to_string()),
        serde_json::Value::String(text) => Doc::Text(text),
        serde_json::Value::Array(items) => Doc::List(items.into_iter().map(doc_of).collect()),
        serde_json::Value::Object(members) => Doc::Mapping(
            members
                .into_iter()
                .map(|(key, value)| (Doc::Text(key), doc_of(value)))
                .collect(),
        ),
    }
}

fn json(text: &str) -> Doc {
    doc_of(serde_json::from_str(text).expect("json"))
}

#[test]
fn the_table_is_sorted_and_unique() {
    let table = known_top_level();
    let mut sorted = table.to_vec();
    sorted.sort_unstable();
    sorted.dedup();
    assert_eq!(sorted, table);
}

#[test]
fn a_document_of_known_keys_reports_nothing() {
    let document = json(r#"{ "model": "sonnet", "env": { "A": "1" } }"#);
    assert!(unknown_top_level(&document).is_empty());
}

#[test]
fn an_unknown_root_key_is_reported() {
    let document = json(r#"{ "model": "sonnet", "zzzNotAKey": true }"#);
    assert_eq!(unknown_top_level(&document), ["zzzNotAKey"]);
}

#[test]
fn a_nested_key_is_never_reported() {
    let document = json(r#"{ "permissions": { "zzzNotAKey": [] } }"#);
    assert!(unknown_top_level(&document).is_empty());
}

#[test]
fn every_table_key_is_recognized_and_a_non_object_reports_nothing() {
    for key in known_top_level() {
        let document = Doc::Mapping(vec![(Doc::Text(key.to_string()), Doc::Null)]);
        assert!(unknown_top_level(&document).is_empty(), "{key}");
    }
    assert!(unknown_top_level(&json("[1, 2]")).is_empty());
}
