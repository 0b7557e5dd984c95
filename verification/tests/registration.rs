use session_wrapper::doc::Doc;
use session_wrapper::error::DomainError;
use session_wrapper::registration::{Registration, Subject, LONGEST};

fn doc_of(value: serde_json::Value) -> Doc {
    match value {
        serde_json::Value::Null => Doc::Null,
        serde_json::Value::Bool(flag) => Doc::Bool(flag),
        serde_json::Value::Number(number) => Doc::Number(number.to_string()),
        serde_json::Value::String(text) => Doc::Text(text),
        serde_json::Value::Array(items) => Doc::List(items.into_iter().map(doc_of).collect()),
        serde_json::Value::Object(entries) => Doc::Mapping(
            entries
                .into_iter()
                .map(|(key, value)| (Doc::Text(key), doc_of(value)))
                .collect(),
        ),
    }
}

fn from_bytes(bytes: &[u8]) -> Option<Registration> {
    let value: serde_json::Value = serde_json::from_slice(bytes).ok()?;
    Registration::from_document(&doc_of(value))
}

fn document(name: &str) -> Vec<u8> {
    let mut object = serde_json::Map::new();
    object.insert("pid".into(), serde_json::Value::from(2_675_277u64));
    object.insert(
        "sessionId".into(),
        serde_json::Value::from("12fdd685-1e9b-416f-8b8d-4431f3fd5e05"),
    );
    object.insert("procStart".into(), serde_json::Value::from("183335578"));
    object.insert("name".into(), serde_json::Value::from(name));
    object.insert("nameSource".into(), serde_json::Value::from("derived"));
    serde_json::to_vec(&serde_json::Value::Object(object)).expect("a document")
}

#[test]
fn a_registration_carries_the_name_and_the_pair_that_proves_it() {
    let one = from_bytes(&document("session-wrapper-53")).expect("a name");
    assert_eq!(one.name(), "session-wrapper-53");
    assert!(one.names(2_675_277, 183_335_578));
}

#[test]
fn a_reused_identifier_does_not_carry_another_agents_name() {
    let one = from_bytes(&document("session-wrapper-53")).expect("a name");
    assert!(!one.names(2_675_277, 1));
    assert!(!one.names(1, 183_335_578));
}

#[test]
fn a_start_time_is_read_as_text_or_as_a_number() {
    let text = from_bytes(br#"{"pid": 7, "procStart": "42", "name": "one"}"#).expect("a name");
    let number = from_bytes(br#"{"pid": 7, "procStart": 42, "name": "one"}"#).expect("a name");
    assert_eq!(text, number);
}

#[test]
fn a_name_holding_a_control_character_is_refused() {
    for name in ["two\nlines", "a\tcolumn", "\u{1b}[31mred\u{1b}[0m"] {
        assert!(from_bytes(&document(name)).is_none(), "{name:?} should be refused");
    }
}

#[test]
fn an_empty_padded_or_over_long_name_is_refused() {
    for name in ["", " ", " padded", "padded ", &"n".repeat(LONGEST + 1)] {
        assert!(from_bytes(&document(name)).is_none(), "{name:?} should be refused");
    }
    assert!(
        from_bytes(&document(&"n".repeat(LONGEST))).is_some(),
        "the longest name a report carries is carried"
    );
}

#[test]
fn a_subject_and_a_registered_name_share_one_alphabet() {
    for name in [
        "",
        " ",
        " padded",
        "padded ",
        "two\nlines",
        &"n".repeat(LONGEST + 1),
    ] {
        assert_eq!(
            name.parse::<Subject>().is_ok(),
            Registration::new(7, 42, name).is_some(),
            "{name:?}"
        );
    }
}

#[test]
fn a_working_directory_is_not_held_to_the_name_rule() {
    let long = format!(" /{} ", "d".repeat(LONGEST + 1));
    let mut object = serde_json::Map::new();
    object.insert("pid".into(), serde_json::Value::from(7u64));
    object.insert("procStart".into(), serde_json::Value::from("42"));
    object.insert("name".into(), serde_json::Value::from("one"));
    object.insert("cwd".into(), serde_json::Value::from(long.clone()));
    object.insert("status".into(), serde_json::Value::from("busy"));
    let bytes = serde_json::to_vec(&serde_json::Value::Object(object)).expect("registration document");
    let registration = from_bytes(&bytes).expect("registration");
    assert_eq!(registration.working_directory(), Some(long.as_str()));
    assert_eq!(registration.child_status(), Some("busy"));
}

#[test]
fn an_unknown_field_does_not_refuse_the_record() {
    let grown = br#"{"pid": 7, "procStart": "42", "name": "one", "somethingNewTheChildAdded": {"nested": true}}"#;
    assert!(from_bytes(grown).is_some());
}

#[test]
fn a_document_missing_what_the_join_needs_names_nothing() {
    for text in [
        r#"{"procStart": "42", "name": "one"}"#,
        r#"{"pid": 7, "name": "one"}"#,
        r#"{"pid": 7, "procStart": "42"}"#,
        r#"{"pid": 7, "procStart": "ticks", "name": "one"}"#,
        r#"{"pid": -1, "procStart": "42", "name": "one"}"#,
        r#"{"pid": 7, "procStart": "42", "name": 5}"#,
        r#"["not", "an", "object"]"#,
    ] {
        assert!(from_bytes(text.as_bytes()).is_none(), "{text} should name nothing");
    }
}

#[test]
fn a_process_identifier_past_32_bits_names_nothing() {
    assert!(from_bytes(br#"{"pid": 4294967296, "procStart": "42", "name": "one"}"#).is_none());
    assert!(from_bytes(br#"{"pid": 4294967295, "procStart": "+42", "name": "one"}"#).is_some());
    assert!(from_bytes(br#"{"pid": 7, "procStart": "18446744073709551616", "name": "one"}"#).is_none());
}

#[test]
fn an_unusable_directory_or_status_is_left_out() {
    let registration =
        from_bytes(br#"{"pid": 7, "procStart": 42, "name": "one", "cwd": "", "status": " idle"}"#)
            .expect("registration");
    assert_eq!(registration.working_directory(), None);
    assert_eq!(registration.child_status(), None);
}

#[test]
fn a_subject_reads_back_and_refuses_with_the_rule() {
    let subject: Subject = "review".parse().expect("subject");
    assert_eq!(subject.as_str(), "review");
    let refused = Subject::parse(" x").expect_err("padded");
    assert!(matches!(
        refused,
        DomainError::InvalidArguments(ref m)
            if m == "a session name must be 1 to 64 printable, unpadded characters"
    ));
}
