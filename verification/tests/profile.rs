use session_wrapper::doc::Doc;
use session_wrapper::error::DomainError;
use session_wrapper::identifier::Identifier;
use session_wrapper::pointer::Pointer;
use session_wrapper::profile::Profile;
use session_wrapper::strategy::ArrayStrategy;

fn doc_of(value: serde_yaml_ng::Value) -> Doc {
    match value {
        serde_yaml_ng::Value::Null => Doc::Null,
        serde_yaml_ng::Value::Bool(flag) => Doc::Bool(flag),
        serde_yaml_ng::Value::Number(number) => Doc::Number(number.to_string()),
        serde_yaml_ng::Value::String(text) => Doc::Text(text),
        serde_yaml_ng::Value::Sequence(items) => Doc::List(items.into_iter().map(doc_of).collect()),
        serde_yaml_ng::Value::Mapping(entries) => Doc::Mapping(
            entries
                .into_iter()
                .map(|(key, value)| (doc_of(key), doc_of(value)))
                .collect(),
        ),
        serde_yaml_ng::Value::Tagged(tagged) => doc_of(tagged.value),
    }
}

fn parse(text: &str) -> Result<Profile, DomainError> {
    let value: serde_yaml_ng::Value =
        serde_yaml_ng::from_str(text).map_err(|error| DomainError::Semantic(error.to_string()))?;
    Profile::from_document(&doc_of(value))
}

#[test]
fn the_layer_list_keeps_its_order() {
    let profile = parse("layers:\n  - base\n  - work\n").expect("parses");
    let names: Vec<&str> = profile.layers().iter().map(Identifier::as_str).collect();
    assert_eq!(names, ["base", "work"]);
}

#[test]
fn a_strategy_table_parses_into_typed_entries() {
    let profile = parse(
        "layers:\n  - base\narray_strategies:\n  \"/permissions/allow\":\n    strategy: concat\n",
    )
    .expect("parses");
    let pointer = Pointer::parse("/permissions/allow").expect("valid");
    assert_eq!(profile.strategies().get(&pointer), Some(&ArrayStrategy::Concat));
}

#[test]
fn a_profile_declaring_an_unusable_strategy_is_rejected() {
    assert!(
        parse("layers:\n  - base\narray_strategies:\n  \"/a\":\n    strategy: replace\n").is_err()
    );
    assert!(
        parse("layers:\n  - base\narray_strategies:\n  \"a/b\":\n    strategy: concat\n").is_err()
    );
}

#[test]
fn an_absent_strategy_table_is_empty() {
    let profile = parse("layers:\n  - base\n").expect("parses");
    assert_eq!(profile.strategies().entries().len(), 0);
}

#[test]
fn an_empty_layer_list_is_rejected() {
    assert!(parse("layers: []\n").is_err());
}

#[test]
fn an_unknown_field_is_rejected() {
    assert!(parse("layers:\n  - base\nnope: 1\n").is_err());
}

#[test]
fn a_layer_violating_the_identifier_grammar_is_rejected() {
    assert!(parse("layers:\n  - Base\n").is_err());
    assert!(parse("layers:\n  - a/b\n").is_err());
}

#[test]
fn each_refusal_says_what_is_wrong() {
    let message = |text: &str| match parse(text) {
        Err(DomainError::Semantic(message)) => message,
        other => panic!("expected a refusal, got {other:?}"),
    };
    assert_eq!(message("layers: []\n"), "a profile must name at least one layer");
    assert_eq!(message("array_strategies: {}\n"), "missing field `layers`");
    assert_eq!(message("layers:\n  - Base\n"), "invalid identifier: Base");
    assert_eq!(
        message("layers:\n  - base\nnope: 1\n"),
        "unknown field `nope`, expected `layers` or `array_strategies`"
    );
    assert_eq!(message("layers: base\n"), "invalid type: string, expected a sequence");
}
