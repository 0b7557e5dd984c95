use session_wrapper::doc::Doc;
use session_wrapper::error::DomainError;
use session_wrapper::pointer::Pointer;
use session_wrapper::strategy::{ArrayStrategy, StrategyTable};

fn doc_of(value: serde_yaml_ng::Value) -> Doc {
    match value {
        serde_yaml_ng::Value::Null => Doc::Null,
        serde_yaml_ng::Value::Bool(flag) => Doc::Bool(flag),
        serde_yaml_ng::Value::Number(number) => Doc::Number(number.to_string()),
        serde_yaml_ng::Value::String(text) => Doc::Text(text),
        serde_yaml_ng::Value::Sequence(items) => Doc::List(items.into_iter().map(doc_of).collect()),
        serde_yaml_ng::Value::Mapping(entries) => Doc::Mapping(
            entries
                .into_iter()
                .map(|(key, value)| (doc_of(key), doc_of(value)))
                .collect(),
        ),
        serde_yaml_ng::Value::Tagged(tagged) => doc_of(tagged.value),
    }
}

fn parse(yaml: &str) -> Result<StrategyTable, DomainError> {
    let value: serde_yaml_ng::Value =
        serde_yaml_ng::from_str(yaml).map_err(|error| DomainError::Semantic(error.to_string()))?;
    StrategyTable::from_document(&doc_of(value))
}

#[test]
fn a_concat_entry_parses() {
    let table = parse("\"/permissions/allow\":\n  strategy: concat\n").expect("parses");
    let pointer = Pointer::parse("/permissions/allow").expect("valid");
    assert_eq!(table.get(&pointer), Some(&ArrayStrategy::Concat));
}

#[test]
fn a_merge_by_key_entry_requires_a_non_empty_key() {
    let table = parse("\"/hooks/PreToolUse\":\n  strategy: merge-by-key\n  key: matcher\n")
        .expect("parses");
    let pointer = Pointer::parse("/hooks/PreToolUse").expect("valid");
    assert_eq!(
        table.get(&pointer),
        Some(&ArrayStrategy::MergeByKey {
            key: "matcher".to_owned()
        })
    );
    assert!(parse("\"/a\":\n  strategy: merge-by-key\n  key: \"\"\n").is_err());
}

#[test]
fn a_merge_by_key_entry_without_a_key_is_rejected() {
    assert!(parse("\"/a\":\n  strategy: merge-by-key\n").is_err());
}

#[test]
fn a_concat_entry_with_a_key_is_rejected() {
    assert!(parse("\"/a\":\n  strategy: concat\n  key: matcher\n").is_err());
}

#[test]
fn an_explicit_replace_is_rejected() {
    assert!(parse("\"/a\":\n  strategy: replace\n").is_err());
}

#[test]
fn a_non_canonical_pointer_is_rejected() {
    assert!(parse("\"a/b\":\n  strategy: concat\n").is_err());
    assert!(parse("\"/a~b\":\n  strategy: concat\n").is_err());
}

#[test]
fn a_duplicate_pointer_is_rejected() {
    assert!(
        parse("? \"/a\"\n: { strategy: concat }\n? \"/a\"\n: { strategy: concat }\n").is_err()
    );
    let repeated = Doc::Mapping(vec![
        (Doc::Text("/a".into()), Doc::Mapping(vec![(Doc::Text("strategy".into()), Doc::Text("concat".into()))])),
        (Doc::Text("/a".into()), Doc::Mapping(vec![(Doc::Text("strategy".into()), Doc::Text("concat".into()))])),
    ]);
    match StrategyTable::from_document(&repeated) {
        Err(DomainError::Semantic(message)) => {
            assert_eq!(message, "the JSON pointer /a is declared more than once")
        }
        other => panic!("expected a refusal, got {other:?}"),
    }
}

#[test]
fn declaration_order_is_stable() {
    let first = parse("\"/z\":\n  strategy: concat\n\"/a\":\n  strategy: concat\n").expect("parses");
    let second = parse("\"/a\":\n  strategy: concat\n\"/z\":\n  strategy: concat\n").expect("parses");
    let order: Vec<&str> = first.entries().iter().map(|(pointer, _)| pointer.as_str()).collect();
    assert_eq!(order, ["/a", "/z"]);
    assert_eq!(first.entries(), second.entries());
}

#[test]
fn an_unknown_row_field_is_rejected() {
    assert!(parse("\"/a\":\n  strategy: concat\n  nope: 1\n").is_err());
}

#[test]
fn each_rule_names_the_pointer_it_refused() {
    let message = |yaml: &str| match parse(yaml) {
        Err(DomainError::Semantic(message)) => message,
        other => panic!("expected a refusal, got {other:?}"),
    };
    assert_eq!(
        message("\"/a\":\n  strategy: replace\n"),
        "the strategy for /a is replace, which is what an unlisted array already does; remove the entry"
    );
    assert_eq!(
        message("\"/a\":\n  strategy: sideways\n"),
        "the strategy for /a is sideways, which is not concat or merge-by-key"
    );
    assert_eq!(
        message("\"/a\":\n  strategy: concat\n  key: k\n"),
        "the strategy for /a is concat, which takes no key"
    );
    assert_eq!(message("\"/a\":\n  key: k\n"), "missing field `strategy`");
    assert_eq!(ArrayStrategy::Concat.spelling(), "concat");
}
