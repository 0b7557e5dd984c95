use session_wrapper::doc::Doc;
use session_wrapper::merge::{compose, Composed, KeyProvenance, MergeError};
use session_wrapper::pointer::Pointer;
use session_wrapper::strategy::{ArrayStrategy, StrategyTable};

fn doc_of_json(value: serde_json::Value) -> Doc {
    match value {
        serde_json::Value::Null => Doc::Null,
        serde_json::Value::Bool(flag) => Doc::Bool(flag),
        serde_json::Value::Number(number) => Doc::Number(number.to_string()),
        serde_json::Value::String(text) => Doc::Text(text),
        serde_json::Value::Array(items) => Doc::List(items.into_iter().map(doc_of_json).collect()),
        serde_json::Value::Object(entries) => Doc::Mapping(
            entries
                .into_iter()
                .map(|(key, value)| (Doc::Text(key), doc_of_json(value)))
                .collect(),
        ),
    }
}

fn doc_of_yaml(value: serde_yaml_ng::Value) -> Doc {
    match value {
        serde_yaml_ng::Value::Null => Doc::Null,
        serde_yaml_ng::Value::Bool(flag) => Doc::Bool(flag),
        serde_yaml_ng::Value::Number(number) => Doc::Number(number.to_string()),
        serde_yaml_ng::Value::String(text) => Doc::Text(text),
        serde_yaml_ng::Value::Sequence(items) => {
            Doc::List(items.into_iter().map(doc_of_yaml).collect())
        }
        serde_yaml_ng::Value::Mapping(entries) => Doc::Mapping(
            entries
                .into_iter()
                .map(|(key, value)| (doc_of_yaml(key), doc_of_yaml(value)))
                .collect(),
        ),
        serde_yaml_ng::Value::Tagged(tagged) => doc_of_yaml(tagged.value),
    }
}

/// Writes a document as compact JSON, keeping its own key order.
fn render(doc: &Doc) -> String {
    match doc {
        Doc::Null => "null".to_string(),
        Doc::Bool(flag) => flag.to_string(),
        Doc::Number(text) => text.clone(),
        Doc::Text(text) => serde_json::to_string(text).expect("string"),
        Doc::List(items) => format!(
            "[{}]",
            items.iter().map(render).collect::<Vec<_>>().join(",")
        ),
        Doc::Mapping(entries) => format!(
            "{{{}}}",
            entries
                .iter()
                .map(|(key, value)| format!("{}:{}", render(key), render(value)))
                .collect::<Vec<_>>()
                .join(",")
        ),
    }
}

fn value(text: &str) -> Doc {
    doc_of_json(serde_json::from_str(text).expect("json"))
}

fn same(doc: &Doc, text: &str) -> bool {
    let left: serde_json::Value = serde_json::from_str(&render(doc)).expect("rendered json");
    let right: serde_json::Value = serde_json::from_str(text).expect("json");
    left == right
}

fn member<'a>(doc: &'a Doc, key: &str) -> &'a Doc {
    match doc {
        Doc::Mapping(entries) => {
            &entries
                .iter()
                .find(|(k, _)| matches!(k, Doc::Text(t) if t == key))
                .expect("member")
                .1
        }
        _ => panic!("not an object"),
    }
}

fn table(yaml: &str) -> StrategyTable {
    let parsed: serde_yaml_ng::Value = serde_yaml_ng::from_str(yaml).expect("yaml");
    StrategyTable::from_document(&doc_of_yaml(parsed)).expect("strategy table")
}

fn pointer(text: &str) -> Pointer {
    Pointer::parse(text).expect("valid pointer")
}

fn fold(pieces: &[&str], strategies: &StrategyTable) -> Composed {
    let parsed: Vec<Doc> = pieces.iter().map(|text| value(text)).collect();
    compose(&parsed, strategies).expect("composes")
}

fn key<'a>(composed: &'a Composed, at: &str) -> &'a KeyProvenance {
    composed.key(&pointer(at)).expect("a leaf")
}

fn merge_error(pieces: &[&str], strategies: &StrategyTable) -> MergeError {
    let parsed: Vec<Doc> = pieces.iter().map(|text| value(text)).collect();
    compose(&parsed, strategies).expect_err("refused")
}

const HOOKS: &str = "\"/hooks\":\n  strategy: merge-by-key\n  key: matcher\n";

#[test]
fn objects_merge_key_by_key_recursively() {
    let composed = fold(
        &[r#"{"env":{"A":"1","B":"2"}}"#, r#"{"env":{"B":"3","C":"4"}}"#],
        &StrategyTable::empty(),
    );
    assert!(same(&composed.document, r#"{"env":{"A":"1","B":"3","C":"4"}}"#));
}

#[test]
fn a_scalar_takes_its_last_writer() {
    let composed = fold(&[r#"{"model":"a"}"#, r#"{"model":"b"}"#], &StrategyTable::empty());
    assert!(same(member(&composed.document, "model"), r#""b""#));
    assert_eq!(key(&composed, "/model").piece, 1);
}

#[test]
fn a_scalar_records_the_pieces_it_overrode_in_order() {
    let composed = fold(
        &[r#"{"model":"a"}"#, r#"{"model":"b"}"#, r#"{"model":"c"}"#],
        &StrategyTable::empty(),
    );
    let provenance = key(&composed, "/model");
    assert_eq!(provenance.piece, 2);
    assert_eq!(provenance.overrode, [0, 1]);
}

#[test]
fn an_unlisted_array_is_replaced() {
    let composed = fold(&[r#"{"allow":["a","b"]}"#, r#"{"allow":["c"]}"#], &StrategyTable::empty());
    assert!(same(member(&composed.document, "allow"), r#"["c"]"#));
    assert!(key(&composed, "/allow").strategy.is_none());
}

#[test]
fn a_concat_array_appends_in_layer_order() {
    let composed = fold(
        &[r#"{"allow":["a"]}"#, r#"{"allow":["b"]}"#, r#"{"allow":["c"]}"#],
        &table("\"/allow\":\n  strategy: concat\n"),
    );
    assert!(same(member(&composed.document, "allow"), r#"["a","b","c"]"#));
}

#[test]
fn a_concat_array_records_every_contributor() {
    let composed = fold(
        &[r#"{"allow":["a"]}"#, r#"{"allow":["b"]}"#, r#"{"allow":["c"]}"#],
        &table("\"/allow\":\n  strategy: concat\n"),
    );
    let provenance = key(&composed, "/allow");
    assert_eq!(provenance.contributors, [0, 1, 2]);
    assert_eq!(provenance.piece, 2);
    assert_eq!(provenance.strategy, Some(ArrayStrategy::Concat));
    assert!(provenance.overrode.is_empty());
}

#[test]
fn merge_by_key_merges_matched_elements_recursively() {
    let composed = fold(
        &[
            r#"{"hooks":[{"matcher":"Bash","run":"a","opts":{"x":1}}]}"#,
            r#"{"hooks":[{"matcher":"Bash","opts":{"y":2}}]}"#,
        ],
        &table(HOOKS),
    );
    assert!(same(
        member(&composed.document, "hooks"),
        r#"[{"matcher":"Bash","run":"a","opts":{"x":1,"y":2}}]"#
    ));
}

#[test]
fn merge_by_key_appends_unmatched_elements_in_layer_order() {
    let composed = fold(
        &[r#"{"hooks":[{"matcher":"Bash"}]}"#, r#"{"hooks":[{"matcher":"Edit"}]}"#],
        &table(HOOKS),
    );
    assert!(same(
        member(&composed.document, "hooks"),
        r#"[{"matcher":"Bash"},{"matcher":"Edit"}]"#
    ));
}

#[test]
fn merge_by_key_rejects_a_duplicate_key_value() {
    let error = merge_error(
        &[
            r#"{"hooks":[{"matcher":"Bash"}]}"#,
            r#"{"hooks":[{"matcher":"Edit"},{"matcher":"Edit"}]}"#,
        ],
        &table(HOOKS),
    );
    assert!(matches!(error, MergeError::DuplicateMergeKey { .. }));
}

#[test]
fn merge_by_key_rejects_an_element_without_the_key() {
    let error = merge_error(
        &[r#"{"hooks":[{"matcher":"Bash"}]}"#, r#"{"hooks":[{"run":"x"}]}"#],
        &table(HOOKS),
    );
    assert!(matches!(error, MergeError::MergeKeyMissing { .. }));
}

#[test]
fn merge_by_key_rejects_a_lone_layer_whose_element_lacks_the_key() {
    let error = merge_error(&[r#"{"hooks":[{"run":"x"}]}"#], &table(HOOKS));
    match error {
        MergeError::MergeKeyMissing { piece, ref key, .. } => {
            assert_eq!(piece, 0);
            assert_eq!(key, "matcher");
        }
        other => panic!("expected a missing merge key, got {other:?}"),
    }
}

#[test]
fn merge_by_key_rejects_a_lone_layer_holding_a_duplicate_key_value() {
    let error = merge_error(
        &[r#"{"hooks":[{"matcher":"Bash"},{"matcher":"Bash"}]}"#],
        &table(HOOKS),
    );
    match error {
        MergeError::DuplicateMergeKey { piece, ref value, .. } => {
            assert_eq!(piece, 0);
            assert_eq!(value, "Bash");
        }
        other => panic!("expected a duplicate merge key, got {other:?}"),
    }
}

#[test]
fn a_merge_key_defect_names_the_piece_that_wrote_the_element() {
    let error = merge_error(
        &[r#"{"hooks":[{"run":"x"}]}"#, r#"{"hooks":[{"matcher":"Edit"}]}"#],
        &table(HOOKS),
    );
    match error {
        MergeError::MergeKeyMissing { piece, .. } => assert_eq!(piece, 0),
        other => panic!("expected a missing merge key, got {other:?}"),
    }
}

#[test]
fn a_duplicate_across_layers_names_the_arriving_piece() {
    let error = merge_error(
        &[
            r#"{"hooks":[{"matcher":"Bash"}]}"#,
            r#"{"hooks":[{"matcher":"Edit"},{"matcher":"Edit"}]}"#,
        ],
        &table(HOOKS),
    );
    match error {
        MergeError::DuplicateMergeKey { piece, .. } => assert_eq!(piece, 1),
        other => panic!("expected a duplicate merge key, got {other:?}"),
    }
}

#[test]
fn a_replaced_array_drops_its_element_origins() {
    let composed = fold(
        &[
            r#"{"hooks":[{"matcher":"Bash"}]}"#,
            r#"{"hooks":"replaced"}"#,
            r#"{"hooks":[{"matcher":"Edit"}]}"#,
        ],
        &StrategyTable::empty(),
    );
    assert!(same(&composed.document, r#"{"hooks":[{"matcher":"Edit"}]}"#));
}

#[test]
fn a_type_conflict_names_the_pointer_and_both_pieces() {
    let error = merge_error(&[r#"{"env":{"A":"1"}}"#, r#"{"env":"nope"}"#], &StrategyTable::empty());
    match error {
        MergeError::TypeConflict {
            pointer: at,
            earlier,
            later,
            earlier_type,
            later_type,
        } => {
            assert_eq!(at.as_str(), "/env");
            assert_eq!((earlier, later), (0, 1));
            assert_eq!((earlier_type, later_type), ("object", "string"));
        }
        other => panic!("expected a type conflict, got {other:?}"),
    }
}

#[test]
fn a_type_conflict_inside_a_matched_element_is_refused() {
    let error = merge_error(
        &[
            r#"{"hooks":[{"matcher":"Bash","command":"log.sh"}]}"#,
            r#"{"hooks":[{"matcher":"Bash","command":{"run":"log.sh"}}]}"#,
        ],
        &table(HOOKS),
    );
    match error {
        MergeError::TypeConflict {
            pointer: at,
            earlier,
            later,
            earlier_type,
            later_type,
        } => {
            assert_eq!(at.as_str(), "/hooks/0/command");
            assert_eq!((earlier, later), (0, 1));
            assert_eq!((earlier_type, later_type), ("string", "object"));
        }
        other => panic!("expected a type conflict, got {other:?}"),
    }
}

#[test]
fn differing_scalar_types_inside_a_matched_element_still_override() {
    let composed = fold(
        &[
            r#"{"hooks":[{"matcher":"Bash","timeout":"30"}]}"#,
            r#"{"hooks":[{"matcher":"Bash","timeout":30}]}"#,
        ],
        &table(HOOKS),
    );
    assert!(same(
        member(&composed.document, "hooks"),
        r#"[{"matcher":"Bash","timeout":30}]"#
    ));
}

#[test]
fn a_type_conflict_is_reported_before_a_duplicate_merge_key() {
    let error = merge_error(
        &[
            r#"{"hooks":[{"matcher":"Bash","command":"a"}]}"#,
            r#"{"hooks":[{"matcher":"Bash","command":{"run":"b"}},{"matcher":"Edit"},{"matcher":"Edit"}]}"#,
        ],
        &table(HOOKS),
    );
    assert!(matches!(error, MergeError::TypeConflict { .. }));
}

#[test]
fn a_strategy_pointer_matching_no_key_is_rejected() {
    let error = merge_error(&[r#"{"allow":["a"]}"#], &table("\"/deny\":\n  strategy: concat\n"));
    assert!(matches!(error, MergeError::StrategyTargetMissing { .. }));
}

#[test]
fn a_strategy_pointer_naming_a_non_array_is_rejected() {
    let error = merge_error(&[r#"{"model":"a"}"#], &table("\"/model\":\n  strategy: concat\n"));
    assert!(matches!(
        error,
        MergeError::StrategyTargetNotAnArray {
            actual_type: "string",
            ..
        }
    ));
}

#[test]
fn an_escaped_pointer_addresses_a_key_containing_a_slash() {
    let composed = fold(
        &[r#"{"a/b":["x"]}"#, r#"{"a/b":["y"]}"#],
        &table("\"/a~1b\":\n  strategy: concat\n"),
    );
    assert!(same(member(&composed.document, "a/b"), r#"["x","y"]"#));
    assert_eq!(key(&composed, "/a~1b").strategy, Some(ArrayStrategy::Concat));
}

#[test]
fn the_same_pieces_compose_byte_identical_output() {
    let pieces = [r#"{"b":1,"a":2}"#, r#"{"c":3}"#];
    let first = fold(&pieces, &StrategyTable::empty());
    let second = fold(&pieces, &StrategyTable::empty());
    assert_eq!(render(&first.document), render(&second.document));
}

#[test]
fn differing_source_key_order_composes_identical_bytes() {
    let one = fold(&[r#"{"b":1,"a":2,"c":3}"#], &StrategyTable::empty());
    let reversed = Doc::Mapping(vec![
        (Doc::Text("c".into()), Doc::Number("3".into())),
        (Doc::Text("a".into()), Doc::Number("2".into())),
        (Doc::Text("b".into()), Doc::Number("1".into())),
    ]);
    let other = compose(&vec![reversed], &StrategyTable::empty()).expect("composes");
    assert_eq!(render(&one.document), render(&other.document));
    assert_eq!(render(&one.document), r#"{"a":2,"b":1,"c":3}"#);
}

#[test]
fn a_single_piece_key_records_one_contributor_and_no_chain() {
    let composed = fold(&[r#"{"model":"a"}"#], &StrategyTable::empty());
    let provenance = key(&composed, "/model");
    assert_eq!(provenance.piece, 0);
    assert!(provenance.overrode.is_empty());
    assert!(provenance.contributors.is_empty());
    assert!(provenance.strategy.is_none());
}

#[test]
fn a_piece_that_is_not_an_object_is_rejected() {
    let error = compose(&vec![value("[1,2]")], &StrategyTable::empty()).expect_err("arrays are not pieces");
    assert_eq!(error, MergeError::NotAnObject { piece: 0 });
}

#[test]
fn provenance_addresses_leaves_only() {
    let composed = fold(&[r#"{"env":{"A":"1"}}"#], &StrategyTable::empty());
    let addressed: Vec<&str> = composed.keys.iter().map(|(p, _)| p.as_str()).collect();
    assert_eq!(addressed, ["/env/A"]);
}

#[test]
fn provenance_is_listed_in_pointer_order() {
    let composed = fold(&[r#"{"a":{"x":1},"a-":2}"#], &StrategyTable::empty());
    let addressed: Vec<&str> = composed.keys.iter().map(|(p, _)| p.as_str()).collect();
    assert_eq!(addressed, ["/a-", "/a/x"]);
}

#[test]
fn nested_objects_inside_arrays_are_ordered_too() {
    let piece = Doc::Mapping(vec![(
        Doc::Text("list".into()),
        Doc::List(vec![Doc::Mapping(vec![
            (Doc::Text("z".into()), Doc::Null),
            (Doc::Text("m".into()), Doc::Bool(true)),
        ])]),
    )]);
    let composed = compose(&vec![piece], &StrategyTable::empty()).expect("composes");
    assert_eq!(render(&composed.document), r#"{"list":[{"m":true,"z":null}]}"#);
}

#[test]
fn the_composed_object_has_exactly_the_keys_the_pieces_set() {
    let composed = fold(
        &[r#"{"b":{"x":1},"a":1}"#, r#"{}"#, r#"{"c":[2],"a":3}"#],
        &StrategyTable::empty(),
    );
    let keys: Vec<String> = match &composed.document {
        Doc::Mapping(entries) => entries
            .iter()
            .map(|(key, _)| match key {
                Doc::Text(text) => text.clone(),
                _ => String::new(),
            })
            .collect(),
        _ => Vec::new(),
    };
    assert_eq!(keys, ["a", "b", "c"]);
}

#[test]
fn a_top_level_scalar_holds_the_value_of_its_last_writer() {
    let composed = fold(
        &[r#"{"a":1,"b":"x","c":null}"#, r#"{"b":"y","d":true}"#, r#"{"e":{"f":1}}"#],
        &StrategyTable::empty(),
    );
    assert!(same(
        &composed.document,
        r#"{"a":1,"b":"y","c":null,"d":true,"e":{"f":1}}"#
    ));
}

#[test]
fn a_nested_scalar_holds_the_value_of_its_last_writer() {
    let composed = fold(
        &[
            r#"{"a":{"x":1,"y":{"deep":"first"}},"z":0}"#,
            r#"{"a":{"y":{"deep":"second","other":false}}}"#,
            r#"{"b":4,"a":{"w":null}}"#,
        ],
        &StrategyTable::empty(),
    );
    assert!(same(
        &composed.document,
        r#"{"a":{"w":null,"x":1,"y":{"deep":"second","other":false}},"b":4,"z":0}"#
    ));
}

#[test]
fn pieces_compose_exactly_when_no_path_is_an_object_in_one_and_not_in_another() {
    let agree = [r#"{"a":{"b":1},"c":[1]}"#, r#"{"a":{"d":null},"c":"text"}"#, r#"{"c":2}"#];
    assert!(compose(
        &agree.iter().map(|text| value(text)).collect(),
        &StrategyTable::empty()
    )
    .is_ok());
    let disagree = [r#"{"a":{"b":1}}"#, r#"{"e":0}"#, r#"{"a":{"b":{"deeper":true}}}"#];
    assert!(matches!(
        compose(&disagree.iter().map(|text| value(text)).collect(), &StrategyTable::empty()),
        Err(MergeError::TypeConflict { .. })
    ));
}

#[test]
fn each_leaf_names_the_last_piece_that_wrote_it() {
    let composed = fold(
        &[
            r#"{"a":{"x":1,"y":{"deep":"first"}},"z":0}"#,
            r#"{"a":{"y":{"deep":"second"}},"z":[1]}"#,
            r#"{"b":4,"a":{"w":null}}"#,
        ],
        &StrategyTable::empty(),
    );
    assert_eq!(key(&composed, "/a/x").piece, 0);
    assert_eq!(key(&composed, "/a/y/deep").piece, 1);
    assert_eq!(key(&composed, "/z").piece, 1);
    assert_eq!(key(&composed, "/a/w").piece, 2);
    assert_eq!(key(&composed, "/b").piece, 2);
}

#[test]
fn a_nested_object_holds_exactly_the_keys_its_pieces_wrote() {
    let composed = fold(
        &[r#"{"env":{"A":{"x":1}}}"#, r#"{"env":{"A":{"y":2},"B":3}}"#, r#"{"other":true}"#],
        &StrategyTable::empty(),
    );
    assert!(same(
        &composed.document,
        r#"{"env":{"A":{"x":1,"y":2},"B":3},"other":true}"#
    ));
}

#[test]
fn merge_by_key_folds_three_layers_in_order() {
    let composed = fold(
        &[
            r#"{"hooks":[{"matcher":"Bash","run":"a"}]}"#,
            r#"{"hooks":[{"matcher":"Edit"},{"matcher":"Bash","run":"b"}]}"#,
            r#"{"hooks":[{"matcher":"Read"}]}"#,
        ],
        &table(HOOKS),
    );
    assert!(same(
        member(&composed.document, "hooks"),
        r#"[{"matcher":"Bash","run":"b"},{"matcher":"Edit"},{"matcher":"Read"}]"#
    ));
}
