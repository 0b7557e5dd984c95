use session_wrapper::checks::{Check, CheckResult, EntryCheck, StorageCheck};
use session_wrapper::doc::Doc;
use session_wrapper::identifier::Identifier;
use session_wrapper::report::{config_verdict, key_reports, strategy_reports};
use session_wrapper::resolve::{apply_environment, ResolvedConfig, Source};
use session_wrapper::strategy::StrategyTable;

#[test]
fn every_key_reports_its_winning_layer() {
    let mut config = ResolvedConfig::defaults();
    apply_environment(
        &mut config,
        &vec![
            (b"SESSION_WRAPPER_CHILD_BIN".to_vec(), b"/opt/agent".to_vec()),
            (b"SESSION_WRAPPER_DEFAULT_PROFILE".to_vec(), b"dev".to_vec()),
        ],
    )
    .expect("accepted");
    let reports = key_reports(&config);
    assert_eq!(reports.len(), 3);
    assert_eq!(reports[0].name, "child_bin");
    assert_eq!(reports[0].value.as_deref(), Some("/opt/agent"));
    assert_eq!(reports[0].source, Source::Environment);
    assert_eq!(reports[1].name, "default_account");
    assert_eq!(reports[1].value, None);
    assert_eq!(reports[1].source, Source::Default);
    assert_eq!(reports[2].value.as_deref(), Some("dev"));
    let _ = Identifier::parse("dev");
}

#[test]
fn strategies_are_reported_in_pointer_order() {
    let table = StrategyTable::from_document(&Doc::Mapping(vec![
        (
            Doc::Text("/b".into()),
            Doc::Mapping(vec![(Doc::Text("strategy".into()), Doc::Text("concat".into()))]),
        ),
        (
            Doc::Text("/a".into()),
            Doc::Mapping(vec![
                (Doc::Text("strategy".into()), Doc::Text("merge-by-key".into())),
                (Doc::Text("key".into()), Doc::Text("name".into())),
            ]),
        ),
    ]))
    .expect("table");
    let reports = strategy_reports(&table);
    assert_eq!(reports.len(), 2);
    assert_eq!(reports[0].pointer, "/a");
    assert_eq!(reports[0].strategy, "merge-by-key");
    assert_eq!(reports[0].key.as_deref(), Some("name"));
    assert_eq!(reports[1].pointer, "/b");
    assert_eq!(reports[1].strategy, "concat");
    assert_eq!(reports[1].key, None);
}

#[test]
fn the_first_failing_hard_check_decides_the_exit() {
    let defects = vec![
        CheckResult::pass(Check::WrapperConfigParses, "ok".to_string()),
        CheckResult::defect(Check::Entry(EntryCheck::Compose), "broken".to_string(), String::new()),
        CheckResult::defect(
            Check::Storage(StorageCheck::Owned),
            "owned".to_string(),
            String::new(),
        ),
    ];
    assert_eq!(config_verdict(&defects), Check::Entry(EntryCheck::Compose).kind().exit_code());
    let clean = vec![CheckResult::skipped(Check::Entry(EntryCheck::Compose), "none".to_string())];
    assert_eq!(config_verdict(&clean), 0);
}
