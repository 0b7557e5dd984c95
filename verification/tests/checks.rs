use std::collections::BTreeSet;

use session_wrapper::checks::{
    catalog, Check, CheckResult, CheckStatus, ChildReport, ChildStatus, EntryCheck, Scope,
    Severity, StorageCheck, Summary, Verdict,
};
use session_wrapper::error::ErrorKind;

const STORAGE_CATALOG: &[(StorageCheck, &str)] = &[
    (StorageCheck::NoSymlinks, "storage-paths-no-symlinks"),
    (StorageCheck::Owned, "storage-paths-owned"),
    (StorageCheck::Typed, "storage-paths-typed"),
    (StorageCheck::DirectoryModes, "storage-directory-modes"),
    (StorageCheck::SecretModes, "storage-secret-modes"),
];

#[test]
fn every_check_id_maps_to_its_published_kind() {
    for (check, id) in STORAGE_CATALOG {
        assert_eq!(check.id(), *id);
        assert_eq!(check.kind(), ErrorKind::Permission);
        assert_eq!(check.kind().exit_code(), 77);
    }
}

#[test]
fn the_catalog_covers_every_check() {
    let listed: BTreeSet<&str> = STORAGE_CATALOG.iter().map(|(_, id)| *id).collect();
    assert_eq!(
        listed.len(),
        STORAGE_CATALOG.len(),
        "the catalog repeats a check"
    );
    assert_eq!(
        STORAGE_CATALOG.len(),
        5,
        "a storage check was added or removed without updating the catalog"
    );
}

#[test]
fn complete_catalog_metadata_and_order_are_pinned() {
    let expected = [
        ("base-dirs-resolve", Scope::Host, Severity::Hard, ErrorKind::Unavailable),
        ("runtime-dir-present", Scope::Host, Severity::Soft, ErrorKind::Unavailable),
        ("wrapper-config-parses", Scope::Host, Severity::Hard, ErrorKind::Config),
        ("child-binary-resolves", Scope::Host, Severity::Hard, ErrorKind::ChildNotFound),
        ("child-is-executable", Scope::Host, Severity::Hard, ErrorKind::ChildNotExecutable),
        ("child-version-floor", Scope::Host, Severity::Soft, ErrorKind::Unavailable),
        ("storage-paths-no-symlinks", Scope::Session, Severity::Hard, ErrorKind::Permission),
        ("storage-paths-owned", Scope::Session, Severity::Hard, ErrorKind::Permission),
        ("storage-paths-typed", Scope::Session, Severity::Hard, ErrorKind::Permission),
        ("storage-directory-modes", Scope::Session, Severity::Hard, ErrorKind::Permission),
        ("storage-secret-modes", Scope::Session, Severity::Hard, ErrorKind::Permission),
        ("settings-compose", Scope::Session, Severity::Hard, ErrorKind::NoInput),
        ("settings-entry-consistent", Scope::Session, Severity::Hard, ErrorKind::DataFormat),
        ("account-registry-readable", Scope::Session, Severity::Soft, ErrorKind::Io),
        ("credentials-usable", Scope::Session, Severity::Soft, ErrorKind::Auth),
    ];
    let all = catalog();
    assert_eq!(all.len(), 15);
    for (check, (id, scope, severity, kind)) in all.iter().zip(expected) {
        assert_eq!(
            (check.id(), check.scope(), check.severity(), check.kind()),
            (id, scope, severity, kind)
        );
    }
}

#[test]
fn summary_preserves_the_first_hard_failure_in_catalog_order() {
    let warning = CheckResult::defect(Check::RuntimeDirPresent, "absent".into(), String::new());
    let later = CheckResult::defect(
        Check::Entry(EntryCheck::Consistent),
        "bad".into(),
        "fix".into(),
    );
    let earlier = CheckResult::defect(Check::WrapperConfigParses, "bad".into(), "fix".into());
    let skipped = CheckResult::skipped(Check::Entry(EntryCheck::Compose), "inapplicable".into());
    assert_eq!(warning.kind(), Some(ErrorKind::Unavailable));
    let summary = Summary::fold(&vec![warning.clone(), earlier, later, skipped]);
    assert_eq!(summary.total, 4);
    assert_eq!(summary.warned, 1);
    assert_eq!(summary.failed, 2);
    assert_eq!(summary.skipped, 1);
    assert_eq!(summary.hard_failures, 2);
    assert_eq!(summary.exit, 78);
    assert_eq!(summary.status(), CheckStatus::Fail);
    assert_eq!(Summary::fold(&vec![warning]).exit, 0);
}

#[test]
fn a_failed_child_report_fails_the_verdict_without_strict() {
    let healthy = ChildReport {
        status: ChildStatus::Pass,
        output: Some(b"ok\n".to_vec()),
        exit: Some(0),
        reason: None,
    };
    let failed = ChildReport {
        status: ChildStatus::Fail,
        output: Some(b"broken\n".to_vec()),
        exit: Some(1),
        reason: None,
    };
    let clean = Summary::fold(&vec![CheckResult::pass(Check::BaseDirsResolve, "ok".into())]);
    assert_eq!(
        Verdict::fold(clean, &failed, false),
        Verdict {
            status: CheckStatus::Fail,
            exit: 69,
        }
    );
    assert_eq!(Verdict::fold(clean, &healthy, true).exit, 0);
    assert_eq!(
        Verdict::fold(clean, &ChildReport::skipped("not executable".into()), false).exit,
        0
    );
    let broken = Summary::fold(&vec![CheckResult::defect(
        Check::WrapperConfigParses,
        "bad".into(),
        "fix".into(),
    )]);
    assert_eq!(Verdict::fold(broken, &failed, false).exit, 78);
    let warned = Summary::fold(&vec![CheckResult::defect(
        Check::RuntimeDirPresent,
        "absent".into(),
        String::new(),
    )]);
    assert_eq!(Verdict::fold(warned, &healthy, false).exit, 0);
    assert_eq!(Verdict::fold(warned, &healthy, true).exit, 1);
    assert_eq!(
        Verdict::fold(warned, &healthy, true).status,
        CheckStatus::Warn
    );
}

#[test]
fn a_remediation_substitutes_without_rewording() {
    let rendered = StorageCheck::Typed.diagnostic(
        "/s/session-wrapper/composed",
        "directory",
        "regular file",
        None,
    );
    assert!(rendered.hint.contains("/s/session-wrapper/composed"));
    assert!(rendered.hint.contains("is a regular file"));
    assert!(rendered.hint.contains("must be a directory"));
    assert!(!rendered.hint.contains('{'), "{}", rendered.hint);
    assert!(rendered.why.contains("storage-paths-typed"));
}

#[test]
fn every_entry_check_maps_to_its_published_kind() {
    assert_eq!(EntryCheck::Compose.id(), "settings-compose");
    assert_eq!(EntryCheck::Compose.kind(), ErrorKind::NoInput);
    assert_eq!(EntryCheck::Consistent.id(), "settings-entry-consistent");
    assert_eq!(EntryCheck::Consistent.kind(), ErrorKind::DataFormat);
}

#[test]
fn an_entry_remediation_substitutes_the_path_and_profile() {
    let rendered = EntryCheck::Compose.diagnostic(
        "/c/session-wrapper/settings/base.json",
        "work",
        "the piece does not exist",
    );
    assert!(rendered.hint.contains("settings/base.json"));
    assert!(rendered.hint.contains("profile work"));
    assert!(!rendered.hint.contains('{'), "{}", rendered.hint);
    assert!(rendered.why.starts_with("settings-compose: "));
}

#[test]
fn a_mode_remediation_renders_the_octal_mode() {
    let rendered = StorageCheck::DirectoryModes.diagnostic(
        "/s/session-wrapper/accounts",
        "directory",
        "directory",
        Some(0o700),
    );
    assert!(rendered.hint.contains("0700"), "{}", rendered.hint);
    assert!(!rendered.hint.contains('{'), "{}", rendered.hint);
}

#[test]
fn a_hint_substitutes_every_named_value_in_order() {
    let hint = Check::ChildVersionFloor
        .hint(&vec![("version", "2.0.1"), ("minimum", "2.1.0")])
        .expect("the floor check owns a template");
    assert!(hint.contains("reports 2.0.1, below the 2.1.0"), "{hint}");
    assert!(Check::RuntimeDirPresent.hint(&vec![]).is_none());
    assert_eq!(
        Check::Storage(StorageCheck::Owned).hint(&vec![]).as_deref(),
        Some(StorageCheck::Owned.remediation())
    );
}
