use session_wrapper::checks::{catalog, Check, CheckResult, CheckStatus, ChildStatus, Scope};
use session_wrapper::child::{CapturedChild, ChildOutcome, ChildVersion};
use session_wrapper::doctor::{
    bootstrap_results, child_report, floor_hint, leading_results, patch_child_race,
    program_results, skip_scope, skip_storage, version_check, version_result,
};
use session_wrapper::error::{AppError, Diagnostic, ErrorKind};

fn error(kind: ErrorKind, where_: &str, why: &str) -> AppError {
    AppError::new(
        kind,
        Diagnostic::new(
            "failed".to_string(),
            where_.to_string(),
            why.to_string(),
            "hint".to_string(),
        ),
    )
}

fn captured(stdout: &[u8], outcome: ChildOutcome) -> CapturedChild {
    CapturedChild {
        stdout: stdout.to_vec(),
        stderr: Vec::new(),
        outcome,
    }
}

#[test]
fn a_current_child_meets_the_floor() {
    let row = version_result(Ok(captured(b"2.1.211 (agent)\n", ChildOutcome::Exited(0))));
    assert_eq!(row.status, CheckStatus::Pass);
    assert_eq!(row.message, "2.1.211, which meets the 2.1.211 minimum");
    let newer = version_check(
        Some(ChildVersion {
            major: 3,
            minor: 0,
            patch: 0,
        }),
        "3.0.0",
    );
    assert_eq!(newer.message, "3.0.0, which meets the 2.1.211 minimum");
}

#[test]
fn an_old_child_is_a_warning_with_the_floor_hint() {
    let row = version_result(Ok(captured(b"2.1.9\n", ChildOutcome::Exited(0))));
    assert_eq!(row.status, CheckStatus::Warn);
    assert_eq!(
        row.message,
        "agent reports 2.1.9, older than the 2.1.211 this wrapper is designed against."
    );
    assert_eq!(row.hint.as_deref(), Some(floor_hint().as_str()));
    assert!(floor_hint().contains("below the 2.1.211 this wrapper"));
    assert!(floor_hint().contains("{version}"));
}

#[test]
fn an_answer_without_a_version_is_quoted_back_trimmed() {
    let row = version_result(Ok(captured(b"  no version here \n", ChildOutcome::Exited(0))));
    assert_eq!(
        row.message,
        "agent answered \"no version here\", which carries no version number this wrapper could read, so the 2.1.211 minimum is unconfirmed."
    );
}

#[test]
fn a_failed_version_run_leaves_the_floor_unconfirmed() {
    let row = version_result(Ok(captured(b"2.1.211", ChildOutcome::Exited(1))));
    assert_eq!(
        row.message,
        "agent --version did not exit successfully, so the minimum version is unconfirmed."
    );
    let row = version_result(Err(error(ErrorKind::Io, "x", "it broke")));
    assert_eq!(row.message, "it broke");
    assert_eq!(row.status, CheckStatus::Warn);
}

#[test]
fn the_child_report_carries_its_own_level() {
    let (report, race) = child_report(Some(Ok(captured(b"fine", ChildOutcome::Exited(0)))));
    assert_eq!(report.status, ChildStatus::Pass);
    assert_eq!(report.exit, Some(0));
    assert_eq!(report.output.as_deref(), Some(b"fine".as_slice()));
    assert!(race.is_none());
    let (report, _) = child_report(Some(Ok(captured(b"", ChildOutcome::Exited(3)))));
    assert_eq!(report.status, ChildStatus::Fail);
    assert_eq!(report.exit, Some(3));
    let (report, _) = child_report(Some(Ok(captured(b"", ChildOutcome::Signaled(9)))));
    assert_eq!(report.status, ChildStatus::Fail);
    assert_eq!(
        report.reason.as_deref(),
        Some("agent doctor was terminated by signal 9")
    );
    let (report, _) = child_report(Some(Ok(captured(b"", ChildOutcome::Signaled(-2)))));
    assert_eq!(
        report.reason.as_deref(),
        Some("agent doctor was terminated by signal -2")
    );
    let (report, race) = child_report(None);
    assert_eq!(report.status, ChildStatus::Skipped);
    assert_eq!(
        report.reason.as_deref(),
        Some("agent could not be found or could not be run")
    );
    assert!(race.is_none());
}

#[test]
fn a_vanished_child_is_a_race_handed_back() {
    let (report, race) = child_report(Some(Err(error(ErrorKind::ChildNotFound, "/bin/agent", "gone"))));
    assert_eq!(report.status, ChildStatus::Skipped);
    assert_eq!(report.reason.as_deref(), Some("gone"));
    assert!(race.is_some());
    let (report, race) = child_report(Some(Err(error(ErrorKind::Io, "/bin/agent", "broken pipe"))));
    assert_eq!(report.status, ChildStatus::Fail);
    assert!(race.is_none());
}

#[test]
fn a_race_rejudges_only_its_own_row() {
    let mut rows: Vec<CheckResult> = catalog()
        .into_iter()
        .take(6)
        .map(|check| CheckResult::pass(check, "ok".to_string()))
        .collect();
    patch_child_race(&mut rows, &error(ErrorKind::ChildNotExecutable, "/bin/agent", "no x bit"));
    assert_eq!(rows[4].status, CheckStatus::Fail);
    assert_eq!(rows[4].message, "no x bit");
    assert!(rows[4].hint.as_deref().unwrap_or("").starts_with("/bin/agent exists"));
    assert_eq!(rows[3].status, CheckStatus::Pass);
    patch_child_race(&mut rows, &error(ErrorKind::ChildNotFound, "", "vanished"));
    assert_eq!(rows[3].status, CheckStatus::Fail);
    assert_eq!(rows[3].message, "vanished");
    patch_child_race(&mut rows, &error(ErrorKind::Io, "", "other"));
    assert_eq!(rows[5].status, CheckStatus::Pass);
}

#[test]
fn resolution_becomes_two_rows() {
    let (rows, runnable) = program_results(&Ok(b"/usr/bin/agent".to_vec()));
    assert!(runnable);
    assert_eq!(rows[0].message, "/usr/bin/agent");
    assert_eq!(rows[1].message, "this user can run it");
    let (rows, runnable) =
        program_results(&Err(error(ErrorKind::ChildNotExecutable, "/opt/agent", "not executable")));
    assert!(!runnable);
    assert_eq!(rows[0].status, CheckStatus::Pass);
    assert_eq!(rows[0].message, "/opt/agent");
    assert_eq!(rows[1].status, CheckStatus::Fail);
    let (rows, _) = program_results(&Err(error(ErrorKind::ChildNotFound, "", "no agent on PATH")));
    assert_eq!(rows[0].status, CheckStatus::Fail);
    assert_eq!(rows[1].status, CheckStatus::Skipped);
    assert_eq!(
        rows[1].reason.as_deref(),
        Some("there is no agent to test. Install it first, as the check above says.")
    );
}

#[test]
fn a_failed_bootstrap_skips_everything_below_it() {
    let rows = bootstrap_results("HOME is not set".to_string(), None);
    assert_eq!(rows.len(), catalog().len());
    assert_eq!(rows[0].check, Check::BaseDirsResolve);
    assert_eq!(rows[0].status, CheckStatus::Fail);
    assert_eq!(rows[0].message, "HOME is not set");
    assert!(rows[0].hint.is_some());
    assert_eq!(rows[1].status, CheckStatus::Warn);
    assert!(rows[1].hint.is_none());
    assert!(rows[2..].iter().all(|row| row.status == CheckStatus::Skipped));
    let rows = bootstrap_results("x".to_string(), Some(&b"/run/user/1000".to_vec()));
    assert_eq!(rows[1].status, CheckStatus::Pass);
    assert_eq!(rows[1].message, "/run/user/1000");
}

#[test]
fn the_leading_rows_name_the_roots() {
    let rows = leading_results(&b"/c".to_vec(), &b"/s".to_vec(), None, None);
    assert_eq!(rows[0].message, "settings in /c, state in /s");
    assert_eq!(rows[2].message, "read, with every key recognized");
    let broken = error(ErrorKind::Config, "config", "bad key");
    let rows = leading_results(&b"/c".to_vec(), &b"/s".to_vec(), None, Some(&broken));
    assert_eq!(rows[2].status, CheckStatus::Fail);
    assert_eq!(rows[2].hint.as_deref(), Some("hint"));
}

#[test]
fn skips_follow_the_catalog_filter() {
    let session = skip_scope(Scope::Session, "no session");
    let expected: Vec<Check> = catalog()
        .into_iter()
        .filter(|c| c.scope() == Scope::Session)
        .collect();
    assert_eq!(session.iter().map(|r| r.check).collect::<Vec<_>>(), expected);
    let storage = skip_storage("nothing selected");
    assert_eq!(storage.len(), 5);
    assert!(storage.iter().all(|r| matches!(r.check, Check::Storage(_))));
}
