use session_wrapper::logging::{enabled, event_line, mirrored, to_file, to_terminal, unquote, LogLevel};
use session_wrapper::version::{
    captured_report, child_help, failed_report, missing_section, resolution_status,
    wrapped_sentence,
};
use session_wrapper::child::{CapturedChild, ChildOutcome};
use session_wrapper::error::{AppError, Diagnostic, ErrorKind};

#[test]
fn trace_goes_only_to_a_trace_terminal() {
    assert!(!to_file(LogLevel::Trace));
    assert!(to_file(LogLevel::Debug));
    assert!(to_file(LogLevel::Error));
    assert!(to_terminal(LogLevel::Warn, Some(LogLevel::Warn)));
    assert!(!to_terminal(LogLevel::Info, Some(LogLevel::Warn)));
    assert!(!to_terminal(LogLevel::Error, None));
    assert!(enabled(LogLevel::Trace, Some(LogLevel::Trace)));
    assert!(!enabled(LogLevel::Trace, Some(LogLevel::Debug)));
}

#[test]
fn a_record_line_carries_its_fields_in_order() {
    let rest = vec![
        ("account".to_string(), "work".to_string()),
        ("path".to_string(), "\"/a b\"".to_string()),
    ];
    let line = event_line(
        "2026-01-01T00:00:00.000Z",
        LogLevel::Info,
        "session_wrapper::launch",
        "launch",
        "\"starting child\"",
        "ok",
        "",
        "",
        &rest,
    );
    assert_eq!(
        line,
        "ts=2026-01-01T00:00:00.000Z level=info target=session_wrapper::launch op=launch msg=\"starting child\" status=ok account=work path=\"/a b\"\n"
    );
}

#[test]
fn only_the_delimiters_debug_added_are_removed() {
    assert_eq!(unquote("\"hello\""), "hello");
    assert_eq!(unquote("\"say \\\"hi\\\"\""), "say \\\"hi\\\"");
    assert_eq!(unquote("42"), "42");
    assert_eq!(unquote("\""), "\"");
    assert!(mirrored(None));
    assert!(!mirrored(Some("false")));
    assert!(mirrored(Some("true")));
}

fn error(kind: ErrorKind) -> AppError {
    AppError::new(
        kind,
        Diagnostic::new(String::new(), String::new(), "why".to_string(), String::new()),
    )
}

#[test]
fn the_version_report_names_the_child() {
    let captured = CapturedChild {
        stdout: b"2.1.300 (Agent)\n".to_vec(),
        stderr: Vec::new(),
        outcome: ChildOutcome::Exited(0),
    };
    let report = captured_report(&b"/usr/bin/agent".to_vec(), &captured);
    assert_eq!(report.status, "ok");
    assert_eq!(report.version.as_deref(), Some("2.1.300"));
    assert_eq!(report.path.as_deref(), Some("/usr/bin/agent"));
    let failed = CapturedChild {
        stdout: b"2.1.300".to_vec(),
        stderr: Vec::new(),
        outcome: ChildOutcome::Exited(1),
    };
    assert_eq!(captured_report(&b"/a".to_vec(), &failed).status, "unparsable");
    assert_eq!(resolution_status(&error(ErrorKind::ChildNotFound)), "not-found");
    assert_eq!(resolution_status(&error(ErrorKind::ChildRecursion)), "not-executable");
    assert_eq!(resolution_status(&error(ErrorKind::Io)), "unparsable");
    let report = failed_report(None, &error(ErrorKind::ChildNotFound));
    assert!(report.path.is_none());
    assert_eq!(
        wrapped_sentence(Some(&b"/usr/bin/agent".to_vec())),
        "It wraps the agent at /usr/bin/agent, whose own version follows."
    );
    assert_eq!(
        missing_section("it vanished"),
        "agent could not be run, so its own report is missing: it vanished."
    );
    assert_eq!(child_help("doctor", None), Some(vec!["doctor", "--help"]));
    assert_eq!(child_help("doctor", Some("x")), None);
    assert_eq!(child_help("account", None), None);
}
