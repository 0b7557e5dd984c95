use session_wrapper::error::{AppError, Diagnostic, DomainError, ErrorKind};

fn diagnostic() -> Diagnostic {
    Diagnostic::new(
        "w".to_string(),
        "x".to_string(),
        "y".to_string(),
        "z".to_string(),
    )
}

#[test]
fn exit_code_matrix_is_exhaustive() {
    let cases = [
        (AppError::Usage(diagnostic()), "Usage", 64),
        (AppError::DataFormat(diagnostic()), "DataFormat", 65),
        (AppError::NoInput(diagnostic()), "NoInput", 66),
        (AppError::Unavailable(diagnostic()), "Unavailable", 69),
        (AppError::Internal(diagnostic()), "Internal", 70),
        (AppError::OsError(diagnostic()), "OsError", 71),
        (AppError::Io(diagnostic()), "Io", 74),
        (AppError::LockBusy(diagnostic()), "LockBusy", 75),
        (AppError::Auth(diagnostic()), "Auth", 77),
        (AppError::Permission(diagnostic()), "Permission", 77),
        (AppError::Config(diagnostic()), "Config", 78),
        (AppError::ChildRecursion(diagnostic()), "ChildRecursion", 78),
        (
            AppError::ChildNotExecutable(diagnostic()),
            "ChildNotExecutable",
            126,
        ),
        (AppError::ChildNotFound(diagnostic()), "ChildNotFound", 127),
    ];
    for (error, spelling, code) in cases {
        assert_eq!(error.kind().spelling(), spelling);
        assert_eq!(error.exit_code(), code);
    }
}

#[test]
fn an_error_rebuilt_from_its_kind_keeps_kind_and_diagnostic() {
    let error = AppError::new(ErrorKind::LockBusy, diagnostic());
    assert_eq!(error.kind(), ErrorKind::LockBusy);
    assert_eq!(error.diagnostic().what, "w");
    assert_eq!(error.exit_code(), 75);
}

#[test]
fn a_domain_refusal_becomes_a_usage_or_configuration_error() {
    let usage = AppError::from_domain(DomainError::InvalidIdentifier("Bad".to_string()));
    assert_eq!(usage.exit_code(), 64);
    let config = AppError::from_domain(DomainError::Semantic("bad pointer".to_string()));
    assert_eq!(config.kind(), ErrorKind::Config);
}

#[test]
fn a_rendered_error_lists_its_sections() {
    let error = AppError::child_not_found("PATH".to_string(), "not found".to_string());
    let text = error.render();
    assert!(text.contains("not found"), "{text}");
    assert_eq!(error.exit_code(), 127);
}
