use session_wrapper::child::ChildOutcome;
use session_wrapper::error::{AppError, Diagnostic, ErrorKind};
use session_wrapper::identifier::Identifier;
use session_wrapper::login::{
    binding_failure, cleanup_failure, confirmation_unavailable, login_account, login_environment,
    login_profile, native_login_invocation, native_terminal, native_verdict, removal_prompt, validate_binding,
    BindingSource,
};
use session_wrapper::resolve::Source;

fn id(text: &str) -> Identifier {
    Identifier::parse(text).expect("identifier")
}

fn failure(kind: ErrorKind, why: &str) -> AppError {
    AppError::new(
        kind,
        Diagnostic::new("w".to_string(), "/x".to_string(), why.to_string(), "h".to_string()),
    )
}

#[test]
fn a_login_names_its_account_or_uses_the_selected_one() {
    assert_eq!(login_account(Some(id("a")), Some(&id("b"))).expect("ok").as_str(), "a");
    assert_eq!(login_account(None, Some(&id("b"))).expect("ok").as_str(), "b");
    let error = login_account(None, None).expect_err("none");
    assert_eq!(error.kind(), ErrorKind::Usage);
    assert_eq!(error.diagnostic().what, "account login needs an account");
}

#[test]
fn the_login_profile_ladder_refuses_rather_than_guessing() {
    let (p, s) = login_profile(Some(id("cli")), Some(id("bound")), Some((id("conf"), Source::User))).expect("ok");
    assert_eq!((p.as_str(), s), ("cli", BindingSource::Cli));
    let (p, s) = login_profile(None, Some(id("bound")), Some((id("conf"), Source::User))).expect("ok");
    assert_eq!((p.as_str(), s), ("bound", BindingSource::Account));
    let (p, s) = login_profile(None, None, Some((id("conf"), Source::Environment))).expect("ok");
    assert_eq!((p.as_str(), s), ("conf", BindingSource::Configured(Source::Environment)));
    let error = login_profile(None, None, None).expect_err("refused");
    assert_eq!(error.kind(), ErrorKind::Config);
    assert_eq!(
        error.diagnostic().why,
        "no profile was given, this account has no binding, and no default_profile is configured"
    );
}

#[test]
fn a_native_login_needs_a_terminal() {
    assert!(native_terminal(Ok(true)).is_ok());
    let error = native_terminal(Ok(false)).expect_err("refused");
    assert_eq!(error.kind(), ErrorKind::Unavailable);
    assert_eq!(error.diagnostic().where_, "/dev/tty");
    let error = native_terminal(Err("ENXIO".to_string())).expect_err("refused");
    assert_eq!(error.diagnostic().why, "ENXIO");
}

#[test]
fn the_login_environment_points_the_child_at_the_account() {
    let environment = vec![
        (b"HOME".to_vec(), b"/h".to_vec()),
        (b"AGENT_CONFIG_DIR".to_vec(), b"/elsewhere".to_vec()),
        (b"PATH".to_vec(), b"/bin".to_vec()),
    ];
    let built = login_environment(environment, b"/s/accounts/work/config".to_vec());
    assert_eq!(
        built,
        vec![
            (b"HOME".to_vec(), b"/h".to_vec()),
            (b"PATH".to_vec(), b"/bin".to_vec()),
            (b"AGENT_CONFIG_DIR".to_vec(), b"/s/accounts/work/config".to_vec()),
        ]
    );
}

#[test]
fn a_native_login_outcome_decides_the_commit() {
    assert!(native_verdict(Ok(ChildOutcome::Exited(0)), Ok(true)).is_ok());
    let error = native_verdict(Ok(ChildOutcome::Exited(0)), Ok(false)).expect_err("no login left");
    assert_eq!(error.kind(), ErrorKind::Auth);
    assert_eq!(
        error.diagnostic().why,
        "the child exited successfully but did not leave a safe saved-login path"
    );
    assert_eq!(error.diagnostic().child_exit, Some(0));
    let error = native_verdict(Ok(ChildOutcome::Exited(2)), Ok(false)).expect_err("failed");
    assert_eq!(error.diagnostic().why, "agent auth login returned Exited(2)");
    assert_eq!(error.diagnostic().child_exit, Some(2));
    let error = native_verdict(Ok(ChildOutcome::Signaled(15)), Ok(false)).expect_err("killed");
    assert_eq!(error.diagnostic().why, "agent auth login returned Signaled(15)");
    assert_eq!(error.diagnostic().child_exit, None);
    let error = native_verdict(Ok(ChildOutcome::Exited(0)), Err(failure(ErrorKind::Permission, "mode 644")))
        .expect_err("storage defect");
    assert_eq!(error.kind(), ErrorKind::Permission);
    let error = native_verdict(Err(failure(ErrorKind::ChildNotFound, "gone")), Ok(false)).expect_err("no run");
    assert_eq!(error.kind(), ErrorKind::ChildNotFound);
}

#[test]
fn a_binding_failure_says_what_survived() {
    let error = binding_failure(&failure(ErrorKind::Io, "disk full..."), &id("work"), &id("dev"));
    assert_eq!(error.kind(), ErrorKind::Io);
    assert_eq!(error.diagnostic().what, "account authenticated but its profile was not recorded");
    assert_eq!(
        error.diagnostic().why,
        "disk full. The credential for \"work\" is stored and usable, so this login is not being undone; only the profile binding is missing"
    );
    assert_eq!(error.diagnostic().hint, "run session-wrapper-rs account bind work --profile dev");
}

#[test]
fn a_failed_cleanup_folds_in_the_login_failure() {
    let error = cleanup_failure(
        &failure(ErrorKind::Io, "could not remove /a"),
        Some(&failure(ErrorKind::Auth, "login failed")),
    );
    assert_eq!(error.diagnostic().why, "could not remove /a after login failed");
    let error = cleanup_failure(&failure(ErrorKind::Io, "could not remove /a"), None);
    assert_eq!(error.diagnostic().why, "could not remove /a");
}

#[test]
fn removal_asks_one_question() {
    assert_eq!(
        removal_prompt(&id("work")),
        "This deletes everything this wrapper stored for \"work\", and revokes nothing at the provider.\nRemove it? [y/N] "
    );
    let error = confirmation_unavailable("no tty".to_string());
    assert_eq!(error.diagnostic().hint, "pass --yes to remove without confirming");
}

#[test]
fn a_launch_needs_both_halves_of_its_binding() {
    let profiles = b"/c/session-wrapper/profiles".to_vec();
    assert!(validate_binding(Some(&id("a")), Some(&id("p")), &profiles).is_ok());
    let error = validate_binding(None, Some(&id("p")), &profiles).expect_err("no account");
    assert_eq!(error.kind(), ErrorKind::Config);
    assert_eq!(
        error.diagnostic().where_,
        "this launch, which resolved the \"p\" profile but no account"
    );
    assert_eq!(
        error.diagnostic().hint,
        "run session-wrapper account login <name>, then select it with --account or default_account"
    );
    let error = validate_binding(Some(&id("a")), None, &profiles).expect_err("no profile");
    assert_eq!(error.diagnostic().why, "a child launch requires a resolved profile");
    assert_eq!(
        error.diagnostic().hint,
        "write a profile at /c/session-wrapper/profiles/<name>.yaml, then bind it with session-wrapper account bind <account> --profile <name>, or select it with --profile or default_profile"
    );
    let error = validate_binding(None, None, &profiles).expect_err("neither");
    assert_eq!(
        error.diagnostic().hint,
        "run session-wrapper account login <name> and write a profile at /c/session-wrapper/profiles/<name>.yaml, then select each with --account and --profile or with default_account and default_profile"
    );
}

#[test]
fn a_native_login_runs_auth_login_in_the_account_directory() {
    let environment = vec![
        (b"AGENT_CONFIG_DIR".to_vec(), b"/elsewhere".to_vec()),
        (b"PATH".to_vec(), b"/bin".to_vec()),
    ];
    let invocation = native_login_invocation(b"/usr/bin/agent".to_vec(), environment, b"/s/accounts/work/config".to_vec());
    assert_eq!(invocation.program, b"/usr/bin/agent".to_vec());
    assert_eq!(invocation.arguments, vec![b"auth".to_vec(), b"login".to_vec()]);
    assert_eq!(
        invocation.environment,
        vec![
            (b"PATH".to_vec(), b"/bin".to_vec()),
            (b"AGENT_CONFIG_DIR".to_vec(), b"/s/accounts/work/config".to_vec()),
        ]
    );
}
