use session_wrapper::error::ErrorKind;
use session_wrapper::identifier::Identifier;
use session_wrapper::invocation::{
    classify_account, classify_command, classify_completion, classify_parsed, help_topic_node,
    route, token_ingest, AccountArgs, AccountCommand, Command, HelpTopic, InvocationKind,
    LoginArgs, OutputMode, ParsedCli, RemoveArgs, Shell, TokenSource, Verbosity,
};

fn args(list: &[&str]) -> Vec<Vec<u8>> {
    list.iter().map(|a| a.as_bytes().to_vec()).collect()
}

fn id(text: &str) -> Identifier {
    Identifier::parse(text).expect("identifier")
}

fn bare() -> ParsedCli {
    ParsedCli {
        verbose: 0,
        quiet: false,
        config: None,
        account: None,
        profile: None,
        version_flag: false,
        help_flag: false,
        command: None,
    }
}

#[test]
fn a_wrapper_verb_after_the_flags_is_rescued() {
    let (wrapper, child) = route(&args(&["session-wrapper", "--verbose", "doctor", "--json"])).expect("routes");
    assert_eq!(wrapper, args(&["session-wrapper", "--verbose", "doctor", "--json"]));
    assert!(child.is_empty());
}

#[test]
fn a_sentinel_keeps_a_verb_for_the_child() {
    let (wrapper, child) = route(&args(&["session-wrapper", "--", "doctor"])).expect("routes");
    assert_eq!(wrapper, args(&["session-wrapper"]));
    assert_eq!(child, args(&["doctor"]));
}

#[test]
fn other_arguments_stay_with_the_child() {
    let (wrapper, child) = route(&args(&["session-wrapper", "--profile", "work", "-p", "hi"])).expect("routes");
    assert_eq!(wrapper, args(&["session-wrapper", "--profile", "work"]));
    assert_eq!(child, args(&["-p", "hi"]));
}

#[test]
fn requested_help_and_version_win_over_the_verb() {
    let mut cli = bare();
    cli.help_flag = true;
    cli.command = Some(Command::Version { json: true });
    let invocation = classify_parsed(cli, Vec::new(), "", "").expect("classifies");
    assert!(matches!(invocation.kind, InvocationKind::Help));
    let mut cli = bare();
    cli.version_flag = true;
    cli.verbose = 2;
    let invocation = classify_parsed(cli, Vec::new(), "", "").expect("classifies");
    assert!(matches!(invocation.kind, InvocationKind::Version { mode: OutputMode::Human }));
    assert_eq!(invocation.verbosity(), Verbosity::Debug);
}

#[test]
fn no_verb_passes_the_child_arguments_through() {
    let mut cli = bare();
    cli.account = Some(id("work"));
    let invocation = classify_parsed(cli, args(&["-p", "x"]), "", "").expect("classifies");
    match invocation.kind {
        InvocationKind::Passthrough(child) => assert_eq!(child, args(&["-p", "x"])),
        other => panic!("expected passthrough, got {other:?}"),
    }
    assert_eq!(
        invocation.config_overrides.account.as_ref().map(Identifier::as_str),
        Some("work")
    );
}

#[test]
fn report_verbs_answer_help_before_their_mode() {
    let kind = classify_command(
        Some(Command::Config {
            help_flag: true,
            json: true,
        }),
        Vec::new(),
        "",
        "",
    )
    .expect("classifies");
    assert!(matches!(kind, InvocationKind::VerbHelp { verb: "config", subcommand: None }));
    let kind = classify_command(
        Some(Command::Profile {
            help_flag: false,
            json: true,
        }),
        Vec::new(),
        "",
        "",
    )
    .expect("classifies");
    assert!(matches!(kind, InvocationKind::Profile { mode: OutputMode::Json }));
    let kind = classify_command(
        Some(Command::Doctor {
            json: false,
            list: true,
            strict: true,
        }),
        Vec::new(),
        "",
        "",
    )
    .expect("classifies");
    assert!(matches!(
        kind,
        InvocationKind::Doctor {
            mode: OutputMode::Human,
            list: true,
            strict: true
        }
    ));
    let kind = classify_command(Some(Command::Man { help_flag: false }), Vec::new(), "", "")
        .expect("classifies");
    assert!(matches!(kind, InvocationKind::Man));
}

#[test]
fn help_topics_route_to_their_node() {
    assert_eq!(help_topic_node(HelpTopic::Account), "account");
    assert_eq!(help_topic_node(HelpTopic::Profile), "profile");
    let kind = classify_command(
        Some(Command::Help {
            verb: Some(HelpTopic::Man),
        }),
        Vec::new(),
        "",
        "",
    )
    .expect("classifies");
    assert!(matches!(kind, InvocationKind::VerbHelp { verb: "man", subcommand: None }));
}

#[test]
fn a_bare_account_answers_with_its_own_help() {
    let error = classify_account(
        AccountArgs {
            help_flag: false,
            command: None,
        },
        "Usage: session-wrapper account <COMMAND>",
    )
    .expect_err("a namespace needs a subcommand");
    assert_eq!(error.kind(), ErrorKind::Usage);
    assert_eq!(error.diagnostic().what, "account requires a subcommand");
    assert_eq!(error.diagnostic().why, "Usage: session-wrapper account <COMMAND>");
    assert_eq!(error.diagnostic().hint, "run session-wrapper-rs account --help");
}

#[test]
fn account_help_names_the_subcommand() {
    let kind = classify_account(
        AccountArgs {
            help_flag: true,
            command: Some(AccountCommand::List { json: false }),
        },
        "",
    )
    .expect("help");
    assert!(matches!(kind, InvocationKind::VerbHelp { verb: "account", subcommand: Some("list") }));
}

#[test]
fn account_subcommands_carry_their_arguments() {
    let kind = classify_account(
        AccountArgs {
            help_flag: false,
            command: Some(AccountCommand::Remove(RemoveArgs {
                name: id("old"),
                yes: true,
                json: true,
            })),
        },
        "",
    )
    .expect("classifies");
    match kind {
        InvocationKind::AccountRemove {
            name,
            consented,
            mode,
        } => {
            assert_eq!(name.as_str(), "old");
            assert!(consented);
            assert_eq!(mode, OutputMode::Json);
        }
        other => panic!("unexpected {other:?}"),
    }
    let kind = classify_account(
        AccountArgs {
            help_flag: false,
            command: Some(AccountCommand::Login(LoginArgs {
                name: None,
                token: true,
                stdin: true,
                minted_at: Some("2026-08-11T12:34:56Z".to_string()),
                json: false,
            })),
        },
        "",
    )
    .expect("classifies");
    match kind {
        InvocationKind::AccountLogin { token: Some(t), .. } => {
            assert_eq!(t.source, TokenSource::Stdin);
            assert_eq!(t.minted_at.map(|m| m.as_str().to_string()).as_deref(), Some("2026-08-11T12:34:56Z"));
        }
        other => panic!("unexpected {other:?}"),
    }
}

#[test]
fn a_malformed_mint_time_is_a_usage_error() {
    let error = token_ingest(true, false, Some("yesterday".to_string())).err().expect("refused");
    assert_eq!(error.kind(), ErrorKind::Usage);
    assert_eq!(error.diagnostic().where_, "--minted-at");
    assert_eq!(error.diagnostic().why, "recorded_at must be RFC 3339 UTC seconds");
    assert!(token_ingest(false, true, Some("yesterday".to_string())).expect("ignored").is_none());
    let ingest = token_ingest(true, false, None).expect("ok").expect("some");
    assert_eq!(ingest.source, TokenSource::Terminal);
}

#[test]
fn completion_needs_a_shell_unless_help_was_asked() {
    assert!(matches!(
        classify_completion(false, Some(Shell::Zsh), "").expect("ok"),
        InvocationKind::Completion { shell: Shell::Zsh }
    ));
    assert!(matches!(
        classify_completion(true, None, "").expect("ok"),
        InvocationKind::VerbHelp { verb: "completion", .. }
    ));
    let error = classify_completion(false, None, "completion help").expect_err("refused");
    assert_eq!(error.diagnostic().what, "completion requires a shell");
    assert_eq!(error.diagnostic().why, "completion help");
}
