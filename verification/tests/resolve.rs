use session_wrapper::config::schema::keys;
use session_wrapper::identifier::Identifier;
use session_wrapper::resolve::{
    apply_environment, apply_file_config, apply_overrides, discover_project, environment_spelling,
    resolve_layers,
    ConfigError, FileConfig, FileLayer, ResolvedConfig, Source,
};

fn file(child: Option<&str>, account: Option<&str>, profile: Option<&str>) -> FileConfig {
    FileConfig {
        child_bin: child.map(|c| c.as_bytes().to_vec()),
        default_account: account.map(str::to_string),
        default_profile: profile.map(str::to_string),
    }
}

fn env(pairs: &[(&[u8], &[u8])]) -> Vec<(Vec<u8>, Vec<u8>)> {
    pairs.iter().map(|(k, v)| (k.to_vec(), v.to_vec())).collect()
}

fn id(text: &str) -> Identifier {
    Identifier::parse(text).expect("identifier")
}

#[test]
fn every_configuration_field_has_a_described_key() {
    let mut document = String::new();
    for key in keys() {
        document.push_str(&format!("{} = \"placeholder\"\n", key.name));
    }
    let table: toml::Table = toml::from_str(&document).expect("the document is TOML");
    let decoded = FileConfig {
        child_bin: table.get("child_bin").map(|v| v.as_str().unwrap_or("").as_bytes().to_vec()),
        default_account: table.get("default_account").map(|v| v.to_string()),
        default_profile: table.get("default_profile").map(|v| v.to_string()),
    };
    for key in table.keys() {
        assert!(
            ["child_bin", "default_account", "default_profile"].contains(&key.as_str()),
            "{key} is not a configuration field"
        );
    }
    let set = [
        decoded.child_bin.is_some(),
        decoded.default_account.is_some(),
        decoded.default_profile.is_some(),
    ];
    assert_eq!(set.iter().filter(|value| **value).count(), keys().len());
}

#[test]
fn a_user_file_sets_each_key_it_names() {
    let mut resolved = ResolvedConfig::defaults();
    apply_file_config(
        &mut resolved,
        file(Some("/opt/agent"), Some("work"), None),
        "/home/u/.config/session-wrapper/config.toml",
        Source::User,
        false,
    )
    .expect("accepted");
    assert_eq!(resolved.child_bin.value(), Some(&b"/opt/agent".to_vec()));
    assert_eq!(resolved.child_bin.source(), Source::User);
    assert_eq!(resolved.default_account.value().map(|a| a.as_str()), Some("work"));
    assert_eq!(resolved.default_account.source(), Source::User);
    assert!(resolved.default_profile.value().is_none());
    assert_eq!(resolved.default_profile.source(), Source::Default);
}

#[test]
fn a_project_file_may_not_choose_the_binary_or_the_account() {
    let mut resolved = ResolvedConfig::defaults();
    let error = apply_file_config(
        &mut resolved,
        file(Some("/opt/agent"), Some("work"), None),
        "repo/.session-wrapper.toml",
        Source::Project,
        true,
    )
    .expect_err("refused");
    assert_eq!(
        error.message(),
        "invalid configuration file repo/.session-wrapper.toml: key `child_bin` is not allowed in a project file"
    );
    let error = apply_file_config(
        &mut resolved,
        file(None, Some("work"), Some("review")),
        "p",
        Source::Project,
        true,
    )
    .expect_err("refused");
    assert_eq!(
        error.message(),
        "invalid configuration file p: key `default_account` is not allowed in a project file"
    );
    apply_file_config(&mut resolved, file(None, None, Some("review")), "p", Source::Project, true)
        .expect("a project file may choose the profile");
    assert_eq!(resolved.default_profile.source(), Source::Project);
}

#[test]
fn a_file_identifier_outside_the_grammar_is_quoted_back() {
    let mut resolved = ResolvedConfig::defaults();
    let error = apply_file_config(&mut resolved, file(None, Some("Work"), None), "c.toml", Source::User, false)
        .expect_err("refused");
    assert!(matches!(error, ConfigError::Identifier { key: "default_account", .. }));
    assert_eq!(
        error.message(),
        "invalid configuration value for default_account from c.toml: Work"
    );
    let app = error.into_app_error();
    assert_eq!(app.diagnostic().what, "configuration is invalid");
    assert_eq!(app.diagnostic().hint, "correct the named value or file");
}

#[test]
fn the_last_environment_entry_for_a_variable_wins() {
    let mut resolved = ResolvedConfig::defaults();
    let vars = env(&[
        (b"SESSION_WRAPPER_DEFAULT_PROFILE", b"first"),
        (b"HOME", b"/home/u"),
        (b"SESSION_WRAPPER_CHILD_BIN", b"/bin/\xffagent"),
        (b"SESSION_WRAPPER_DEFAULT_PROFILE", b"second"),
    ]);
    apply_environment(&mut resolved, &vars).expect("accepted");
    assert_eq!(resolved.default_profile.value().map(|p| p.as_str()), Some("second"));
    assert_eq!(resolved.default_profile.source(), Source::Environment);
    assert_eq!(resolved.child_bin.value(), Some(&b"/bin/\xffagent".to_vec()));
    assert!(resolved.default_account.value().is_none());
}

#[test]
fn a_non_utf8_environment_identifier_is_a_value_error() {
    let mut resolved = ResolvedConfig::defaults();
    let vars = env(&[(b"SESSION_WRAPPER_DEFAULT_ACCOUNT", b"w\xffrk")]);
    let error = apply_environment(&mut resolved, &vars).expect_err("refused");
    assert_eq!(
        error.message(),
        "invalid configuration value for default_account from environment (non-UTF-8)"
    );
}

#[test]
fn an_environment_identifier_outside_the_grammar_names_the_variable() {
    let mut resolved = ResolvedConfig::defaults();
    let vars = env(&[
        (b"SESSION_WRAPPER_DEFAULT_PROFILE", "r\u{e9}view".as_bytes()),
        (b"SESSION_WRAPPER_DEFAULT_ACCOUNT", b"BAD"),
    ]);
    let error = apply_environment(&mut resolved, &vars).expect_err("refused");
    assert_eq!(
        error.message(),
        "invalid configuration value for default_profile from SESSION_WRAPPER_DEFAULT_PROFILE: r\u{e9}view"
    );
    assert_eq!(environment_spelling("default_account"), "SESSION_WRAPPER_DEFAULT_ACCOUNT");
    assert_eq!(environment_spelling("default_profile"), "SESSION_WRAPPER_DEFAULT_PROFILE");
}

#[test]
fn the_command_line_wins_over_every_other_layer() {
    let mut resolved = ResolvedConfig::defaults();
    apply_environment(&mut resolved, &env(&[(b"SESSION_WRAPPER_DEFAULT_ACCOUNT", b"env")])).expect("accepted");
    apply_overrides(&mut resolved, Some(id("cli")), None);
    assert_eq!(resolved.default_account.value().map(|a| a.as_str()), Some("cli"));
    assert_eq!(resolved.default_account.source(), Source::Cli);
    assert_eq!(resolved.default_profile.source(), Source::Default);
}

#[test]
fn layers_resolve_in_precedence_order() {
    let user = FileLayer {
        origin: "user.toml".to_string(),
        config: file(Some("/usr/bin/agent"), Some("personal"), Some("base")),
    };
    let project = FileLayer {
        origin: "project.toml".to_string(),
        config: file(None, None, Some("repo")),
    };
    let vars = env(&[(b"SESSION_WRAPPER_DEFAULT_ACCOUNT", b"team")]);
    let resolved = resolve_layers(Some(user), Some(project), &vars, None, Some(id("cli"))).expect("accepted");
    assert_eq!(resolved.child_bin.source(), Source::User);
    assert_eq!(resolved.default_account.value().map(|a| a.as_str()), Some("team"));
    assert_eq!(resolved.default_account.source(), Source::Environment);
    assert_eq!(resolved.default_profile.value().map(|p| p.as_str()), Some("cli"));
    assert_eq!(resolved.default_profile.source(), Source::Cli);

    let project = FileLayer {
        origin: "project.toml".to_string(),
        config: file(None, None, Some("repo")),
    };
    let resolved = resolve_layers(None, Some(project), &Vec::new(), None, None).expect("accepted");
    assert_eq!(resolved.default_profile.value().map(|p| p.as_str()), Some("repo"));
    assert_eq!(resolved.default_profile.source(), Source::Project);
    assert!(resolved.child_bin.value().is_none());
    assert_eq!(resolved.child_bin.source(), Source::Default);
}

#[test]
fn a_refused_layer_refuses_the_resolution() {
    let project = FileLayer {
        origin: "project.toml".to_string(),
        config: file(Some("/x"), None, None),
    };
    assert!(resolve_layers(None, Some(project), &Vec::new(), None, None).is_err());
}

#[test]
fn read_failures_name_the_file() {
    let error = ConfigError::Read {
        path: "/etc/c.toml".to_string(),
        message: "permission denied".to_string(),
    };
    assert_eq!(
        error.message(),
        "cannot read configuration file /etc/c.toml: permission denied"
    );
}

#[test]
fn project_discovery_takes_the_nearest_file_within_the_repository() {
    // start directory, its parent (holds a project file), the repository root (holds one too)
    let levels = vec![(false, false), (true, false), (true, true)];
    assert_eq!(discover_project(&levels), Some(1));
    // a file at the repository root itself
    assert_eq!(discover_project(&vec![(false, false), (true, true)]), Some(1));
    // a file in the start directory wins over one further up
    assert_eq!(discover_project(&vec![(true, false), (true, true)]), Some(0));
}

#[test]
fn project_discovery_outside_a_repository_finds_nothing() {
    assert_eq!(discover_project(&vec![(true, false), (false, false)]), None);
    assert_eq!(discover_project(&vec![]), None);
    // a repository without a project file
    assert_eq!(discover_project(&vec![(false, false), (false, true), (true, false)]), None);
}
