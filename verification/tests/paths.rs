use session_wrapper::error::DomainError;
use session_wrapper::identifier::Identifier;
use session_wrapper::paths::{join, XdgPaths};

fn env(pairs: &[(&str, &str)]) -> Vec<(Vec<u8>, Vec<u8>)> {
    pairs
        .iter()
        .map(|(k, v)| (k.as_bytes().to_vec(), v.as_bytes().to_vec()))
        .collect()
}

fn fixture() -> XdgPaths {
    XdgPaths::resolve(&env(&[
        ("HOME", "/h"),
        ("XDG_CONFIG_HOME", "/c"),
        ("XDG_STATE_HOME", "/s"),
        ("XDG_DATA_HOME", "/d"),
        ("XDG_CACHE_HOME", "/k"),
    ]))
    .expect("absolute bases resolve")
}

fn text(bytes: Vec<u8>) -> String {
    String::from_utf8(bytes).expect("utf-8 path")
}

fn id(value: &str) -> Identifier {
    value.parse().expect("identifier")
}

#[test]
fn an_unusable_home_is_refused_even_when_every_base_resolves() {
    for home in ["", "relative/home", "~/home"] {
        let resolved = XdgPaths::resolve(&env(&[
            ("HOME", home),
            ("XDG_CONFIG_HOME", "/c"),
            ("XDG_STATE_HOME", "/s"),
            ("XDG_DATA_HOME", "/d"),
            ("XDG_CACHE_HOME", "/k"),
        ]));
        assert!(
            matches!(resolved, Err(DomainError::MissingHome)),
            "HOME={home:?} is not an absolute path, so resolution must refuse it"
        );
    }
    let absent = XdgPaths::resolve(&env(&[
        ("XDG_CONFIG_HOME", "/c"),
        ("XDG_STATE_HOME", "/s"),
        ("XDG_DATA_HOME", "/d"),
        ("XDG_CACHE_HOME", "/k"),
    ]));
    assert!(matches!(absent, Err(DomainError::MissingHome)));
}

#[test]
fn the_skill_source_is_the_native_directory() {
    assert_eq!(text(fixture().child_skills()), "/h/.agent/skills");
}

#[test]
fn an_unset_or_relative_base_falls_back_under_home() {
    let paths = XdgPaths::resolve(&env(&[
        ("HOME", "/home/u/"),
        ("XDG_CONFIG_HOME", "relative"),
        ("XDG_STATE_HOME", ""),
        ("XDG_DATA_HOME", "/first"),
        ("XDG_DATA_HOME", "/second"),
    ]))
    .expect("resolves");
    assert_eq!(text(paths.config().clone()), "/home/u/.config/session-wrapper");
    assert_eq!(text(paths.state().clone()), "/home/u/.local/state/session-wrapper");
    assert_eq!(text(paths.data().clone()), "/second/session-wrapper");
    assert_eq!(text(paths.cache().clone()), "/home/u/.cache/session-wrapper");
    assert_eq!(text(paths.assets()), "/second/session-wrapper/assets");
    assert_eq!(text(paths.plugin_seed()), "/second/session-wrapper/plugin-seed");
}

#[test]
fn every_managed_path_matches_the_artifact_table() {
    let paths = fixture();
    let work = id("work");
    assert_eq!(text(paths.accounts()), "/s/session-wrapper/accounts");
    assert_eq!(text(paths.account(&work)), "/s/session-wrapper/accounts/work");
    assert_eq!(text(paths.account_config(&work)), "/s/session-wrapper/accounts/work/config");
    assert_eq!(
        text(paths.account_auth_mode(&work)),
        "/s/session-wrapper/accounts/work/auth-mode.json"
    );
    assert_eq!(
        text(paths.account_profile(&work)),
        "/s/session-wrapper/accounts/work/profile.json"
    );
    assert_eq!(
        text(paths.account_oauth_token(&work)),
        "/s/session-wrapper/accounts/work/oauth-token"
    );
    assert_eq!(
        text(paths.account_credentials_lock(&work)),
        "/s/session-wrapper/accounts/.work.lock"
    );
    assert_eq!(
        text(paths.account_credentials(&work)),
        "/s/session-wrapper/accounts/work/config/.credentials.json"
    );
    let pane = id("pts-3");
    let space = id("mnt-1a2b3c4d");
    assert_eq!(
        text(paths.account_sessions(&work)),
        "/s/session-wrapper/accounts/work/sessions"
    );
    assert_eq!(
        text(paths.account_namespace(&work, &space)),
        "/s/session-wrapper/accounts/work/sessions/mnt-1a2b3c4d"
    );
    assert_eq!(
        text(paths.account_session(&work, &space, &pane)),
        "/s/session-wrapper/accounts/work/sessions/mnt-1a2b3c4d/pts-3"
    );
    assert_eq!(
        text(paths.account_projects(&work)),
        "/s/session-wrapper/accounts/work/config/projects"
    );
    assert_eq!(
        text(paths.session_native_config(&work, &space, &pane)),
        "/s/session-wrapper/accounts/work/sessions/mnt-1a2b3c4d/pts-3/.agent.json"
    );
    assert_eq!(
        text(paths.session_projects_link(&work, &space, &pane)),
        "/s/session-wrapper/accounts/work/sessions/mnt-1a2b3c4d/pts-3/projects"
    );
    assert_eq!(
        text(paths.session_registry_link(&work, &space, &pane)),
        "/s/session-wrapper/accounts/work/sessions/mnt-1a2b3c4d/pts-3/sessions"
    );
    assert_eq!(
        text(paths.session_witness(&work, &space, &pane)),
        "/s/session-wrapper/accounts/work/sessions/mnt-1a2b3c4d/.pts-3.witness.json"
    );
    assert_eq!(text(paths.last_account()), "/s/session-wrapper/state/last-account");
    assert_eq!(text(paths.composed()), "/s/session-wrapper/composed");
    assert_eq!(text(paths.profiles()), "/c/session-wrapper/profiles");
    assert_eq!(text(paths.profile_file(&work)), "/c/session-wrapper/profiles/work.yaml");
    assert_eq!(text(paths.piece_file(&work)), "/c/session-wrapper/settings/work.json");
    assert_eq!(
        text(paths.peer_registry(&id("boot-one"), &id("mnt-two"))),
        "/s/session-wrapper/peers/boot-one/mnt-two"
    );
}

#[test]
fn a_link_into_the_peer_root_re_anchors_under_this_runs_root() {
    let paths = fixture();
    assert_eq!(
        paths
            .adopted_registry(&b"/another/mount/peers/boot-one/mnt-two".to_vec())
            .map(text),
        Some("/s/session-wrapper/peers/boot-one/mnt-two".to_string())
    );
    assert_eq!(
        paths
            .adopted_registry(&b"peers//boot-one/./mnt-two/".to_vec())
            .map(text),
        Some("/s/session-wrapper/peers/boot-one/mnt-two".to_string())
    );
}

#[test]
fn a_link_that_names_no_registry_re_anchors_nothing() {
    let paths = fixture();
    for target in [
        "/other/peers/boot-only",
        "/other/peers/boot-one/mnt-two/extra",
        "/other/peers/.bad/mnt-two",
        "/other/registries/boot-one/mnt-two",
        "/other/peers/boot-one/..",
    ] {
        assert_eq!(paths.adopted_registry(&target.as_bytes().to_vec()), None, "{target}");
    }
}

#[test]
fn joining_follows_path_push() {
    assert_eq!(text(join(&b"/a".to_vec(), "b")), "/a/b");
    assert_eq!(text(join(&b"/a/".to_vec(), "b")), "/a/b");
    assert_eq!(text(join(&Vec::new(), "b")), "b");
    assert_eq!(text(join(&b"/a".to_vec(), "/b")), "/b");
}
