use session_wrapper::checks::{Check, CheckStatus, EntryCheck};
use session_wrapper::doctor::{entry_skip_results, storage_targets};
use session_wrapper::identifier::Identifier;
use session_wrapper::paths::XdgPaths;
use session_wrapper::peers::Scope;

fn fixture() -> XdgPaths {
    let pairs = [
        ("HOME", "/h"),
        ("XDG_CONFIG_HOME", "/c"),
        ("XDG_STATE_HOME", "/s"),
        ("XDG_DATA_HOME", "/d"),
        ("XDG_CACHE_HOME", "/k"),
    ];
    let environment: Vec<(Vec<u8>, Vec<u8>)> =
        pairs.iter().map(|(k, v)| (k.as_bytes().to_vec(), v.as_bytes().to_vec())).collect();
    XdgPaths::resolve(&environment).expect("absolute bases resolve")
}

fn id(value: &str) -> Identifier {
    Identifier::parse(value).expect("identifier")
}

fn shown(targets: Vec<(Vec<u8>, Option<Vec<u8>>)>) -> Vec<(String, Option<String>)> {
    targets
        .into_iter()
        .map(|(path, target)| {
            (String::from_utf8(path).expect("utf-8"), target.map(|t| String::from_utf8(t).expect("utf-8")))
        })
        .collect()
}

fn pair(path: &str, target: Option<&str>) -> (String, Option<String>) {
    (path.to_owned(), target.map(str::to_owned))
}

#[test]
fn nothing_selected_probes_nothing() {
    let paths = fixture();
    assert!(storage_targets(&paths, None, None, None, None, false, &vec![], false).is_empty());
}

#[test]
fn a_profile_alone_probes_the_composed_directory() {
    let paths = fixture();
    let targets = shown(storage_targets(&paths, None, None, None, None, false, &vec![], true));
    assert_eq!(targets, vec![pair("/s/session-wrapper/composed", None)]);
}

#[test]
fn a_session_probes_its_links_in_order() {
    let paths = fixture();
    let account = id("work");
    let space = id("mnt-1");
    let scope = Scope::derive("3f2a9c1d-58aa-4b0e-9c1d-0a1b2c3d4e5f", b"mnt:[4026531840]").expect("scope");
    let session = b"/s/session-wrapper/accounts/work/sessions/mnt-1/tty-1".to_vec();
    let targets = shown(storage_targets(
        &paths,
        Some(&account),
        Some(&space),
        Some(session),
        Some(&scope),
        false,
        &vec!["skills", "agents"],
        true,
    ));
    let registry = String::from_utf8(paths.peer_registry(scope.boot(), scope.namespace())).expect("utf-8");
    let s = "/s/session-wrapper/accounts/work/sessions/mnt-1/tty-1";
    assert_eq!(
        targets,
        vec![
            pair("/s/session-wrapper/accounts/work", None),
            pair("/s/session-wrapper/accounts/work/config", None),
            pair("/s/session-wrapper/accounts/work/sessions/mnt-1", None),
            pair(s, None),
            pair(&format!("{s}/projects"), Some("/s/session-wrapper/accounts/work/config/projects")),
            pair(&format!("{s}/sessions"), Some(&registry)),
            pair(&registry, None),
            pair(&format!("{s}/skills"), Some("/d/session-wrapper/assets/skills")),
            pair(&format!("{s}/agents"), Some("/d/session-wrapper/assets/agents")),
            pair("/s/session-wrapper/composed", None),
        ]
    );
}

#[test]
fn a_real_sessions_directory_is_not_probed_as_a_link() {
    let paths = fixture();
    let account = id("work");
    let scope = Scope::derive("3f2a9c1d-58aa-4b0e-9c1d-0a1b2c3d4e5f", b"mnt:[4026531840]").expect("scope");
    let session = b"/x".to_vec();
    let targets = shown(storage_targets(&paths, Some(&account), None, Some(session), Some(&scope), true, &vec![], false));
    let registry = String::from_utf8(paths.peer_registry(scope.boot(), scope.namespace())).expect("utf-8");
    assert_eq!(
        targets,
        vec![
            pair("/s/session-wrapper/accounts/work", None),
            pair("/s/session-wrapper/accounts/work/config", None),
            pair("/x", None),
            pair("/x/projects", Some("/s/session-wrapper/accounts/work/config/projects")),
            pair(&registry, None),
        ]
    );
}

#[test]
fn without_a_profile_the_entry_rows_say_how_to_bind_one() {
    let rows = entry_skip_results();
    assert_eq!(rows.len(), 2);
    assert_eq!(rows[0].check, Check::Entry(EntryCheck::Compose));
    assert_eq!(rows[1].check, Check::Entry(EntryCheck::Consistent));
    for row in &rows {
        assert_eq!(row.status, CheckStatus::Skipped);
        assert_eq!(
            row.reason.as_deref(),
            Some("no profile is selected. Bind one to the account with: session-wrapper account bind <account> --profile <name>")
        );
    }
}
