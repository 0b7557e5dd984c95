use session_wrapper::peers::Scope;

fn link(value: &str) -> Vec<u8> {
    value.as_bytes().to_vec()
}

#[test]
fn a_boot_identifier_becomes_one_component() {
    let scope = Scope::derive("3f2a9c1d-58aa-4b0e-9c1d-0a1b2c3d4e5f", &link("mnt:[4026531840]"))
        .expect("a UUID names a boot");
    assert_eq!(scope.boot().as_str(), "boot-3f2a9c1d58aa");
    assert!(scope.namespace().as_str().starts_with("mnt-"));
}

#[test]
fn a_different_boot_or_namespace_scopes_apart() {
    let one = Scope::derive("3f2a9c1d-58aa-4b0e-9c1d-0a1b2c3d4e5f", &link("mnt:[4026531840]"))
        .expect("scope");
    let other_boot = Scope::derive("77febc02-1111-4b0e-9c1d-0a1b2c3d4e5f", &link("mnt:[4026531840]"))
        .expect("scope");
    let other_namespace =
        Scope::derive("3f2a9c1d-58aa-4b0e-9c1d-0a1b2c3d4e5f", &link("mnt:[4026533427]"))
            .expect("scope");
    assert_ne!(one.boot(), other_boot.boot());
    assert_eq!(one.namespace(), other_boot.namespace());
    assert_eq!(one.boot(), other_namespace.boot());
    assert_ne!(one.namespace(), other_namespace.namespace());
}

#[test]
fn one_boot_and_namespace_always_name_one_scope() {
    let one = Scope::derive("3f2a9c1d-58aa-4b0e-9c1d-0a1b2c3d4e5f", &link("mnt:[4026531840]"))
        .expect("scope");
    let same = Scope::derive("3f2a9c1d-58aa-4b0e-9c1d-0a1b2c3d4e5f", &link("mnt:[4026531840]"))
        .expect("scope");
    assert_eq!(one, same);
}

#[test]
fn an_underivable_boot_scopes_nothing() {
    for value in ["", "not-hex-at-all", "abc123", "   "] {
        assert!(
            Scope::derive(value, &link("mnt:[4026531840]")).is_none(),
            "{value:?} should name nothing"
        );
    }
    assert!(
        Scope::derive("3f2a9c1d-58aa-4b0e-9c1d-0a1b2c3d4e5f", &link("")).is_none(),
        "an empty link should name nothing"
    );
}

#[test]
fn surrounding_whitespace_and_case_do_not_change_the_name() {
    let bare =
        Scope::derive("3F2A9C1D-58AA-4B0E-9C1D-0A1B2C3D4E5F", &link("mnt:[1]")).expect("scope");
    assert_eq!(bare.boot().as_str(), "boot-3f2a9c1d58aa");
    let padded =
        Scope::derive("  3f2a9c1d-58aa-4b0e-9c1d-0a1b2c3d4e5f\n", &link("mnt:[1]")).expect("scope");
    assert_eq!(padded, bare);
}

#[test]
fn the_namespace_is_the_fingerprint_of_the_bare_link() {
    let scope = Scope::derive("0123456789ab", &link("mnt:[4026531840]")).expect("scope");
    assert_eq!(scope.boot().as_str(), "boot-0123456789ab");
    let namespace = scope.namespace().as_str();
    assert_eq!(namespace.len(), "mnt-".len() + 24);
    assert!(namespace["mnt-".len()..]
        .chars()
        .all(|c| c.is_ascii_digit() || ('a'..='f').contains(&c)));
}
