use session_wrapper::identifier::Identifier;
use session_wrapper::namespace::{fingerprint, Discriminator, DiscriminatorSource, Kind, Namespace};

fn machine() -> Discriminator {
    Discriminator::new(DiscriminatorSource::Machine, "machine-fixture")
        .expect("a value names a discriminator")
}

fn named(kind: Kind, value: &str) -> Option<Namespace> {
    Namespace::from_link(kind, value.as_bytes(), &machine())
}

#[test]
fn a_namespace_link_becomes_one_path_component() {
    let namespace = named(Kind::Pid, "pid:[4026533427]").expect("a link names a namespace");
    assert_eq!(namespace.id().as_str(), "pid-a5b2c243a5ddb4385ea9bfc4");
    assert_eq!(namespace.kind(), Kind::Pid);
    assert_eq!(namespace.discriminated_by(), DiscriminatorSource::Machine);
}

#[test]
fn two_machines_never_share_a_component() {
    let guest = Discriminator::new(DiscriminatorSource::Machine, "guest-fixture")
        .expect("a value names a discriminator");
    let link = b"mnt:[4026531840]";
    let host = Namespace::from_link(Kind::Mount, link, &machine()).expect("a link names a namespace");
    let shared = Namespace::from_link(Kind::Mount, link, &guest).expect("a link names a namespace");
    assert_ne!(host.id().as_str(), shared.id().as_str());
}

#[test]
fn an_empty_discriminator_names_nothing() {
    for machine in [None, Some(""), Some("   "), Some("\n")] {
        let fallen = Discriminator::select(machine, Some("boot-fixture"))
            .expect("the boot rung discriminates");
        assert_eq!(fallen.source(), DiscriminatorSource::Boot);
        assert!(Discriminator::select(machine, None).is_none());
        assert!(Discriminator::select(machine, Some("  ")).is_none());
    }
    let readable = Discriminator::select(Some("machine-fixture"), Some("boot-fixture"))
        .expect("the machine rung discriminates");
    assert_eq!(readable.source(), DiscriminatorSource::Machine);
}

#[test]
fn the_component_is_the_same_every_time() {
    let first = named(Kind::Mount, "mnt:[4026533412]").expect("names");
    let second = named(Kind::Mount, "mnt:[4026533412]").expect("names");
    assert_eq!(first.id(), second.id());
}

#[test]
fn two_namespaces_never_collapse_onto_one_name() {
    let host = named(Kind::Pid, "pid:[4026531836]").expect("a link names a namespace");
    let container = named(Kind::Pid, "pid:[4026533427]").expect("a link names a namespace");
    assert_ne!(host.id().as_str(), container.id().as_str());
}

#[test]
fn the_two_kinds_never_share_a_name() {
    let mount = named(Kind::Mount, "4026531836").expect("a link names a namespace");
    let pid = named(Kind::Pid, "4026531836").expect("a link names a namespace");
    assert_ne!(mount.id().as_str(), pid.id().as_str());
}

#[test]
fn two_namespaces_sharing_a_short_digest_still_name_two_directories() {
    let first = named(Kind::Mount, "mnt:[4026503496]").expect("a link names a namespace");
    let second = named(Kind::Mount, "mnt:[4026522390]").expect("a link names a namespace");
    assert_eq!(&first.id().as_str()[..12], &second.id().as_str()[..12]);
    assert_ne!(first.id().as_str(), second.id().as_str());
}

#[test]
fn an_empty_link_names_nothing() {
    assert!(named(Kind::Pid, "").is_none());
}

#[test]
fn every_component_is_a_valid_identifier() {
    for link in ["pid:[1]", "mnt:[4026533412]", "pid:[18446744073709551615]"] {
        let namespace = named(Kind::Pid, link).expect("a link names a namespace");
        assert!(Identifier::parse(namespace.id().as_str()).is_ok());
    }
}

#[test]
fn a_discriminator_is_trimmed_and_a_fingerprint_has_a_fixed_width() {
    let d = Discriminator::new(DiscriminatorSource::Boot, "  abc \n").expect("value");
    assert_eq!(d.value(), "abc");
    let id = fingerprint("mnt", b"").expect("fits");
    assert_eq!(id.as_str().len(), 28);
    assert!(id.as_str().starts_with("mnt-e3b0c44298fc1c149afbf4c8"));
    assert!(fingerprint("Upper", b"x").is_none());
}
