use session_wrapper::namespace::{Discriminator, DiscriminatorSource, Kind, Namespace};
use session_wrapper::terminal::{Source, Terminal};

fn space(kind: Kind, link: &str) -> Namespace {
    let machine = Discriminator::new(DiscriminatorSource::Machine, "machine-fixture")
        .expect("a value names a discriminator");
    Namespace::from_link(kind, link.as_bytes(), &machine).expect("a link names a namespace")
}

fn tty(value: &str) -> Option<Terminal> {
    Terminal::from_tty(space(Kind::Mount, "mnt:[4026531840]"), value.as_bytes())
}

fn leader(sid: u32, started: u64) -> Option<Terminal> {
    Terminal::from_session_leader(space(Kind::Pid, "pid:[4026531836]"), sid, started)
}

#[test]
fn a_pseudo_terminal_becomes_one_path_component() {
    let terminal = tty("/dev/pts/3").expect("pts device names a terminal");
    assert_eq!(terminal.id().as_str(), "pts-3");
    assert_eq!(terminal.source(), Source::Tty);
}

#[test]
fn a_serial_console_keeps_its_own_name() {
    let serial = tty("/dev/ttyS0").expect("serial device");
    assert!(
        serial.id().as_str().starts_with("ttys0-"),
        "{}",
        serial.id().as_str()
    );
    assert_ne!(
        serial.id(),
        tty("/dev/ttys0").expect("lower-case device").id()
    );
}

#[test]
fn two_devices_never_collapse_onto_one_name() {
    let names = ["/dev/pts/3", "/dev/pts-3", "/dev/_pts/3", "/dev/pts/3_"];
    let ids: Vec<String> = names
        .iter()
        .map(|name| {
            tty(name)
                .expect("device names a terminal")
                .id()
                .as_str()
                .to_owned()
        })
        .collect();
    for (index, left) in ids.iter().enumerate() {
        for right in ids.iter().skip(index + 1) {
            assert_ne!(left, right, "{names:?} collapsed onto {left}");
        }
    }
    assert_eq!(ids[0], "pts-3");
}

#[test]
fn an_over_long_device_is_refused_rather_than_truncated() {
    let long = format!("/dev/{}", "a".repeat(64));
    assert!(tty(&long).is_none());
}

#[test]
fn a_device_with_nothing_usable_is_refused() {
    assert!(tty("/dev/").is_none());
    assert!(tty("///").is_none());
}

#[test]
fn the_session_rung_carries_the_leader_and_its_start_time() {
    let terminal = leader(4242, 987_654).expect("session names one");
    assert_eq!(terminal.id().as_str(), "sid-4242-987654");
    assert_eq!(terminal.source(), Source::SessionLeader);
}

#[test]
fn a_recycled_process_id_does_not_inherit_the_earlier_directory() {
    let first = leader(4242, 1).expect("first");
    let second = leader(4242, 2).expect("second");
    assert_ne!(first.id(), second.id());
}

#[test]
fn one_device_in_two_namespaces_names_two_terminals() {
    let host = Terminal::from_tty(space(Kind::Mount, "mnt:[4026531840]"), b"/dev/pts/0")
        .expect("host pane");
    let container = Terminal::from_tty(space(Kind::Mount, "mnt:[4026533412]"), b"/dev/pts/0")
        .expect("container pane");
    assert_eq!(host.id(), container.id());
    assert_ne!(host.namespace().id(), container.namespace().id());
}

#[test]
fn the_longest_name_of_each_rung_stays_an_identifier() {
    let longest = leader(4_194_304, 18_446_744_073_709_551_615).expect("longest leader");
    assert_eq!(longest.id().as_str(), "sid-4194304-18446744073709551615");
    assert_eq!(longest.namespace().id().as_str().len(), 28);
}
