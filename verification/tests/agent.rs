use session_wrapper::agent::Agent;
use session_wrapper::namespace::{Discriminator, DiscriminatorSource, Kind, Namespace};

fn space(link: &str) -> Namespace {
    let machine = Discriminator::new(DiscriminatorSource::Machine, "machine-fixture")
        .expect("a value names a discriminator");
    Namespace::from_link(Kind::Pid, link.as_bytes(), &machine).expect("a link names a namespace")
}

fn agent(pid: u32, started: u64) -> Option<Agent> {
    Agent::new(space("pid:[4026531836]"), pid, started)
}

#[test]
fn an_agent_is_named_by_its_process_and_when_it_started() {
    let one = agent(1_965_996, 0x4f3_a2c1).expect("a process names an agent");
    assert_eq!(one.id().as_str(), "agent-1965996-4f3a2c1");
    assert_eq!(one.pid(), 1_965_996);
    assert_eq!(one.started(), 0x4f3_a2c1);
}

#[test]
fn a_reused_process_identifier_does_not_inherit_the_earlier_directory() {
    let first = agent(4242, 1).expect("first");
    let second = agent(4242, 2).expect("second");
    assert_ne!(first.id(), second.id());
    assert_ne!(first.started(), second.started());
}

#[test]
fn the_longest_name_a_kernel_can_ask_for_stays_an_identifier() {
    let longest = agent(4_194_304, u64::MAX).expect("the widest live pair");
    assert_eq!(longest.id().as_str(), "agent-4194304-ffffffffffffffff");
    assert_eq!(longest.id().as_str().len(), 30);
    assert_eq!(longest.namespace().id().as_str().len(), 28);
}

#[test]
fn an_impossible_process_identifier_is_refused_rather_than_truncated() {
    assert!(agent(u32::MAX, u64::MAX).is_none());
}

#[test]
fn one_process_identifier_in_two_namespaces_names_two_agents() {
    let host = Agent::new(space("pid:[4026531836]"), 1, 10).expect("host agent");
    let guest = Agent::new(space("pid:[4026533427]"), 1, 10).expect("container agent");
    assert_eq!(host.id(), guest.id());
    assert_ne!(host.namespace().id(), guest.namespace().id());
}
