//! Naming the coding agent one session directory belongs to.
//!
//! The process that will be the agent is this process: its identifier and its
//! start time name the directory and answer the liveness question afterwards.

use vstd::prelude::*;

use crate::identifier::{is_identifier, Identifier};
use crate::namespace::Namespace;
use crate::text::{decimal, lower_hex, push_decimal, push_lower_hex, push_str};

verus! {

/// The directory name of one agent: the process identifier in decimal, then
/// its start time in hexadecimal.
pub open spec fn agent_name(pid: u32, started: u64) -> Seq<char> {
    "agent-"@ + decimal(pid as nat) + seq!['-'] + lower_hex(started as nat)
}

/// One run's agent: the path component, the namespace its process identifier
/// is unique inside, and the pair naming the process itself.
#[derive(Debug)]
pub struct Agent {
    id: Identifier,
    namespace: Namespace,
    pid: u32,
    started: u64,
}

impl Agent {
    /// The path component.
    pub closed spec fn id_spec(&self) -> Seq<char> {
        self.id@
    }

    /// The namespace component the process identifier is unique inside.
    pub closed spec fn namespace_spec(&self) -> Seq<char> {
        self.namespace.id_spec()
    }

    /// The process identifier.
    pub closed spec fn pid_spec(&self) -> u32 {
        self.pid
    }

    /// The process start time.
    pub closed spec fn started_spec(&self) -> u64 {
        self.started
    }

    /// Names the agent this run is about to become, or refuses when the pair
    /// cannot spell an identifier: refusing beats truncating, since a
    /// truncated name is one two agents could share.
    pub fn new(namespace: Namespace, pid: u32, started: u64) -> (r: Option<Agent>)
        ensures
            is_identifier(agent_name(pid, started)) ==> (r matches Some(a)
                && a.id_spec() == agent_name(pid, started) && a.pid_spec() == pid
                && a.started_spec() == started && a.namespace_spec() == namespace.id_spec()),
            !is_identifier(agent_name(pid, started)) ==> r is None,
    {
        let text = spell(pid, started);
        match Identifier::parse(text.as_str()) {
            Ok(id) => Some(Agent { id, namespace, pid, started }),
            Err(_) => None,
        }
    }

    /// Borrows the validated path component.
    pub fn id(&self) -> (r: &Identifier)
        ensures
            r@ == self.id_spec(),
    {
        &self.id
    }

    /// Borrows the namespace this agent's identifier is unique inside.
    pub fn namespace(&self) -> (r: &Namespace)
        ensures
            r.id_spec() == self.namespace_spec(),
    {
        &self.namespace
    }

    /// Returns the process identifier the agent runs under.
    pub fn pid(&self) -> (r: u32)
        ensures
            r == self.pid_spec(),
    {
        self.pid
    }

    /// Returns the agent's start time in clock ticks since its kernel booted.
    pub fn started(&self) -> (r: u64)
        ensures
            r == self.started_spec(),
    {
        self.started
    }
}

/// Spells the directory one agent's state lives in.
fn spell(pid: u32, started: u64) -> (r: String)
    ensures
        r@ == agent_name(pid, started),
{
    let mut out = String::new();
    push_str(&mut out, "agent-");
    push_decimal(&mut out, pid as u64);
    crate::text::push_char(&mut out, '-');
    push_lower_hex(&mut out, started);
    out
}

/// Two agents with different process identifiers or different start times
/// never share a directory name: the pair is spelled without ambiguity.
pub proof fn law_agent_names_are_distinct(p1: u32, s1: u64, p2: u32, s2: u64)
    requires
        agent_name(p1, s1) == agent_name(p2, s2),
    ensures
        p1 == p2,
        s1 == s2,
{
    let a = agent_name(p1, s1);
    let d1 = decimal(p1 as nat);
    let d2 = decimal(p2 as nat);
    crate::text::lemma_decimal_digits(p1 as nat);
    crate::text::lemma_decimal_digits(p2 as nat);
    crate::text::lemma_lower_hex_digits(s1 as nat);
    crate::text::lemma_lower_hex_digits(s2 as nat);
    let prefix = "agent-"@;
    assert(prefix.len() == 6) by {
        reveal_strlit("agent-");
    }
    let b = agent_name(p2, s2);
    let l1 = d1.len() as int;
    let l2 = d2.len() as int;
    // The first hyphen after the prefix ends the decimal part in both spellings.
    if l1 < l2 {
        assert(a[6 + l1] == '-');
        assert(b[6 + l1] == d2[l1]);
    } else if l2 < l1 {
        assert(b[6 + l2] == '-');
        assert(a[6 + l2] == d1[l2]);
    }
    assert(l1 == l2);
    assert(d1 =~= a.subrange(6, 6 + l1));
    assert(d2 =~= b.subrange(6, 6 + l2));
    crate::text::lemma_decimal_injective(p1 as nat, p2 as nat);
    let h1 = lower_hex(s1 as nat);
    let h2 = lower_hex(s2 as nat);
    assert(h1 =~= a.subrange(7 + l1, a.len() as int));
    assert(h2 =~= b.subrange(7 + l2, b.len() as int));
    crate::text::lemma_lower_hex_injective(s1 as nat, s2 as nat);
}

} // verus!
