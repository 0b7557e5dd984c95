//! The record naming one session's agent, and the pure judgment over it.
//!
//! A launch writes a marker beside the session directory; a later run judges
//! the marker against what it observes. The judgment answers with the ground
//! it stands on, and the verdict is that ground's projection.

use vstd::prelude::*;

use crate::agent::Agent;
use crate::doc::{entry, entry_value, Doc};
use crate::error::owned;
use crate::identifier::{is_identifier, Identifier};
use crate::text::{
    all_decimal, chars_of, decimal, decimal_string, decimal_value, digits_from, lemma_decimal_digits,
    lemma_decimal_value, same_text,
};

verus! {

/// The record version this module writes, and the only one it reads.
pub open spec fn marker_version() -> u32 {
    2
}

/// The marker a launch writes beside the session directory it names.
///
/// `boot` is not optional: a start time counts ticks since some kernel booted,
/// so a record that cannot say which boot cannot be judged at all.
#[derive(Debug, PartialEq, Eq)]
pub struct Marker {
    pub version: u32,
    /// The process the agent runs as.
    pub pid: u32,
    /// That process's start time, in clock ticks since `boot`.
    pub started: u64,
    /// The namespace component the process identifier is unique inside.
    pub namespace: Identifier,
    /// The kernel boot the start time counts from.
    pub boot: String,
}

impl Marker {
    /// Builds the marker one launch records for its agent, or nothing when
    /// this run cannot name the boot its own start time counts from.
    pub fn from_agent(agent: &Agent, boot: Option<String>) -> (r: Option<Marker>)
        ensures
            match boot {
                None => r is None,
                Some(b) => r matches Some(m) && m.version == marker_version() && m.pid == agent.pid_spec()
                    && m.started == agent.started_spec() && m.namespace@ == agent.namespace_spec()
                    && m.boot@ == b@,
            },
    {
        match boot {
            None => None,
            Some(boot) => Some(Marker {
                version: 2,
                pid: agent.pid(),
                started: agent.started(),
                namespace: agent.namespace().id().duplicate(),
                boot,
            }),
        }
    }

    /// Returns the process the record names.
    pub fn pid(&self) -> (r: u32)
        ensures
            r == self.pid,
    {
        self.pid
    }

    /// Returns that process's recorded start time.
    pub fn started(&self) -> (r: u64)
        ensures
            r == self.started,
    {
        self.started
    }

    /// Borrows the namespace component the record is scoped by.
    pub fn namespace(&self) -> (r: &Identifier)
        ensures
            r@ == self.namespace@,
    {
        &self.namespace
    }

    /// Whether this is a record version this module reads.
    pub fn is_current(&self) -> (r: bool)
        ensures
            r == (self.version == marker_version()),
    {
        self.version == 2
    }
}

/// The value a number field of the marker document holds: decimal digits
/// only, within the field's bound.
pub open spec fn unsigned_value(d: Doc, max: int) -> Option<nat> {
    match d {
        Doc::Number(t) => if t@.len() > 0 && all_decimal(t@) && decimal_value(t@) <= max {
            Some(decimal_value(t@))
        } else {
            None
        },
        _ => None,
    }
}

/// What a marker document records, when it is a record this module reads:
/// an object with the current version, a process identifier, its start time,
/// a namespace identifier and a boot. Other fields are ignored, and for a key
/// given twice the later entry counts.
pub open spec fn marker_fields(d: Doc) -> Option<(u32, u64, Seq<char>, Seq<char>)> {
    match d {
        Doc::Mapping(entries) => match (
            entry_value(entries@, "version"@),
            entry_value(entries@, "pid"@),
            entry_value(entries@, "started"@),
            entry_value(entries@, "namespace"@),
            entry_value(entries@, "boot"@),
        ) {
            (Some(v), Some(p), Some(s), Some(Doc::Text(ns)), Some(Doc::Text(b))) => {
                if unsigned_value(v, u32::MAX as int) == Some(marker_version() as nat)
                    && unsigned_value(p, u32::MAX as int) is Some && unsigned_value(s, u64::MAX as int) is Some
                    && is_identifier(ns@) {
                    Some((
                        unsigned_value(p, u32::MAX as int).unwrap() as u32,
                        unsigned_value(s, u64::MAX as int).unwrap() as u64,
                        ns@,
                        b@,
                    ))
                } else {
                    None
                }
            },
            _ => None,
        },
        _ => None,
    }
}

/// Whether a document is a text with this content.
pub open spec fn text_is(d: Doc, s: Seq<char>) -> bool {
    d matches Doc::Text(t) && t@ == s
}

/// Whether a document is a number spelled as this one in decimal.
pub open spec fn number_is(d: Doc, n: nat) -> bool {
    d matches Doc::Number(t) && t@ == decimal(n)
}

/// The durable document of a marker: its five fields, in declaration order.
pub open spec fn marker_document(d: Doc, version: u32, pid: u32, started: u64, ns: Seq<char>, boot: Seq<char>) -> bool {
    &&& d matches Doc::Mapping(e)
    &&& e@.len() == 5
    &&& text_is(e@[0].0, "version"@) && number_is(e@[0].1, version as nat)
    &&& text_is(e@[1].0, "pid"@) && number_is(e@[1].1, pid as nat)
    &&& text_is(e@[2].0, "started"@) && number_is(e@[2].1, started as nat)
    &&& text_is(e@[3].0, "namespace"@) && text_is(e@[3].1, ns)
    &&& text_is(e@[4].0, "boot"@) && text_is(e@[4].1, boot)
}

fn unsigned(d: &Doc, max: u64) -> (r: Option<u64>)
    ensures
        r == (match unsigned_value(*d, max as int) {
            Some(v) => Some(v as u64),
            None => None::<u64>,
        }),
{
    match d {
        Doc::Number(t) => {
            let chars = chars_of(t.as_str());
            proof {
                assert(chars@.skip(0) =~= chars@);
            }
            match digits_from(&chars, 0) {
                Some(v) => if v <= max { Some(v) } else { None },
                None => None,
            }
        },
        _ => None,
    }
}

/// A decimal number field reads back as the number written.
proof fn lemma_number_reads_back(n: nat, max: int)
    requires
        n <= max,
    ensures
        forall|d: Doc| number_is(d, n) ==> unsigned_value(d, max) == Some(n),
{
    lemma_decimal_digits(n);
    lemma_decimal_value(n);
    assert forall|d: Doc| number_is(d, n) implies unsigned_value(d, max) == Some(n) by {
        if let Doc::Number(t) = d {
            assert(all_decimal(t@));
        }
    }
}

impl Marker {
    /// Writes the marker as its durable document, which reads back as the
    /// same marker when it carries the current version, and as none otherwise.
    pub fn to_document(&self) -> (r: Doc)
        ensures
            marker_document(r, self.version, self.pid, self.started, self.namespace@, self.boot@),
            marker_fields(r) == (if self.version == marker_version() {
                Some((self.pid, self.started, self.namespace@, self.boot@))
            } else {
                None
            }),
    {
        let namespace = owned(self.namespace.as_str());
        let boot = owned(self.boot.as_str());
        let mut entries: Vec<(Doc, Doc)> = Vec::new();
        entries.push((Doc::Text(owned("version")), Doc::Number(decimal_string(self.version as u64))));
        entries.push((Doc::Text(owned("pid")), Doc::Number(decimal_string(self.pid as u64))));
        entries.push((Doc::Text(owned("started")), Doc::Number(decimal_string(self.started))));
        entries.push((Doc::Text(owned("namespace")), Doc::Text(namespace)));
        entries.push((Doc::Text(owned("boot")), Doc::Text(boot)));
        let r = Doc::Mapping(entries);
        proof {
            reveal_strlit("version");
            reveal_strlit("pid");
            reveal_strlit("started");
            reveal_strlit("namespace");
            reveal_strlit("boot");
            let e = entries@;
            let e4 = e.drop_last();
            let e3 = e4.drop_last();
            let e2 = e3.drop_last();
            let e1 = e2.drop_last();
            assert(e1.last() == e[0] && e2.last() == e[1] && e3.last() == e[2] && e4.last() == e[3]);
            assert(e1.drop_last() =~= Seq::<(Doc, Doc)>::empty());
            assert(text_is(e[0].0, "version"@) && text_is(e[1].0, "pid"@) && text_is(e[2].0, "started"@)
                && text_is(e[3].0, "namespace"@) && text_is(e[4].0, "boot"@));
            assert("version"@.len() == 7 && "pid"@.len() == 3 && "started"@.len() == 7
                && "namespace"@.len() == 9 && "boot"@.len() == 4);
            assert("version"@[0] == 'v' && "started"@[0] == 's');
            assert("pid"@ != "version"@ && "started"@ != "version"@ && "namespace"@ != "version"@);
            assert("started"@ != "pid"@ && "namespace"@ != "pid"@ && "namespace"@ != "started"@);
            assert("boot"@ != "version"@ && "boot"@ != "pid"@ && "boot"@ != "started"@ && "boot"@ != "namespace"@);
            assert(entry_value(e1, "version"@) == Some(e[0].1));
            assert(entry_value(e2, "version"@) == Some(e[0].1));
            assert(entry_value(e3, "version"@) == Some(e[0].1));
            assert(entry_value(e4, "version"@) == Some(e[0].1));
            assert(entry_value(e2, "pid"@) == Some(e[1].1));
            assert(entry_value(e3, "pid"@) == Some(e[1].1));
            assert(entry_value(e4, "pid"@) == Some(e[1].1));
            reveal_with_fuel(entry_value, 6);
            assert(entry_value(e, "version"@) == Some(e[0].1));
            assert(entry_value(e, "pid"@) == Some(e[1].1));
            assert(entry_value(e, "started"@) == Some(e[2].1));
            assert(entry_value(e, "namespace"@) == Some(e[3].1));
            assert(entry_value(e, "boot"@) == Some(e[4].1));
            lemma_number_reads_back(self.version as nat, u32::MAX as int);
            lemma_number_reads_back(self.pid as nat, u32::MAX as int);
            lemma_number_reads_back(self.started as nat, u64::MAX as int);
            assert(unsigned_value(e[0].1, u32::MAX as int) == Some(self.version as nat));
            assert(unsigned_value(e[1].1, u32::MAX as int) == Some(self.pid as nat));
            assert(unsigned_value(e[2].1, u64::MAX as int) == Some(self.started as nat));
        }
        r
    }

    /// Reads a marker back from its document, refusing any version this
    /// module does not write and any document that is not a marker.
    pub fn from_document(d: &Doc) -> (r: Option<Marker>)
        ensures
            match marker_fields(*d) {
                Some((pid, started, ns, boot)) => r matches Some(m) && m.version == marker_version()
                    && m.pid == pid && m.started == started && m.namespace@ == ns && m.boot@ == boot,
                None => r is None,
            },
    {
        let entries = match d {
            Doc::Mapping(entries) => entries,
            _ => return None,
        };
        let version = match entry(entries, "version") {
            Some(v) => unsigned(v, 0xffff_ffff),
            None => return None,
        };
        let pid = match entry(entries, "pid") {
            Some(p) => unsigned(p, 0xffff_ffff),
            None => return None,
        };
        let started = match entry(entries, "started") {
            Some(s) => unsigned(s, 0xffff_ffff_ffff_ffff),
            None => return None,
        };
        let namespace = match entry(entries, "namespace") {
            Some(Doc::Text(ns)) => ns,
            _ => return None,
        };
        let boot = match entry(entries, "boot") {
            Some(Doc::Text(b)) => b,
            _ => return None,
        };
        match (version, pid, started) {
            (Some(2), Some(pid), Some(started)) => match Identifier::parse(namespace.as_str()) {
                Ok(namespace) => Some(Marker {
                    version: 2,
                    pid: pid as u32,
                    started,
                    namespace,
                    boot: owned(boot.as_str()),
                }),
                Err(_) => None,
            },
            _ => None,
        }
    }
}

/// What this run observed about a recorded agent process.
#[derive(Clone, Copy, Debug, PartialEq, Eq, Structural)]
pub enum Process {
    /// No process carries the recorded identifier.
    Absent,
    /// A process carries the identifier, with this start time.
    Running { started: u64 },
    /// A process carries the identifier but its start time could not be read.
    Unreadable,
}

/// The facts a judgment needs, gathered by the caller for one marker.
#[derive(Debug)]
pub struct Observed {
    /// This kernel's process-namespace component; `None` when underivable.
    pub namespace: Option<Identifier>,
    /// This kernel's boot identifier; `None` when unreadable.
    pub boot: Option<String>,
    /// What the recorded process identifier names now.
    pub process: Process,
}

/// Why one session directory got the verdict it did.
#[derive(Clone, Copy, Debug, PartialEq, Eq, Structural)]
pub enum Ground {
    /// No record this version reads could be read for this directory.
    Unrecorded,
    /// This run can name neither its namespace nor its boot.
    Unplaced,
    /// The record's namespace is not this run's.
    Foreign,
    /// The record belongs to a boot that has ended.
    ForeignBoot,
    /// The recorded agent is running, started when the record says.
    Running,
    /// The recorded agent has exited, or its identifier names another process.
    Gone,
    /// A process carries the identifier but its start time is unreadable.
    Unreadable,
}

/// One session directory's liveness.
#[derive(Clone, Copy, Debug, PartialEq, Eq, Structural)]
pub enum Verdict {
    /// The recorded agent is still running; the one verdict that is kept.
    Live,
    /// The recorded agent has exited.
    Dead,
    /// This run cannot decide.
    Unknown,
}

/// The verdict each ground establishes.
pub open spec fn verdict_of(g: Ground) -> Verdict {
    match g {
        Ground::Running => Verdict::Live,
        Ground::Gone | Ground::ForeignBoot => Verdict::Dead,
        _ => Verdict::Unknown,
    }
}

/// The machine spelling a document uses for each ground.
pub open spec fn ground_spelling(g: Ground) -> Seq<char> {
    match g {
        Ground::Unrecorded => "unrecorded"@,
        Ground::Unplaced => "unplaced"@,
        Ground::Foreign => "foreign"@,
        Ground::ForeignBoot => "foreign-boot"@,
        Ground::Running => "running"@,
        Ground::Gone => "gone"@,
        Ground::Unreadable => "unreadable"@,
    }
}

/// The word a report uses for each verdict.
pub open spec fn verdict_word(v: Verdict) -> Seq<char> {
    match v {
        Verdict::Live => "live"@,
        Verdict::Dead => "dead"@,
        Verdict::Unknown => "unknown"@,
    }
}

impl Ground {
    /// Projects this ground onto the verdict it establishes.
    pub fn verdict(self) -> (r: Verdict)
        ensures
            r == verdict_of(self),
    {
        match self {
            Ground::Running => Verdict::Live,
            Ground::Gone | Ground::ForeignBoot => Verdict::Dead,
            Ground::Unrecorded | Ground::Unplaced | Ground::Foreign | Ground::Unreadable => Verdict::Unknown,
        }
    }

    /// Returns the machine spelling a document uses for this ground.
    pub fn spelling(self) -> (r: &'static str)
        ensures
            r@ == ground_spelling(self),
    {
        match self {
            Ground::Unrecorded => "unrecorded",
            Ground::Unplaced => "unplaced",
            Ground::Foreign => "foreign",
            Ground::ForeignBoot => "foreign-boot",
            Ground::Running => "running",
            Ground::Gone => "gone",
            Ground::Unreadable => "unreadable",
        }
    }
}

impl Verdict {
    /// Returns the word a report uses for this verdict.
    pub fn as_str(self) -> (r: &'static str)
        ensures
            r@ == verdict_word(self),
    {
        match self {
            Verdict::Live => "live",
            Verdict::Dead => "dead",
            Verdict::Unknown => "unknown",
        }
    }

    /// Reports whether `session clean` removes a directory judged this way:
    /// everything but a proven-live agent.
    pub fn collectable(self) -> (r: bool)
        ensures
            r == (self != Verdict::Live),
    {
        match self {
            Verdict::Live => false,
            _ => true,
        }
    }
}

/// The ground one marker is judged on, given what this run observed.
///
/// A run that can name neither half of its place judges nothing; a foreign
/// namespace is its own ground; a boot that has ended answers without looking
/// at any process; inside this boot the identifier and the start time together
/// decide.
pub open spec fn judgment(
    marker_namespace: Seq<char>,
    marker_boot: Seq<char>,
    marker_started: u64,
    namespace: Option<Seq<char>>,
    boot: Option<Seq<char>>,
    process: Process,
) -> Ground {
    if namespace is None || boot is None {
        Ground::Unplaced
    } else if namespace->0 != marker_namespace {
        Ground::Foreign
    } else if boot->0 != marker_boot {
        Ground::ForeignBoot
    } else {
        match process {
            Process::Running { started } => if started == marker_started {
                Ground::Running
            } else {
                Ground::Gone
            },
            Process::Absent => Ground::Gone,
            Process::Unreadable => Ground::Unreadable,
        }
    }
}

/// The view of an optional identifier.
pub open spec fn opt_id(o: Option<Identifier>) -> Option<Seq<char>> {
    match o {
        Some(i) => Some(i@),
        None => None,
    }
}

/// The view of an optional string.
pub open spec fn opt_text(o: Option<String>) -> Option<Seq<char>> {
    match o {
        Some(s) => Some(s@),
        None => None,
    }
}

/// Judges one marker against what this run observed, and says on what ground.
pub fn judge(marker: &Marker, observed: &Observed) -> (r: Ground)
    ensures
        r == judgment(marker.namespace@, marker.boot@, marker.started, opt_id(observed.namespace),
            opt_text(observed.boot), observed.process),
{
    let namespace = match &observed.namespace {
        Some(n) => n,
        None => {
            return Ground::Unplaced;
        },
    };
    let boot = match &observed.boot {
        Some(b) => b,
        None => {
            return Ground::Unplaced;
        },
    };
    if !namespace.same_as(&marker.namespace) {
        return Ground::Foreign;
    }
    if !same_text(boot.as_str(), marker.boot.as_str()) {
        return Ground::ForeignBoot;
    }
    match observed.process {
        Process::Running { started } => if started == marker.started {
            Ground::Running
        } else {
            Ground::Gone
        },
        Process::Absent => Ground::Gone,
        Process::Unreadable => Ground::Unreadable,
    }
}

/// Exactly one verdict keeps a directory: a directory is kept only while its
/// agent is proven running, and only the running ground proves that.
pub proof fn law_only_a_running_agent_is_kept(g: Ground)
    ensures
        (verdict_of(g) != Verdict::Live) <==> g != Ground::Running,
{
}

/// Within this run's boot and namespace, a recorded agent is live exactly when
/// a process carries its identifier with its recorded start time.
pub proof fn law_live_means_same_process(
    marker_namespace: Seq<char>,
    marker_boot: Seq<char>,
    marker_started: u64,
    namespace: Option<Seq<char>>,
    boot: Option<Seq<char>>,
    process: Process,
)
    ensures
        verdict_of(judgment(marker_namespace, marker_boot, marker_started, namespace, boot, process))
            == Verdict::Live <==> (namespace == Some(marker_namespace) && boot == Some(marker_boot)
            && process == (Process::Running { started: marker_started })),
{
}

} // verus!
