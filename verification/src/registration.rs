//! The child's own name for one running agent.
//!
//! The child registers every session it runs in the shared peer registry; one
//! of those registrations holds the name a person sees and sets with the
//! child's own rename. This module reads no file: it takes the decoded
//! document and keeps the name, the pair that proves whose name it is, and two
//! descriptive facts.

use vstd::prelude::*;

use crate::doc::{entry, entry_value, Doc};
use crate::error::{owned, DomainError};
use crate::text::{
    chars_of, has_control, holds_control, is_space, is_space_char, parse_u64, u64_text,
};

verus! {

/// The longest name a report carries; a longer one is refused rather than cut,
/// since a cut name is one two sessions could share.
pub const LONGEST: usize = 64;

/// The longest working directory a report carries.
pub const LONGEST_DIRECTORY: usize = 4096;

/// Whether a text may be a session name: one to sixty-four characters, no
/// control character, and no white space at either end.
pub open spec fn subject_ok(t: Seq<char>) -> bool {
    &&& 1 <= t.len() <= LONGEST
    &&& !has_control(t)
    &&& !is_space(t[0])
    &&& !is_space(t.last())
}

/// Whether a text may be a reported working directory: not empty, at most
/// 4096 characters, and no control character.
pub open spec fn directory_ok(t: Seq<char>) -> bool {
    &&& 1 <= t.len() <= LONGEST_DIRECTORY
    &&& !has_control(t)
}

fn check_subject(value: &str) -> (r: bool)
    ensures
        r == subject_ok(value@),
{
    let t = chars_of(value);
    let n = t.len();
    n >= 1 && n <= LONGEST && !holds_control(&t) && !is_space_char(t[0]) && !is_space_char(t[n - 1])
}

fn check_directory(value: &str) -> (r: bool)
    ensures
        r == directory_ok(value@),
{
    let t = chars_of(value);
    let n = t.len();
    n >= 1 && n <= LONGEST_DIRECTORY && !holds_control(&t)
}

/// The one subject a report can carry and a filter can name.
#[derive(Debug, PartialEq, Eq)]
pub struct Subject {
    text: String,
}

impl View for Subject {
    type V = Seq<char>;

    closed spec fn view(&self) -> Seq<char> {
        self.text@
    }
}

impl Subject {
    #[verifier::type_invariant]
    spec fn well_formed(self) -> bool {
        subject_ok(self.text@)
    }

    /// Reads a session name, refusing rather than cutting or stripping it.
    pub fn parse(value: &str) -> (r: Result<Subject, DomainError>)
        ensures
            subject_ok(value@) ==> (r matches Ok(s) && s@ == value@),
            !subject_ok(value@) ==> (r matches Err(DomainError::InvalidArguments(m))
                && m@ == "a session name must be 1 to 64 printable, unpadded characters"@),
    {
        if !check_subject(value) {
            return Err(DomainError::InvalidArguments(owned(
                "a session name must be 1 to 64 printable, unpadded characters",
            )));
        }
        Ok(Subject { text: owned(value) })
    }

    /// Borrows the name.
    pub fn as_str(&self) -> (r: &str)
        ensures
            r@ == self@,
    {
        self.text.as_str()
    }
}

impl std::str::FromStr for Subject {
    type Err = DomainError;

    fn from_str(value: &str) -> (r: Result<Subject, DomainError>)
        ensures
            subject_ok(value@) ==> (r matches Ok(s) && s@ == value@),
            !subject_ok(value@) ==> (r matches Err(DomainError::InvalidArguments(m))
                && m@ == "a session name must be 1 to 64 printable, unpadded characters"@),
    {
        Subject::parse(value)
    }
}

/// A number read the way a JSON reader's `as_u64` reads it: digits only.
pub open spec fn number_u64(t: Seq<char>) -> Option<u64> {
    if t.len() > 0 && t[0] == '+' {
        None
    } else {
        u64_text(t)
    }
}

/// A start time the child records as text or as a number.
pub open spec fn ticks_of(d: Doc) -> Option<u64> {
    match d {
        Doc::Text(t) => u64_text(t@),
        Doc::Number(t) => number_u64(t@),
        _ => None,
    }
}

/// The text a node holds, when it is text.
pub open spec fn text_of(d: Option<Doc>) -> Option<Seq<char>> {
    match d {
        Some(Doc::Text(t)) => Some(t@),
        _ => None,
    }
}

/// What a registration document names: the process identifier, its start
/// time, the name, and the working directory and status where they are
/// usable; nothing when the document is not an object, misses or mistypes a
/// field the join needs, or carries a name the rule refuses.
pub open spec fn registration_of(d: Doc) -> Option<(u32, u64, Seq<char>, Option<Seq<char>>, Option<Seq<char>>)> {
    match d {
        Doc::Mapping(es) => {
            let pid = match entry_value(es@, "pid"@) {
                Some(Doc::Number(t)) => number_u64(t@),
                _ => None,
            };
            let started = match entry_value(es@, "procStart"@) {
                Some(v) => ticks_of(v),
                None => None,
            };
            let name = text_of(entry_value(es@, "name"@));
            let cwd = text_of(entry_value(es@, "cwd"@));
            let status = text_of(entry_value(es@, "status"@));
            if pid is Some && pid.unwrap() <= u32::MAX && started is Some && name is Some && subject_ok(
                name.unwrap(),
            ) {
                Some(
                    (
                        pid.unwrap() as u32,
                        started.unwrap(),
                        name.unwrap(),
                        if cwd is Some && directory_ok(cwd.unwrap()) { cwd } else { None },
                        if status is Some && subject_ok(status.unwrap()) { status } else { None },
                    ),
                )
            } else {
                None
            }
        },
        _ => None,
    }
}

/// One child registration, reduced to what a report may say.
#[derive(Debug, PartialEq, Eq)]
pub struct Registration {
    pid: u32,
    started: u64,
    name: String,
    working_directory: Option<String>,
    child_status: Option<String>,
}

/// An optional text by its view.
pub open spec fn optional_view(o: Option<String>) -> Option<Seq<char>> {
    match o {
        Some(s) => Some(s@),
        None => None,
    }
}

impl View for Registration {
    type V = (u32, u64, Seq<char>, Option<Seq<char>>, Option<Seq<char>>);

    closed spec fn view(&self) -> (u32, u64, Seq<char>, Option<Seq<char>>, Option<Seq<char>>) {
        (self.pid, self.started, self.name@, optional_view(self.working_directory), optional_view(self.child_status))
    }
}

fn number(d: Option<&Doc>) -> (r: Option<u64>)
    ensures
        r == (match d {
            Some(Doc::Number(t)) => number_u64(t@),
            _ => None,
        }),
{
    match d {
        Some(Doc::Number(t)) => {
            let c = chars_of(t.as_str());
            if c.len() > 0 && c[0] == '+' {
                None
            } else {
                parse_u64(t.as_str())
            }
        },
        _ => None,
    }
}

fn ticks(d: Option<&Doc>) -> (r: Option<u64>)
    ensures
        r == (match d {
            Some(v) => ticks_of(*v),
            None => None,
        }),
{
    match d {
        Some(Doc::Text(t)) => parse_u64(t.as_str()),
        Some(Doc::Number(_)) => number(d),
        _ => None,
    }
}

fn text(d: Option<&Doc>) -> (r: Option<&String>)
    ensures
        match d {
            Some(Doc::Text(t)) => r == Some(t),
            _ => r is None,
        },
{
    match d {
        Some(Doc::Text(t)) => Some(t),
        _ => None,
    }
}

impl Registration {
    /// Builds a registration from the three facts, refusing a name the rule
    /// refuses.
    pub fn new(pid: u32, started: u64, name: &str) -> (r: Option<Registration>)
        ensures
            subject_ok(name@) ==> (r matches Some(g) && g@ == (pid, started, name@, None::<Seq<char>>, None::<Seq<char>>)),
            !subject_ok(name@) ==> r is None,
    {
        if !check_subject(name) {
            return None;
        }
        Some(Registration { pid, started, name: owned(name), working_directory: None, child_status: None })
    }

    /// Reads one registration document, or refuses it. Fields the wrapper
    /// does not read are ignored, so a record that grows a field still names
    /// its session.
    pub fn from_document(d: &Doc) -> (r: Option<Registration>)
        ensures
            match registration_of(*d) {
                Some(v) => r matches Some(g) && g@ == v,
                None => r is None,
            },
    {
        let es = match d {
            Doc::Mapping(es) => es,
            _ => return None,
        };
        let pid = match number(entry(es, "pid")) {
            Some(p) => p,
            None => return None,
        };
        if pid > u32::MAX as u64 {
            return None;
        }
        let started = match ticks(entry(es, "procStart")) {
            Some(s) => s,
            None => return None,
        };
        let name = match text(entry(es, "name")) {
            Some(n) => n,
            None => return None,
        };
        let mut registration = match Registration::new(pid as u32, started, name.as_str()) {
            Some(g) => g,
            None => return None,
        };
        if let Some(c) = text(entry(es, "cwd")) {
            if check_directory(c.as_str()) {
                registration.working_directory = Some(owned(c.as_str()));
            }
        }
        if let Some(s) = text(entry(es, "status")) {
            if check_subject(s.as_str()) {
                registration.child_status = Some(owned(s.as_str()));
            }
        }
        Some(registration)
    }

    /// Whether this registration is the one the agent with this process
    /// identifier and start time wrote; both halves, since an identifier is
    /// reused within one boot.
    pub fn names(&self, pid: u32, started: u64) -> (r: bool)
        ensures
            r == (self@.0 == pid && self@.1 == started),
    {
        self.pid == pid && self.started == started
    }

    /// Borrows the name the child registered.
    pub fn name(&self) -> (r: &str)
        ensures
            r@ == self@.2,
    {
        self.name.as_str()
    }

    /// Borrows the working directory, when it was usable.
    pub fn working_directory(&self) -> (r: Option<&str>)
        ensures
            match self@.3 {
                Some(w) => r matches Some(s) && s@ == w,
                None => r is None,
            },
    {
        match &self.working_directory {
            Some(w) => Some(w.as_str()),
            None => None,
        }
    }

    /// Borrows the child's status line, when it was usable.
    pub fn child_status(&self) -> (r: Option<&str>)
        ensures
            match self@.4 {
                Some(w) => r matches Some(s) && s@ == w,
                None => r is None,
            },
    {
        match &self.child_status {
            Some(w) => Some(w.as_str()),
            None => None,
        }
    }
}

} // verus!
