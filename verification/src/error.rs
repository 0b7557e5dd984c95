//! Closed, typed application errors and stable diagnostics.

use vstd::prelude::*;

use crate::text::push_str;

verus! {

/// Pure domain validation failures.
#[derive(Debug)]
pub enum DomainError {
    /// An identifier violated the documented grammar; carries the rejected text.
    InvalidIdentifier(String),
    /// Wrapper arguments were malformed.
    InvalidArguments(String),
    /// No home directory was available for XDG defaults.
    MissingHome,
    /// A document was well formed but said something the wrapper refuses.
    Semantic(String),
}

/// Stable wrapper error identifiers.
#[derive(Clone, Copy, Debug, Eq, PartialEq)]
pub enum ErrorKind {
    Usage,
    DataFormat,
    NoInput,
    Unavailable,
    Internal,
    OsError,
    Io,
    LockBusy,
    Auth,
    Permission,
    Config,
    ChildRecursion,
    ChildNotExecutable,
    ChildNotFound,
}

/// The process code each kind exits with.
pub open spec fn exit_code_of(kind: ErrorKind) -> u8 {
    match kind {
        ErrorKind::Usage => 64,
        ErrorKind::DataFormat => 65,
        ErrorKind::NoInput => 66,
        ErrorKind::Unavailable => 69,
        ErrorKind::Internal => 70,
        ErrorKind::OsError => 71,
        ErrorKind::Io => 74,
        ErrorKind::LockBusy => 75,
        ErrorKind::Auth | ErrorKind::Permission => 77,
        ErrorKind::Config | ErrorKind::ChildRecursion => 78,
        ErrorKind::ChildNotExecutable => 126,
        ErrorKind::ChildNotFound => 127,
    }
}

impl ErrorKind {
    /// Returns the append-only public spelling.
    pub fn spelling(self) -> (r: &'static str)
        ensures
            r@ == match self {
                ErrorKind::Usage => "Usage"@,
                ErrorKind::DataFormat => "DataFormat"@,
                ErrorKind::NoInput => "NoInput"@,
                ErrorKind::Unavailable => "Unavailable"@,
                ErrorKind::Internal => "Internal"@,
                ErrorKind::OsError => "OsError"@,
                ErrorKind::Io => "Io"@,
                ErrorKind::LockBusy => "LockBusy"@,
                ErrorKind::Auth => "Auth"@,
                ErrorKind::Permission => "Permission"@,
                ErrorKind::Config => "Config"@,
                ErrorKind::ChildRecursion => "ChildRecursion"@,
                ErrorKind::ChildNotExecutable => "ChildNotExecutable"@,
                ErrorKind::ChildNotFound => "ChildNotFound"@,
            },
    {
        match self {
            ErrorKind::Usage => "Usage",
            ErrorKind::DataFormat => "DataFormat",
            ErrorKind::NoInput => "NoInput",
            ErrorKind::Unavailable => "Unavailable",
            ErrorKind::Internal => "Internal",
            ErrorKind::OsError => "OsError",
            ErrorKind::Io => "Io",
            ErrorKind::LockBusy => "LockBusy",
            ErrorKind::Auth => "Auth",
            ErrorKind::Permission => "Permission",
            ErrorKind::Config => "Config",
            ErrorKind::ChildRecursion => "ChildRecursion",
            ErrorKind::ChildNotExecutable => "ChildNotExecutable",
            ErrorKind::ChildNotFound => "ChildNotFound",
        }
    }

    /// Returns the stable wrapper-owned process code.
    pub fn exit_code(self) -> (r: u8)
        ensures
            r == exit_code_of(self),
    {
        match self {
            ErrorKind::Usage => 64,
            ErrorKind::DataFormat => 65,
            ErrorKind::NoInput => 66,
            ErrorKind::Unavailable => 69,
            ErrorKind::Internal => 70,
            ErrorKind::OsError => 71,
            ErrorKind::Io => 74,
            ErrorKind::LockBusy => 75,
            ErrorKind::Auth | ErrorKind::Permission => 77,
            ErrorKind::Config | ErrorKind::ChildRecursion => 78,
            ErrorKind::ChildNotExecutable => 126,
            ErrorKind::ChildNotFound => 127,
        }
    }
}

/// Every code a kind exits with is non-zero, so an error is never mistaken for success.
pub proof fn lemma_exit_codes_are_failures(kind: ErrorKind)
    ensures
        exit_code_of(kind) != 0,
        64 <= exit_code_of(kind) <= 127,
{
}

/// The four-part human diagnostic plus optional child status.
#[derive(Clone, Debug)]
pub struct Diagnostic {
    /// Short statement of the failure.
    pub what: String,
    /// Concrete location or subject.
    pub where_: String,
    /// Explanation of the cause.
    pub why: String,
    /// One useful recovery action.
    pub hint: String,
    /// Child status when relevant.
    pub child_exit: Option<u8>,
}

impl Diagnostic {
    /// Constructs a diagnostic with no child status.
    pub fn new(what: String, where_: String, why: String, hint: String) -> (r: Diagnostic)
        ensures
            r.what@ == what@,
            r.where_@ == where_@,
            r.why@ == why@,
            r.hint@ == hint@,
            r.child_exit is None,
    {
        Diagnostic { what, where_, why, hint, child_exit: None }
    }
}

/// Builds an owned string from a literal.
pub fn owned(text: &str) -> (r: String)
    ensures
        r@ == text@,
{
    text.to_owned()
}

/// The closed set of wrapper-originated failures.
#[derive(Debug)]
pub enum AppError {
    Usage(Diagnostic),
    DataFormat(Diagnostic),
    NoInput(Diagnostic),
    Unavailable(Diagnostic),
    Internal(Diagnostic),
    OsError(Diagnostic),
    Io(Diagnostic),
    LockBusy(Diagnostic),
    Auth(Diagnostic),
    Permission(Diagnostic),
    Config(Diagnostic),
    ChildRecursion(Diagnostic),
    ChildNotExecutable(Diagnostic),
    ChildNotFound(Diagnostic),
}

/// The kind each error variant carries.
pub open spec fn kind_of(error: AppError) -> ErrorKind {
    match error {
        AppError::Usage(_) => ErrorKind::Usage,
        AppError::DataFormat(_) => ErrorKind::DataFormat,
        AppError::NoInput(_) => ErrorKind::NoInput,
        AppError::Unavailable(_) => ErrorKind::Unavailable,
        AppError::Internal(_) => ErrorKind::Internal,
        AppError::OsError(_) => ErrorKind::OsError,
        AppError::Io(_) => ErrorKind::Io,
        AppError::LockBusy(_) => ErrorKind::LockBusy,
        AppError::Auth(_) => ErrorKind::Auth,
        AppError::Permission(_) => ErrorKind::Permission,
        AppError::Config(_) => ErrorKind::Config,
        AppError::ChildRecursion(_) => ErrorKind::ChildRecursion,
        AppError::ChildNotExecutable(_) => ErrorKind::ChildNotExecutable,
        AppError::ChildNotFound(_) => ErrorKind::ChildNotFound,
    }
}

/// The diagnostic each error variant carries.
pub open spec fn diagnostic_of(error: AppError) -> Diagnostic {
    match error {
        AppError::Usage(d) => d,
        AppError::DataFormat(d) => d,
        AppError::NoInput(d) => d,
        AppError::Unavailable(d) => d,
        AppError::Internal(d) => d,
        AppError::OsError(d) => d,
        AppError::Io(d) => d,
        AppError::LockBusy(d) => d,
        AppError::Auth(d) => d,
        AppError::Permission(d) => d,
        AppError::Config(d) => d,
        AppError::ChildRecursion(d) => d,
        AppError::ChildNotExecutable(d) => d,
        AppError::ChildNotFound(d) => d,
    }
}

impl AppError {
    /// Wraps a diagnostic in the variant of the given kind.
    pub fn new(kind: ErrorKind, diagnostic: Diagnostic) -> (r: AppError)
        ensures
            kind_of(r) == kind,
            diagnostic_of(r) == diagnostic,
    {
        match kind {
            ErrorKind::Usage => AppError::Usage(diagnostic),
            ErrorKind::DataFormat => AppError::DataFormat(diagnostic),
            ErrorKind::NoInput => AppError::NoInput(diagnostic),
            ErrorKind::Unavailable => AppError::Unavailable(diagnostic),
            ErrorKind::Internal => AppError::Internal(diagnostic),
            ErrorKind::OsError => AppError::OsError(diagnostic),
            ErrorKind::Io => AppError::Io(diagnostic),
            ErrorKind::LockBusy => AppError::LockBusy(diagnostic),
            ErrorKind::Auth => AppError::Auth(diagnostic),
            ErrorKind::Permission => AppError::Permission(diagnostic),
            ErrorKind::Config => AppError::Config(diagnostic),
            ErrorKind::ChildRecursion => AppError::ChildRecursion(diagnostic),
            ErrorKind::ChildNotExecutable => AppError::ChildNotExecutable(diagnostic),
            ErrorKind::ChildNotFound => AppError::ChildNotFound(diagnostic),
        }
    }

    /// Returns the stable kind without a catch-all arm.
    pub fn kind(&self) -> (r: ErrorKind)
        ensures
            r == kind_of(*self),
    {
        match self {
            AppError::Usage(_) => ErrorKind::Usage,
            AppError::DataFormat(_) => ErrorKind::DataFormat,
            AppError::NoInput(_) => ErrorKind::NoInput,
            AppError::Unavailable(_) => ErrorKind::Unavailable,
            AppError::Internal(_) => ErrorKind::Internal,
            AppError::OsError(_) => ErrorKind::OsError,
            AppError::Io(_) => ErrorKind::Io,
            AppError::LockBusy(_) => ErrorKind::LockBusy,
            AppError::Auth(_) => ErrorKind::Auth,
            AppError::Permission(_) => ErrorKind::Permission,
            AppError::Config(_) => ErrorKind::Config,
            AppError::ChildRecursion(_) => ErrorKind::ChildRecursion,
            AppError::ChildNotExecutable(_) => ErrorKind::ChildNotExecutable,
            AppError::ChildNotFound(_) => ErrorKind::ChildNotFound,
        }
    }

    /// Borrows the structured diagnostic.
    pub fn diagnostic(&self) -> (r: &Diagnostic)
        ensures
            *r == diagnostic_of(*self),
    {
        match self {
            AppError::Usage(value) => value,
            AppError::DataFormat(value) => value,
            AppError::NoInput(value) => value,
            AppError::Unavailable(value) => value,
            AppError::Internal(value) => value,
            AppError::OsError(value) => value,
            AppError::Io(value) => value,
            AppError::LockBusy(value) => value,
            AppError::Auth(value) => value,
            AppError::Permission(value) => value,
            AppError::Config(value) => value,
            AppError::ChildRecursion(value) => value,
            AppError::ChildNotExecutable(value) => value,
            AppError::ChildNotFound(value) => value,
        }
    }

    /// Returns the stable numeric status.
    pub fn exit_code(&self) -> (r: u8)
        ensures
            r == exit_code_of(kind_of(*self)),
    {
        self.kind().exit_code()
    }

    /// Constructs a child-not-found diagnostic.
    pub fn child_not_found(where_: String, why: String) -> (r: AppError)
        ensures
            r matches AppError::ChildNotFound(d) && d.where_@ == where_@ && d.why@ == why@
                && d.what@ == "child executable was not found"@
                && d.hint@ == "configure child_bin or add agent to PATH"@
                && d.child_exit is None,
    {
        AppError::ChildNotFound(Diagnostic::new(
            owned("child executable was not found"),
            where_,
            why,
            owned("configure child_bin or add agent to PATH"),
        ))
    }

    /// Constructs a child-not-executable diagnostic.
    pub fn child_not_executable(where_: String, why: String) -> (r: AppError)
        ensures
            r matches AppError::ChildNotExecutable(d) && d.where_@ == where_@ && d.why@ == why@
                && d.what@ == "child executable cannot be run"@
                && d.hint@ == "check that the file is regular and executable"@
                && d.child_exit is None,
    {
        AppError::ChildNotExecutable(Diagnostic::new(
            owned("child executable cannot be run"),
            where_,
            why,
            owned("check that the file is regular and executable"),
        ))
    }

    /// Maps a domain validation failure onto the wrapper's error matrix.
    pub fn from_domain(error: DomainError) -> (r: AppError)
        ensures
            match error {
                DomainError::InvalidArguments(m) | DomainError::InvalidIdentifier(m) =>
                    (r matches AppError::Usage(d) && d.why@ == m@
                        && d.what@ == "invalid command line"@ && d.where_@ == "wrapper arguments"@
                        && d.hint@ == "run session-wrapper --help"@ && d.child_exit is None),
                DomainError::Semantic(m) => (r matches AppError::Config(d) && d.why@ == m@
                    && d.what@ == "configuration is invalid"@
                    && d.where_@ == "configuration loading"@
                    && d.hint@ == "correct the named value or file"@),
                DomainError::MissingHome => (r matches AppError::Config(d)
                    && d.what@ == "XDG paths cannot be resolved"@
                    && d.where_@ == "process environment"@
                    && d.why@ == "HOME is unset and an XDG base needs its default"@
                    && d.hint@ == "set absolute XDG base variables"@),
            },
    {
        match error {
            DomainError::InvalidArguments(message) | DomainError::InvalidIdentifier(message) => {
                AppError::Usage(Diagnostic::new(
                    owned("invalid command line"),
                    owned("wrapper arguments"),
                    message,
                    owned("run session-wrapper --help"),
                ))
            },
            DomainError::Semantic(message) => AppError::Config(Diagnostic::new(
                owned("configuration is invalid"),
                owned("configuration loading"),
                message,
                owned("correct the named value or file"),
            )),
            DomainError::MissingHome => AppError::Config(Diagnostic::new(
                owned("XDG paths cannot be resolved"),
                owned("process environment"),
                owned("HOME is unset and an XDG base needs its default"),
                owned("set absolute XDG base variables"),
            )),
        }
    }

    /// Renders the error as the four-line human diagnostic.
    pub fn render(&self) -> (r: String)
        ensures
            r@ == {
                let d = diagnostic_of(*self);
                let base = "session-wrapper: error["@ + spelling_of(kind_of(*self)) + "]: "@ + d.what@
                    + "\nWhere: "@ + d.where_@ + "\nWhy: "@ + d.why@ + "\nHint: "@ + d.hint@;
                match d.child_exit {
                    Some(code) => base + "\nChild exit: "@ + crate::text::decimal(code as nat),
                    None => base,
                }
            },
    {
        let d = self.diagnostic();
        let mut out = String::new();
        push_str(&mut out, "session-wrapper: error[");
        push_str(&mut out, self.kind().spelling());
        push_str(&mut out, "]: ");
        push_str(&mut out, d.what.as_str());
        push_str(&mut out, "\nWhere: ");
        push_str(&mut out, d.where_.as_str());
        push_str(&mut out, "\nWhy: ");
        push_str(&mut out, d.why.as_str());
        push_str(&mut out, "\nHint: ");
        push_str(&mut out, d.hint.as_str());
        if let Some(code) = d.child_exit {
            push_str(&mut out, "\nChild exit: ");
            crate::text::push_decimal(&mut out, code as u64);
        }
        out
    }
}

/// The public spelling of each kind.
pub open spec fn spelling_of(kind: ErrorKind) -> Seq<char> {
    match kind {
        ErrorKind::Usage => "Usage"@,
        ErrorKind::DataFormat => "DataFormat"@,
        ErrorKind::NoInput => "NoInput"@,
        ErrorKind::Unavailable => "Unavailable"@,
        ErrorKind::Internal => "Internal"@,
        ErrorKind::OsError => "OsError"@,
        ErrorKind::Io => "Io"@,
        ErrorKind::LockBusy => "LockBusy"@,
        ErrorKind::Auth => "Auth"@,
        ErrorKind::Permission => "Permission"@,
        ErrorKind::Config => "Config"@,
        ErrorKind::ChildRecursion => "ChildRecursion"@,
        ErrorKind::ChildNotExecutable => "ChildNotExecutable"@,
        ErrorKind::ChildNotFound => "ChildNotFound"@,
    }
}

} // verus!
