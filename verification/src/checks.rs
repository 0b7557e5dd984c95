//! The complete public probe catalog and report values.
//!
//! Naming a condition and quoting the one wording that answers it, so a guard
//! and a later `doctor` describe one problem in one sentence, and folding a
//! run's results into the one status and exit code it reports.

use vstd::prelude::*;

use crate::error::{exit_code_of, owned, Diagnostic, ErrorKind};
use crate::text::{push_char, push_str, replace_all, replace_all_spec, zero_padded};

verus! {

/// The ownership boundary a check inspects.
#[derive(Clone, Copy, Debug, PartialEq, Eq, Structural)]
pub enum Scope {
    Host,
    Session,
}

impl Scope {
    /// Returns the word a report uses for this scope.
    pub fn as_str(self) -> (r: &'static str)
        ensures
            r@ == (match self {
                Scope::Host => "host"@,
                Scope::Session => "session"@,
            }),
    {
        match self {
            Scope::Host => "host",
            Scope::Session => "session",
        }
    }
}

/// Whether an unhealthy subject prevents the wrapper from functioning.
#[derive(Clone, Copy, Debug, PartialEq, Eq, Structural)]
pub enum Severity {
    Hard,
    Soft,
}

impl Severity {
    /// Returns the word a report uses for this severity.
    pub fn as_str(self) -> (r: &'static str)
        ensures
            r@ == (match self {
                Severity::Hard => "hard"@,
                Severity::Soft => "soft"@,
            }),
    {
        match self {
            Severity::Hard => "hard",
            Severity::Soft => "soft",
        }
    }
}

/// A storage condition with a stable, public check identifier.
#[derive(Clone, Copy, Debug, PartialEq, Eq, Structural)]
pub enum StorageCheck {
    /// No existing wrapper-managed path component is a symbolic link.
    NoSymlinks,
    /// Every existing wrapper-managed path component is owned by this user.
    Owned,
    /// Every wrapper-managed path has the type the artifact table assigns it.
    Typed,
    /// Every wrapper-managed directory is `0700` after automatic correction.
    DirectoryModes,
    /// Every wrapper-owned private file is `0600` after correction.
    SecretModes,
}

/// A composed-entry condition.
#[derive(Clone, Copy, Debug, PartialEq, Eq, Structural)]
pub enum EntryCheck {
    /// A resolved profile, and every piece it names, exists.
    Compose,
    /// A materialized entry's recorded digest matches the one its inputs recompute.
    Consistent,
}

/// An account-local health check.
#[derive(Clone, Copy, Debug, PartialEq, Eq, Structural)]
pub enum AccountCheck {
    RegistryReadable,
    CredentialsUsable,
}

/// One stable catalog entry.
#[derive(Clone, Copy, Debug, PartialEq, Eq, Structural)]
pub enum Check {
    BaseDirsResolve,
    RuntimeDirPresent,
    WrapperConfigParses,
    ChildBinaryResolves,
    ChildIsExecutable,
    ChildVersionFloor,
    Storage(StorageCheck),
    Entry(EntryCheck),
    Account(AccountCheck),
}

/// The implemented public catalog, in its append-only order.
pub open spec fn catalog_spec() -> Seq<Check> {
    seq![
        Check::BaseDirsResolve,
        Check::RuntimeDirPresent,
        Check::WrapperConfigParses,
        Check::ChildBinaryResolves,
        Check::ChildIsExecutable,
        Check::ChildVersionFloor,
        Check::Storage(StorageCheck::NoSymlinks),
        Check::Storage(StorageCheck::Owned),
        Check::Storage(StorageCheck::Typed),
        Check::Storage(StorageCheck::DirectoryModes),
        Check::Storage(StorageCheck::SecretModes),
        Check::Entry(EntryCheck::Compose),
        Check::Entry(EntryCheck::Consistent),
        Check::Account(AccountCheck::RegistryReadable),
        Check::Account(AccountCheck::CredentialsUsable),
    ]
}

/// The implemented public catalog, in its append-only order.
pub fn catalog() -> (r: Vec<Check>)
    ensures
        r@ == catalog_spec(),
{
    let r = vec![
        Check::BaseDirsResolve,
        Check::RuntimeDirPresent,
        Check::WrapperConfigParses,
        Check::ChildBinaryResolves,
        Check::ChildIsExecutable,
        Check::ChildVersionFloor,
        Check::Storage(StorageCheck::NoSymlinks),
        Check::Storage(StorageCheck::Owned),
        Check::Storage(StorageCheck::Typed),
        Check::Storage(StorageCheck::DirectoryModes),
        Check::Storage(StorageCheck::SecretModes),
        Check::Entry(EntryCheck::Compose),
        Check::Entry(EntryCheck::Consistent),
        Check::Account(AccountCheck::RegistryReadable),
        Check::Account(AccountCheck::CredentialsUsable),
    ];
    proof {
        assert(r@ =~= catalog_spec());
    }
    r
}

/// The stable public id of each storage check.
pub open spec fn storage_id(c: StorageCheck) -> Seq<char> {
    match c {
        StorageCheck::NoSymlinks => "storage-paths-no-symlinks"@,
        StorageCheck::Owned => "storage-paths-owned"@,
        StorageCheck::Typed => "storage-paths-typed"@,
        StorageCheck::DirectoryModes => "storage-directory-modes"@,
        StorageCheck::SecretModes => "storage-secret-modes"@,
    }
}

/// The stable public id of each entry check.
pub open spec fn entry_id(c: EntryCheck) -> Seq<char> {
    match c {
        EntryCheck::Compose => "settings-compose"@,
        EntryCheck::Consistent => "settings-entry-consistent"@,
    }
}

/// The stable public id of each account check.
pub open spec fn account_id(c: AccountCheck) -> Seq<char> {
    match c {
        AccountCheck::RegistryReadable => "account-registry-readable"@,
        AccountCheck::CredentialsUsable => "credentials-usable"@,
    }
}

/// The stable public id of each check.
pub open spec fn check_id(c: Check) -> Seq<char> {
    match c {
        Check::BaseDirsResolve => "base-dirs-resolve"@,
        Check::RuntimeDirPresent => "runtime-dir-present"@,
        Check::WrapperConfigParses => "wrapper-config-parses"@,
        Check::ChildBinaryResolves => "child-binary-resolves"@,
        Check::ChildIsExecutable => "child-is-executable"@,
        Check::ChildVersionFloor => "child-version-floor"@,
        Check::Storage(s) => storage_id(s),
        Check::Entry(e) => entry_id(e),
        Check::Account(a) => account_id(a),
    }
}

/// The owning scope of each check.
pub open spec fn scope_of(c: Check) -> Scope {
    match c {
        Check::Storage(_) | Check::Entry(_) | Check::Account(_) => Scope::Session,
        _ => Scope::Host,
    }
}

/// The published severity of each check.
pub open spec fn severity_of(c: Check) -> Severity {
    match c {
        Check::RuntimeDirPresent | Check::ChildVersionFloor | Check::Account(_) => Severity::Soft,
        _ => Severity::Hard,
    }
}

/// The published error kind of each check.
pub open spec fn check_kind(c: Check) -> ErrorKind {
    match c {
        Check::BaseDirsResolve | Check::RuntimeDirPresent | Check::ChildVersionFloor => ErrorKind::Unavailable,
        Check::WrapperConfigParses => ErrorKind::Config,
        Check::ChildBinaryResolves => ErrorKind::ChildNotFound,
        Check::ChildIsExecutable => ErrorKind::ChildNotExecutable,
        Check::Storage(_) => ErrorKind::Permission,
        Check::Entry(EntryCheck::Compose) => ErrorKind::NoInput,
        Check::Entry(EntryCheck::Consistent) => ErrorKind::DataFormat,
        Check::Account(AccountCheck::RegistryReadable) => ErrorKind::Io,
        Check::Account(AccountCheck::CredentialsUsable) => ErrorKind::Auth,
    }
}

/// The remediation template each storage check owns.
pub open spec fn storage_remediation(c: StorageCheck) -> Seq<char> {
    match c {
        StorageCheck::NoSymlinks => "Move the symbolic link at {path} aside and recreate the expected {expected_type} there, restoring only content you trust."@,
        StorageCheck::Owned => "{path} is owned by another user, which usually means a restored backup or a file created under sudo. Do not change its owner in place — move it aside and let the wrapper recreate it as you."@,
        StorageCheck::Typed => "{path} is a {actual_type} and this location must be a {expected_type}. Move it aside and let the wrapper recreate it; nothing under this path is unrecoverable except an account login."@,
        StorageCheck::DirectoryModes => "Could not restrict {path} to mode {expected_mode}. Check that it is on a filesystem supporting Unix permissions and was created by the current user."@,
        StorageCheck::SecretModes => "Could not restrict {path} to mode {expected_mode}. Move the file to storage that supports Unix permissions before using it again."@,
    }
}

/// The remediation template each entry check owns.
pub open spec fn entry_remediation(c: EntryCheck) -> Seq<char> {
    match c {
        EntryCheck::Compose => "{path}, named by profile {profile}, does not exist. Create it, correct the name in the profile, or select a different profile."@,
        EntryCheck::Consistent => "The composed entry at {path} does not match the digest its inputs recompute, so it was neither opened nor overwritten. Move it aside; the next launch composes a fresh one. Report this — an entry is written once and never rewritten."@,
    }
}

/// The remediation template each account check owns.
pub open spec fn account_remediation(c: AccountCheck) -> Seq<char> {
    match c {
        AccountCheck::RegistryReadable => "Make `{path}` a readable, private directory owned by the current user, then retry."@,
        AccountCheck::CredentialsUsable => "Run `session-wrapper account login {account}` to recreate this account's stored authentication and its local metadata."@,
    }
}

/// The remediation template each check owns, if any.
pub open spec fn remediation_of(c: Check) -> Option<Seq<char>> {
    match c {
        Check::BaseDirsResolve => Some("`XDG_CONFIG_HOME` and `XDG_STATE_HOME` must be absolute paths, or unset so the defaults apply. Run `session-wrapper doctor` to see what each resolved to."@),
        Check::RuntimeDirPresent => None,
        Check::WrapperConfigParses => Some("`{key}` in `{path}` is not a configuration key. Remove it, or correct it to one of the keys [configuration](./configuration.md#keys) lists."@),
        Check::ChildBinaryResolves => Some("No `agent` was found. Install it, put it on `PATH`, or set `child_bin` to its absolute path — [process runtime](./process-runtime.md#child-resolution) gives the order the two rungs are tried in."@),
        Check::ChildIsExecutable => Some("{path} exists but the current user cannot execute it. Grant execute permission, or point `child_bin` at a different binary."@),
        Check::ChildVersionFloor => Some("The resolved `agent` reports {version}, below the {minimum} this wrapper is designed against. Upgrade it before using a saved-login account; token mode still works below the floor."@),
        Check::Storage(s) => Some(storage_remediation(s)),
        Check::Entry(e) => Some(entry_remediation(e)),
        Check::Account(a) => Some(account_remediation(a)),
    }
}

impl StorageCheck {
    /// Returns the stable, public check identifier.
    pub fn id(self) -> (r: &'static str)
        ensures
            r@ == storage_id(self),
    {
        match self {
            StorageCheck::NoSymlinks => "storage-paths-no-symlinks",
            StorageCheck::Owned => "storage-paths-owned",
            StorageCheck::Typed => "storage-paths-typed",
            StorageCheck::DirectoryModes => "storage-directory-modes",
            StorageCheck::SecretModes => "storage-secret-modes",
        }
    }

    /// Returns the kind a failure of this check exits with.
    pub fn kind(self) -> (r: ErrorKind)
        ensures
            r == check_kind(Check::Storage(self)),
    {
        ErrorKind::Permission
    }

    /// Returns the one remediation template this check owns.
    pub fn remediation(self) -> (r: &'static str)
        ensures
            r@ == storage_remediation(self),
    {
        match self {
            StorageCheck::NoSymlinks => "Move the symbolic link at {path} aside and recreate the expected {expected_type} there, restoring only content you trust.",
            StorageCheck::Owned => "{path} is owned by another user, which usually means a restored backup or a file created under sudo. Do not change its owner in place — move it aside and let the wrapper recreate it as you.",
            StorageCheck::Typed => "{path} is a {actual_type} and this location must be a {expected_type}. Move it aside and let the wrapper recreate it; nothing under this path is unrecoverable except an account login.",
            StorageCheck::DirectoryModes => "Could not restrict {path} to mode {expected_mode}. Check that it is on a filesystem supporting Unix permissions and was created by the current user.",
            StorageCheck::SecretModes => "Could not restrict {path} to mode {expected_mode}. Move the file to storage that supports Unix permissions before using it again.",
        }
    }
}

impl EntryCheck {
    /// Returns the stable, public check identifier.
    pub fn id(self) -> (r: &'static str)
        ensures
            r@ == entry_id(self),
    {
        match self {
            EntryCheck::Compose => "settings-compose",
            EntryCheck::Consistent => "settings-entry-consistent",
        }
    }

    /// Returns the kind a failure of this check exits with.
    pub fn kind(self) -> (r: ErrorKind)
        ensures
            r == check_kind(Check::Entry(self)),
    {
        match self {
            EntryCheck::Compose => ErrorKind::NoInput,
            EntryCheck::Consistent => ErrorKind::DataFormat,
        }
    }

    /// Returns the one remediation template this check owns.
    pub fn remediation(self) -> (r: &'static str)
        ensures
            r@ == entry_remediation(self),
    {
        match self {
            EntryCheck::Compose => "{path}, named by profile {profile}, does not exist. Create it, correct the name in the profile, or select a different profile.",
            EntryCheck::Consistent => "The composed entry at {path} does not match the digest its inputs recompute, so it was neither opened nor overwritten. Move it aside; the next launch composes a fresh one. Report this — an entry is written once and never rewritten.",
        }
    }
}

impl AccountCheck {
    /// Returns the stable, public check identifier.
    pub fn id(self) -> (r: &'static str)
        ensures
            r@ == account_id(self),
    {
        match self {
            AccountCheck::RegistryReadable => "account-registry-readable",
            AccountCheck::CredentialsUsable => "credentials-usable",
        }
    }

    /// Returns the kind a failure of this check exits with.
    pub fn kind(self) -> (r: ErrorKind)
        ensures
            r == check_kind(Check::Account(self)),
    {
        match self {
            AccountCheck::RegistryReadable => ErrorKind::Io,
            AccountCheck::CredentialsUsable => ErrorKind::Auth,
        }
    }

    /// Returns the one remediation template this check owns.
    pub fn remediation(self) -> (r: &'static str)
        ensures
            r@ == account_remediation(self),
    {
        match self {
            AccountCheck::RegistryReadable => "Make `{path}` a readable, private directory owned by the current user, then retry.",
            AccountCheck::CredentialsUsable => "Run `session-wrapper account login {account}` to recreate this account's stored authentication and its local metadata.",
        }
    }
}

/// The views of named substitution values.
pub open spec fn pairs_view(v: Seq<(&str, &str)>) -> Seq<(Seq<char>, Seq<char>)> {
    v.map_values(|p: (&str, &str)| (p.0@, p.1@))
}

/// A template with `{name}` replaced by each value in turn.
pub open spec fn substitute(template: Seq<char>, values: Seq<(Seq<char>, Seq<char>)>) -> Seq<char>
    decreases values.len(),
{
    if values.len() == 0 {
        template
    } else {
        let last = values.last();
        replace_all_spec(substitute(template, values.drop_last()), seq!['{'] + last.0 + seq!['}'], last.1)
    }
}

impl Check {
    /// Returns the stable public id.
    pub fn id(self) -> (r: &'static str)
        ensures
            r@ == check_id(self),
    {
        match self {
            Check::BaseDirsResolve => "base-dirs-resolve",
            Check::RuntimeDirPresent => "runtime-dir-present",
            Check::WrapperConfigParses => "wrapper-config-parses",
            Check::ChildBinaryResolves => "child-binary-resolves",
            Check::ChildIsExecutable => "child-is-executable",
            Check::ChildVersionFloor => "child-version-floor",
            Check::Storage(value) => value.id(),
            Check::Entry(value) => value.id(),
            Check::Account(value) => value.id(),
        }
    }

    /// Returns the owning scope.
    pub fn scope(self) -> (r: Scope)
        ensures
            r == scope_of(self),
    {
        match self {
            Check::Storage(_) | Check::Entry(_) | Check::Account(_) => Scope::Session,
            _ => Scope::Host,
        }
    }

    /// Returns the published severity.
    pub fn severity(self) -> (r: Severity)
        ensures
            r == severity_of(self),
    {
        match self {
            Check::RuntimeDirPresent | Check::ChildVersionFloor | Check::Account(_) => Severity::Soft,
            _ => Severity::Hard,
        }
    }

    /// Returns the published error kind.
    pub fn kind(self) -> (r: ErrorKind)
        ensures
            r == check_kind(self),
    {
        match self {
            Check::BaseDirsResolve | Check::RuntimeDirPresent | Check::ChildVersionFloor => ErrorKind::Unavailable,
            Check::WrapperConfigParses => ErrorKind::Config,
            Check::ChildBinaryResolves => ErrorKind::ChildNotFound,
            Check::ChildIsExecutable => ErrorKind::ChildNotExecutable,
            Check::Storage(value) => value.kind(),
            Check::Entry(value) => value.kind(),
            Check::Account(value) => value.kind(),
        }
    }

    /// Returns the remediation template, if this check owns one.
    pub fn remediation(self) -> (r: Option<&'static str>)
        ensures
            match remediation_of(self) {
                Some(t) => r matches Some(s) && s@ == t,
                None => r is None,
            },
    {
        match self {
            Check::BaseDirsResolve => Some("`XDG_CONFIG_HOME` and `XDG_STATE_HOME` must be absolute paths, or unset so the defaults apply. Run `session-wrapper doctor` to see what each resolved to."),
            Check::RuntimeDirPresent => None,
            Check::WrapperConfigParses => Some("`{key}` in `{path}` is not a configuration key. Remove it, or correct it to one of the keys [configuration](./configuration.md#keys) lists."),
            Check::ChildBinaryResolves => Some("No `agent` was found. Install it, put it on `PATH`, or set `child_bin` to its absolute path — [process runtime](./process-runtime.md#child-resolution) gives the order the two rungs are tried in."),
            Check::ChildIsExecutable => Some("{path} exists but the current user cannot execute it. Grant execute permission, or point `child_bin` at a different binary."),
            Check::ChildVersionFloor => Some("The resolved `agent` reports {version}, below the {minimum} this wrapper is designed against. Upgrade it before using a saved-login account; token mode still works below the floor."),
            Check::Storage(value) => Some(value.remediation()),
            Check::Entry(value) => Some(value.remediation()),
            Check::Account(value) => Some(value.remediation()),
        }
    }

    /// Substitutes named values into this check's owned remediation, in order.
    pub fn hint(self, values: &Vec<(&str, &str)>) -> (r: Option<String>)
        ensures
            match remediation_of(self) {
                Some(t) => r matches Some(s) && s@ == substitute(t, pairs_view(values@)),
                None => r is None,
            },
    {
        let template = match self.remediation() {
            Some(t) => t,
            None => {
                return None;
            },
        };
        let mut text = owned(template);
        let mut i: usize = 0;
        proof {
            assert(pairs_view(values@).subrange(0, 0) =~= Seq::<(Seq<char>, Seq<char>)>::empty());
        }
        while i < values.len()
            invariant
                i <= values@.len(),
                remediation_of(self) == Some(template@),
                text@ == substitute(template@, pairs_view(values@).subrange(0, i as int)),
            decreases values.len() - i,
        {
            let (name, value) = values[i];
            let mut pattern = String::new();
            push_char(&mut pattern, '{');
            push_str(&mut pattern, name);
            push_char(&mut pattern, '}');
            text = replace_all(text.as_str(), pattern.as_str(), value);
            proof {
                let next = pairs_view(values@).subrange(0, i + 1);
                assert(next.drop_last() =~= pairs_view(values@).subrange(0, i as int));
                assert(next.last() == (name@, value@));
                assert(pattern@ =~= seq!['{'] + name@ + seq!['}']);
            }
            i = i + 1;
        }
        proof {
            assert(pairs_view(values@).subrange(0, values@.len() as int) =~= pairs_view(values@));
        }
        Some(text)
    }
}

/// The outcome of one public check.
#[derive(Clone, Copy, Debug, PartialEq, Eq, Structural)]
pub enum CheckStatus {
    Pass,
    Warn,
    Fail,
    Skipped,
}

impl CheckStatus {
    /// Returns the word a report uses for this status.
    pub fn as_str(self) -> (r: &'static str)
        ensures
            r@ == (match self {
                CheckStatus::Pass => "pass"@,
                CheckStatus::Warn => "warn"@,
                CheckStatus::Fail => "fail"@,
                CheckStatus::Skipped => "skipped"@,
            }),
    {
        match self {
            CheckStatus::Pass => "pass",
            CheckStatus::Warn => "warn",
            CheckStatus::Fail => "fail",
            CheckStatus::Skipped => "skipped",
        }
    }
}

/// One rendered catalog observation.
#[derive(Clone, Debug)]
pub struct CheckResult {
    pub check: Check,
    pub status: CheckStatus,
    pub message: String,
    pub hint: Option<String>,
    pub reason: Option<String>,
}

/// The status an unhealthy observation of a check takes: a failure for a hard
/// check, a warning for a soft one.
pub open spec fn defect_status(c: Check) -> CheckStatus {
    if severity_of(c) == Severity::Hard {
        CheckStatus::Fail
    } else {
        CheckStatus::Warn
    }
}

impl CheckResult {
    /// Builds a healthy observation.
    pub fn pass(check: Check, message: String) -> (r: CheckResult)
        ensures
            r.check == check,
            r.status == CheckStatus::Pass,
            r.message@ == message@,
            r.hint is None,
            r.reason is None,
    {
        CheckResult { check, status: CheckStatus::Pass, message, hint: None, reason: None }
    }

    /// Builds an unhealthy observation using the check's severity; an empty
    /// hint is an absent one rather than a blank line under the row.
    pub fn defect(check: Check, message: String, hint: String) -> (r: CheckResult)
        ensures
            r.check == check,
            r.status == defect_status(check),
            r.message@ == message@,
            hint@.len() == 0 ==> r.hint is None,
            hint@.len() > 0 ==> (r.hint matches Some(h) && h@ == hint@),
            r.reason is None,
    {
        let status = match check.severity() {
            Severity::Hard => CheckStatus::Fail,
            Severity::Soft => CheckStatus::Warn,
        };
        let empty = crate::text::chars_of(hint.as_str()).len() == 0;
        CheckResult { check, status, message, hint: if empty { None } else { Some(hint) }, reason: None }
    }

    /// Builds a prerequisite or inapplicability skip.
    pub fn skipped(check: Check, reason: String) -> (r: CheckResult)
        ensures
            r.check == check,
            r.status == CheckStatus::Skipped,
            r.message@ == "not checked"@,
            r.hint is None,
            r.reason matches Some(s) && s@ == reason@,
    {
        CheckResult { check, status: CheckStatus::Skipped, message: owned("not checked"), hint: None, reason: Some(reason) }
    }

    /// Returns a kind only for unhealthy results.
    pub fn kind(&self) -> (r: Option<ErrorKind>)
        ensures
            r == (if self.status == CheckStatus::Warn || self.status == CheckStatus::Fail {
                Some(check_kind(self.check))
            } else {
                None
            }),
    {
        match self.status {
            CheckStatus::Warn | CheckStatus::Fail => Some(self.check.kind()),
            _ => None,
        }
    }
}

/// How many results carry a status.
pub open spec fn count_status(rs: Seq<CheckResult>, s: CheckStatus) -> nat
    decreases rs.len(),
{
    if rs.len() == 0 {
        0
    } else {
        count_status(rs.drop_last(), s) + if rs.last().status == s { 1nat } else { 0nat }
    }
}

/// The exit code of the first failure, in input order, or zero when none failed.
pub open spec fn first_failure_exit(rs: Seq<CheckResult>) -> u8
    decreases rs.len(),
{
    if rs.len() == 0 {
        0
    } else if first_failure_exit(rs.drop_last()) != 0 {
        first_failure_exit(rs.drop_last())
    } else if rs.last().status == CheckStatus::Fail {
        exit_code_of(check_kind(rs.last().check))
    } else {
        0
    }
}

/// Deterministic public result counts and the wrapper level's own status.
#[derive(Clone, Copy, Debug, PartialEq, Eq, Structural)]
pub struct Summary {
    pub total: usize,
    pub passed: usize,
    pub warned: usize,
    pub failed: usize,
    pub skipped: usize,
    pub hard_failures: usize,
    pub exit: u8,
}

/// The status word a summary's counts give.
pub open spec fn summary_status(s: Summary) -> CheckStatus {
    if s.hard_failures > 0 {
        CheckStatus::Fail
    } else if s.warned > 0 {
        CheckStatus::Warn
    } else {
        CheckStatus::Pass
    }
}

proof fn lemma_counts_bounded(rs: Seq<CheckResult>)
    ensures
        count_status(rs, CheckStatus::Pass) + count_status(rs, CheckStatus::Warn)
            + count_status(rs, CheckStatus::Fail) + count_status(rs, CheckStatus::Skipped) == rs.len(),
    decreases rs.len(),
{
    if rs.len() > 0 {
        lemma_counts_bounded(rs.drop_last());
    }
}

impl Summary {
    /// Folds catalog results in input order into the wrapper level alone.
    ///
    /// `--strict` is not applied here: promotion is a verdict-level policy
    /// over both levels.
    pub fn fold(results: &Vec<CheckResult>) -> (r: Summary)
        ensures
            r.total == results@.len(),
            r.passed == count_status(results@, CheckStatus::Pass),
            r.warned == count_status(results@, CheckStatus::Warn),
            r.failed == count_status(results@, CheckStatus::Fail),
            r.skipped == count_status(results@, CheckStatus::Skipped),
            r.hard_failures == count_status(results@, CheckStatus::Fail),
            r.exit == first_failure_exit(results@),
    {
        let mut value = Summary {
            total: results.len(),
            passed: 0,
            warned: 0,
            failed: 0,
            skipped: 0,
            hard_failures: 0,
            exit: 0,
        };
        let mut i: usize = 0;
        proof {
            assert(results@.subrange(0, 0) =~= Seq::<CheckResult>::empty());
        }
        while i < results.len()
            invariant
                i <= results@.len(),
                value.total == results@.len(),
                value.passed == count_status(results@.subrange(0, i as int), CheckStatus::Pass),
                value.warned == count_status(results@.subrange(0, i as int), CheckStatus::Warn),
                value.failed == count_status(results@.subrange(0, i as int), CheckStatus::Fail),
                value.skipped == count_status(results@.subrange(0, i as int), CheckStatus::Skipped),
                value.hard_failures == count_status(results@.subrange(0, i as int), CheckStatus::Fail),
                value.exit == first_failure_exit(results@.subrange(0, i as int)),
            decreases results.len() - i,
        {
            let ghost prefix = results@.subrange(0, i + 1);
            proof {
                assert(prefix.drop_last() =~= results@.subrange(0, i as int));
                lemma_counts_bounded(results@.subrange(0, i as int));
            }
            match results[i].status {
                CheckStatus::Pass => {
                    value.passed = value.passed + 1;
                },
                CheckStatus::Warn => {
                    value.warned = value.warned + 1;
                },
                CheckStatus::Fail => {
                    value.failed = value.failed + 1;
                    value.hard_failures = value.hard_failures + 1;
                    if value.exit == 0 {
                        value.exit = results[i].check.kind().exit_code();
                    }
                },
                CheckStatus::Skipped => {
                    value.skipped = value.skipped + 1;
                },
            }
            i = i + 1;
        }
        proof {
            assert(results@.subrange(0, results@.len() as int) =~= results@);
        }
        value
    }

    /// Returns this level's own status word.
    pub fn status(&self) -> (r: CheckStatus)
        ensures
            r == summary_status(*self),
    {
        if self.hard_failures > 0 {
            CheckStatus::Fail
        } else if self.warned > 0 {
            CheckStatus::Warn
        } else {
            CheckStatus::Pass
        }
    }
}

/// How the child's own report ended; a failed child report is a failure here
/// too, never a warning.
#[derive(Clone, Copy, Debug, PartialEq, Eq, Structural)]
pub enum ChildStatus {
    Pass,
    Fail,
    Skipped,
}

impl ChildStatus {
    /// Returns the word a report uses for this status.
    pub fn as_str(self) -> (r: &'static str)
        ensures
            r@ == (match self {
                ChildStatus::Pass => "pass"@,
                ChildStatus::Fail => "fail"@,
                ChildStatus::Skipped => "skipped"@,
            }),
    {
        match self {
            ChildStatus::Pass => "pass",
            ChildStatus::Fail => "fail",
            ChildStatus::Skipped => "skipped",
        }
    }
}

/// The child's own report, the second level of a composed run.
#[derive(Clone, Debug)]
pub struct ChildReport {
    pub status: ChildStatus,
    pub output: Option<Vec<u8>>,
    pub exit: Option<u8>,
    pub reason: Option<String>,
}

impl ChildReport {
    /// Builds the report of a child that never ran.
    pub fn skipped(reason: String) -> (r: ChildReport)
        ensures
            r.status == ChildStatus::Skipped,
            r.output is None,
            r.exit is None,
            r.reason matches Some(s) && s@ == reason@,
    {
        ChildReport { status: ChildStatus::Skipped, output: None, exit: None, reason: Some(reason) }
    }
}

/// The composed status and exit over the wrapper and child levels.
#[derive(Clone, Copy, Debug, PartialEq, Eq, Structural)]
pub struct Verdict {
    pub status: CheckStatus,
    pub exit: u8,
}

/// The status of a composed run.
pub open spec fn verdict_status(summary: Summary, child: ChildStatus) -> CheckStatus {
    if summary.hard_failures > 0 || child == ChildStatus::Fail {
        CheckStatus::Fail
    } else if summary.warned > 0 {
        CheckStatus::Warn
    } else {
        CheckStatus::Pass
    }
}

/// The exit code of a composed run: the wrapper's own failure wins, then a
/// failed child report exits unavailable, then strict promotes a warning to one.
pub open spec fn verdict_exit(summary: Summary, child: ChildStatus, strict: bool) -> u8 {
    if summary.exit != 0 {
        summary.exit
    } else if child == ChildStatus::Fail {
        exit_code_of(ErrorKind::Unavailable)
    } else if strict && summary.warned > 0 {
        1
    } else {
        0
    }
}

impl Verdict {
    /// Folds both levels into the one status the process reports.
    pub fn fold(summary: Summary, child: &ChildReport, strict: bool) -> (r: Verdict)
        ensures
            r.status == verdict_status(summary, child.status),
            r.exit == verdict_exit(summary, child.status, strict),
    {
        let child_failed = match child.status {
            ChildStatus::Fail => true,
            _ => false,
        };
        let status = if summary.hard_failures > 0 || child_failed {
            CheckStatus::Fail
        } else if summary.warned > 0 {
            CheckStatus::Warn
        } else {
            CheckStatus::Pass
        };
        let exit = if summary.exit != 0 {
            summary.exit
        } else if child_failed {
            ErrorKind::Unavailable.exit_code()
        } else if strict && summary.warned > 0 {
            1
        } else {
            0
        };
        Verdict { status, exit }
    }
}

/// The hint of a storage failure: the template with each placeholder replaced.
pub open spec fn storage_hint(c: StorageCheck, path: Seq<char>, expected: Seq<char>, actual: Seq<char>, mode: Seq<char>) -> Seq<char> {
    replace_all_spec(
        replace_all_spec(
            replace_all_spec(replace_all_spec(storage_remediation(c), "{path}"@, path), "{expected_type}"@, expected),
            "{actual_type}"@,
            actual,
        ),
        "{expected_mode}"@,
        mode,
    )
}

/// A mode as four octal digits, or nothing when there is none.
pub open spec fn mode_text(mode: Option<u32>) -> Seq<char> {
    match mode {
        Some(m) => zero_padded(crate::text::octal(m as nat), 4),
        None => Seq::empty(),
    }
}

impl StorageCheck {
    /// Renders this check's failure as the four-part diagnostic; the hint is
    /// the template with its placeholders substituted and nothing else changed.
    pub fn diagnostic(self, path: &str, expected: &str, actual: &str, mode: Option<u32>) -> (r: Diagnostic)
        ensures
            r.what@ == "wrapper-managed storage refused a path"@,
            r.where_@ == path@,
            r.why@ == storage_id(self) + " failed"@,
            r.hint@ == storage_hint(self, path@, expected@, actual@, mode_text(mode)),
            r.child_exit is None,
    {
        let expected_mode = match mode {
            Some(m) => crate::text::padded_octal(m as u64, 4),
            None => String::new(),
        };
        let a = replace_all(self.remediation(), "{path}", path);
        let b = replace_all(a.as_str(), "{expected_type}", expected);
        let c = replace_all(b.as_str(), "{actual_type}", actual);
        let hint = replace_all(c.as_str(), "{expected_mode}", expected_mode.as_str());
        let mut why = owned(self.id());
        push_str(&mut why, " failed");
        Diagnostic::new(owned("wrapper-managed storage refused a path"), owned(path), why, hint)
    }
}

impl EntryCheck {
    /// Renders this check's failure as the four-part diagnostic.
    pub fn diagnostic(self, path: &str, profile: &str, why: &str) -> (r: Diagnostic)
        ensures
            r.what@ == "the composed settings entry could not be used"@,
            r.where_@ == path@,
            r.why@ == entry_id(self) + ": "@ + why@,
            r.hint@ == replace_all_spec(replace_all_spec(entry_remediation(self), "{path}"@, path@), "{profile}"@, profile@),
            r.child_exit is None,
    {
        let a = replace_all(self.remediation(), "{path}", path);
        let hint = replace_all(a.as_str(), "{profile}", profile);
        let mut reason = owned(self.id());
        push_str(&mut reason, ": ");
        push_str(&mut reason, why);
        Diagnostic::new(owned("the composed settings entry could not be used"), owned(path), reason, hint)
    }
}

/// A run whose catalog has a failure exits with the code of its first failure,
/// in catalog order, and a run with none exits zero from the wrapper level.
pub proof fn law_first_failure_decides_the_exit(rs: Seq<CheckResult>)
    ensures
        count_status(rs, CheckStatus::Fail) == 0 <==> first_failure_exit(rs) == 0,
        forall|i: int| 0 <= i < rs.len() && rs[i].status == CheckStatus::Fail
            && (forall|j: int| 0 <= j < i ==> rs[j].status != CheckStatus::Fail)
            ==> first_failure_exit(rs) == exit_code_of(check_kind(rs[i].check)),
    decreases rs.len(),
{
    if rs.len() > 0 {
        let init = rs.drop_last();
        law_first_failure_decides_the_exit(init);
        crate::error::lemma_exit_codes_are_failures(check_kind(rs.last().check));
        assert forall|i: int| 0 <= i < rs.len() && rs[i].status == CheckStatus::Fail
            && (forall|j: int| 0 <= j < i ==> rs[j].status != CheckStatus::Fail)
            implies first_failure_exit(rs) == exit_code_of(check_kind(rs[i].check)) by {
            if i < rs.len() - 1 {
                assert(init[i] == rs[i]);
                assert(forall|j: int| 0 <= j < i ==> init[j] == rs[j]);
            } else {
                if count_status(init, CheckStatus::Fail) > 0 {
                    lemma_some_failure(init);
                }
            }
        }
    }
}

proof fn lemma_some_failure(rs: Seq<CheckResult>)
    requires
        count_status(rs, CheckStatus::Fail) > 0,
    ensures
        exists|j: int| 0 <= j < rs.len() && rs[j].status == CheckStatus::Fail,
    decreases rs.len(),
{
    if rs.last().status != CheckStatus::Fail {
        lemma_some_failure(rs.drop_last());
        let j = choose|j: int| 0 <= j < rs.drop_last().len() && rs.drop_last()[j].status == CheckStatus::Fail;
        assert(rs[j] == rs.drop_last()[j]);
    } else {
        assert(rs[rs.len() - 1].status == CheckStatus::Fail);
    }
}

/// A failed child report always fails the composed run, and never exits zero.
pub proof fn law_a_failed_child_fails_the_run(summary: Summary, strict: bool)
    ensures
        verdict_status(summary, ChildStatus::Fail) == CheckStatus::Fail,
        verdict_exit(summary, ChildStatus::Fail, strict) != 0,
{
}

/// `--strict` only promotes a wrapper warning: it changes the exit code only
/// when the run has no failure of either level and the wrapper warned, and
/// never changes the status.
pub proof fn law_strict_only_promotes_warnings(summary: Summary, child: ChildStatus)
    ensures
        verdict_exit(summary, child, true) != verdict_exit(summary, child, false) <==> (summary.exit == 0
            && child != ChildStatus::Fail && summary.warned > 0),
{
}

} // verus!
