//! The decisions of the account verbs and of a launch's binding gate: which
//! account and profile a login binds, what a native login's outcome means,
//! and how each refusal reads. Running the child and touching the account's
//! files are the caller's.

use vstd::prelude::*;

use crate::encoding::{bytes_are, lossy_spec, lossy_text, utf8, utf8_bytes};
use crate::error::{diagnostic_of, kind_of, owned, AppError, Diagnostic, ErrorKind};
use crate::child::{ChildInvocation, ChildOutcome};
use crate::identifier::Identifier;
use crate::resolve::Source;
use crate::text::{chars_of, decimal, push_char, push_decimal, push_str, string_of};

verus! {

/// Whether an error has this kind and these four parts and no child status.
pub open spec fn error_is(e: AppError, kind: ErrorKind, what: Seq<char>, where_: Seq<char>, why: Seq<char>, hint: Seq<char>) -> bool {
    kind_of(e) == kind && diagnostic_of(e).what@ == what && diagnostic_of(e).where_@ == where_
        && diagnostic_of(e).why@ == why && diagnostic_of(e).hint@ == hint && diagnostic_of(e).child_exit is None
}

fn error(kind: ErrorKind, what: &str, where_: &str, why: String, hint: String) -> (r: AppError)
    ensures
        error_is(r, kind, what@, where_@, why@, hint@),
{
    AppError::new(kind, Diagnostic::new(owned(what), owned(where_), why, hint))
}

/// The account a login is for: the one named, else the selected one.
pub fn login_account(name: Option<Identifier>, selected: Option<&Identifier>) -> (r: Result<Identifier, AppError>)
    ensures
        match name {
            Some(n) => r matches Ok(a) && a@ == n@,
            None => match selected {
                Some(s) => r matches Ok(a) && a@ == s@,
                None => r matches Err(e) && error_is(
                    e,
                    ErrorKind::Usage,
                    "account login needs an account"@,
                    "account login"@,
                    "no name or selected account was available"@,
                    "pass an account name or select one with --account"@,
                ),
            },
        },
{
    match name {
        Some(n) => Ok(n),
        None => match selected {
            Some(s) => Ok(s.duplicate()),
            None => Err(error(
                ErrorKind::Usage,
                "account login needs an account",
                "account login",
                owned("no name or selected account was available"),
                owned("pass an account name or select one with --account"),
            )),
        },
    }
}

/// Where the profile a login binds came from.
#[derive(Clone, Copy, Debug, PartialEq, Eq, Structural)]
pub enum BindingSource {
    /// The login's own `--profile`.
    Cli,
    /// The account's existing binding.
    Account,
    /// The resolved configuration, from the layer that supplied it.
    Configured(Source),
}

/// The profile a login binds: the one requested, else the account's own
/// binding, else the configured default; refused rather than guessed when
/// there is none.
pub fn login_profile(requested: Option<Identifier>, binding: Option<Identifier>, configured: Option<(Identifier, Source)>) -> (r: Result<(Identifier, BindingSource), AppError>)
    ensures
        match (requested, binding, configured) {
            (Some(p), _, _) => r matches Ok((q, s)) && q@ == p@ && s == BindingSource::Cli,
            (None, Some(p), _) => r matches Ok((q, s)) && q@ == p@ && s == BindingSource::Account,
            (None, None, Some((p, src))) => r matches Ok((q, s)) && q@ == p@ && s == BindingSource::Configured(src),
            (None, None, None) => r matches Err(e) && error_is(
                e,
                ErrorKind::Config,
                "account login needs a profile"@,
                "account login"@,
                "no profile was given, this account has no binding, and no default_profile is configured"@,
                "pass --profile <name>, or set default_profile in your configuration file"@,
            ),
        },
{
    if let Some(p) = requested {
        return Ok((p, BindingSource::Cli));
    }
    if let Some(p) = binding {
        return Ok((p, BindingSource::Account));
    }
    match configured {
        Some((p, source)) => Ok((p, BindingSource::Configured(source))),
        None => Err(error(
            ErrorKind::Config,
            "account login needs a profile",
            "account login",
            owned("no profile was given, this account has no binding, and no default_profile is configured"),
            owned("pass --profile <name>, or set default_profile in your configuration file"),
        )),
    }
}

/// A native login runs only with a controlling terminal to run it in.
pub fn native_terminal(available: Result<bool, String>) -> (r: Result<(), AppError>)
    ensures
        match available {
            Ok(true) => r is Ok,
            Ok(false) => r matches Err(e) && error_is(
                e,
                ErrorKind::Unavailable,
                "native login needs a controlling terminal"@,
                "/dev/tty"@,
                "no controlling terminal is available"@,
                "run account login from an interactive terminal"@,
            ),
            Err(why) => r matches Err(e) && error_is(
                e,
                ErrorKind::Unavailable,
                "native login needs a controlling terminal"@,
                "/dev/tty"@,
                why@,
                "run account login from an interactive terminal"@,
            ),
        },
{
    match available {
        Ok(true) => Ok(()),
        Ok(false) => Err(error(
            ErrorKind::Unavailable,
            "native login needs a controlling terminal",
            "/dev/tty",
            owned("no controlling terminal is available"),
            owned("run account login from an interactive terminal"),
        )),
        Err(why) => Err(error(
            ErrorKind::Unavailable,
            "native login needs a controlling terminal",
            "/dev/tty",
            why,
            owned("run account login from an interactive terminal"),
        )),
    }
}

/// The variable that points the child at its configuration directory.
pub open spec fn config_dir_variable() -> Seq<u8> {
    utf8("AGENT_CONFIG_DIR"@)
}

/// The environment a native login runs the child with: every entry but the
/// child's configuration directory, then that directory pointed at the
/// account's own.
pub open spec fn login_environment_spec(env: Seq<(Seq<u8>, Seq<u8>)>, dir: Seq<u8>) -> Seq<(Seq<u8>, Seq<u8>)> {
    env.filter(|e: (Seq<u8>, Seq<u8>)| e.0 != config_dir_variable()).push((config_dir_variable(), dir))
}

/// The environment entries as byte sequences.
pub open spec fn env_views(env: Seq<(Vec<u8>, Vec<u8>)>) -> Seq<(Seq<u8>, Seq<u8>)> {
    env.map_values(|e: (Vec<u8>, Vec<u8>)| (e.0@, e.1@))
}

/// The arguments a native login runs the child with.
pub open spec fn login_arguments() -> Seq<Seq<u8>> {
    seq![utf8("auth"@), utf8("login"@)]
}

/// The one child call a native login makes: the program with `auth login`,
/// in the login environment pointed at the account's configuration
/// directory.
pub fn native_login_invocation(program: Vec<u8>, environment: Vec<(Vec<u8>, Vec<u8>)>, config_dir: Vec<u8>) -> (r: ChildInvocation)
    ensures
        r.program@ == program@,
        r.arguments@.len() == 2,
        r.arguments@[0]@ == login_arguments()[0],
        r.arguments@[1]@ == login_arguments()[1],
        env_views(r.environment@) == login_environment_spec(env_views(environment@), config_dir@),
{
    let mut arguments: Vec<Vec<u8>> = Vec::new();
    arguments.push(utf8_bytes("auth"));
    arguments.push(utf8_bytes("login"));
    let environment = login_environment(environment, config_dir);
    ChildInvocation::new(program, arguments, environment)
}

/// Builds the native login's environment.
pub fn login_environment(environment: Vec<(Vec<u8>, Vec<u8>)>, config_dir: Vec<u8>) -> (r: Vec<(Vec<u8>, Vec<u8>)>)
    ensures
        env_views(r@) == login_environment_spec(env_views(environment@), config_dir@),
{
    let ghost whole = env_views(environment@);
    let ghost pred = |e: (Seq<u8>, Seq<u8>)| e.0 != config_dir_variable();
    let mut rest = environment;
    let mut out: Vec<(Vec<u8>, Vec<u8>)> = Vec::new();
    let total = rest.len();
    let mut i: usize = 0;
    proof {
        assert(whole.take(0).filter(pred) =~= Seq::<(Seq<u8>, Seq<u8>)>::empty()) by {
            reveal(Seq::filter);
        }
        assert(env_views(out@) =~= Seq::<(Seq<u8>, Seq<u8>)>::empty());
    }
    while i < total
        invariant
            i <= total,
            total == whole.len(),
            rest@.len() == total - i,
            env_views(rest@) == whole.skip(i as int),
            pred == (|e: (Seq<u8>, Seq<u8>)| e.0 != config_dir_variable()),
            env_views(out@) == whole.take(i as int).filter(pred),
        decreases total - i,
    {
        let ghost entry = whole[i as int];
        proof {
            assert(env_views(rest@)[0] == whole.skip(i as int)[0]);
        }
        let ghost prev = rest@;
        let (key, value) = rest.remove(0);
        proof {
            assert(rest@ =~= prev.subrange(1, prev.len() as int));
            assert forall|k: int| 0 <= k < rest@.len() implies #[trigger] env_views(rest@)[k] == whole.skip(i + 1)[k] by {
                assert(env_views(prev)[k + 1] == whole.skip(i as int)[k + 1]);
            }
            assert(env_views(rest@) =~= whole.skip(i + 1));
            assert((key@, value@) == entry);
        }
        let keep = !bytes_are(&key, "AGENT_CONFIG_DIR");
        if keep {
            out.push((key, value));
        }
        proof {
            let t = whole.take(i + 1);
            assert(t.drop_last() =~= whole.take(i as int));
            assert(t.last() == entry);
            reveal(Seq::filter);
            assert(env_views(out@) =~= t.filter(pred));
        }
        i = i + 1;
    }
    let name = utf8_bytes("AGENT_CONFIG_DIR");
    let ghost before = env_views(out@);
    out.push((name, config_dir));
    proof {
        assert(whole.take(total as int) =~= whole);
        assert(env_views(out@) =~= before.push((config_dir_variable(), config_dir@)));
    }
    out
}

/// The debug spelling of a child's outcome.
pub open spec fn outcome_text(o: ChildOutcome) -> Seq<char> {
    match o {
        ChildOutcome::Exited(code) => "Exited("@ + decimal(code as nat) + ")"@,
        ChildOutcome::Signaled(signal) => "Signaled("@ + crate::doctor::signed_text(signal as int) + ")"@,
    }
}

fn push_outcome(out: &mut String, o: ChildOutcome)
    ensures
        final(out)@ == old(out)@ + outcome_text(o),
{
    match o {
        ChildOutcome::Exited(code) => {
            push_str(out, "Exited(");
            push_decimal(out, code as u64);
            push_str(out, ")");
        },
        ChildOutcome::Signaled(signal) => {
            push_str(out, "Signaled(");
            if signal < 0 {
                push_char(out, '-');
                let magnitude: i64 = -(signal as i64);
                push_decimal(out, magnitude as u64);
            } else {
                push_decimal(out, signal as u64);
            }
            push_str(out, ")");
        },
    }
    proof {
        assert(final(out)@ =~= old(out)@ + outcome_text(o));
    }
}

/// What a native login's run means: a clean exit that left a saved login the
/// wrapper can commit proceeds; any other outcome of a run that did happen is
/// an authentication failure carrying the child's status; and a failure to
/// run, or a storage defect found afterwards, is that error itself.
pub fn native_verdict(outcome: Result<ChildOutcome, AppError>, committable: Result<bool, AppError>) -> (r: Result<(), AppError>)
    ensures
        match (outcome, committable) {
            (_, Err(e)) => r == Err::<(), AppError>(e),
            (Err(e), Ok(_)) => r == Err::<(), AppError>(e),
            (Ok(ChildOutcome::Exited(0)), Ok(true)) => r is Ok,
            (Ok(o), Ok(_)) => r matches Err(e) && kind_of(e) == ErrorKind::Auth
                && diagnostic_of(e).what@ == "native child login failed"@
                && diagnostic_of(e).where_@ == "agent auth login"@
                && diagnostic_of(e).why@ == (if o == ChildOutcome::Exited(0) {
                    "the child exited successfully but did not leave a safe saved-login path"@
                } else {
                    "agent auth login returned "@ + outcome_text(o)
                })
                && diagnostic_of(e).hint@ == "retry session-wrapper-rs account login from an interactive terminal"@
                && diagnostic_of(e).child_exit == (match o {
                    ChildOutcome::Exited(code) => Some(code),
                    ChildOutcome::Signaled(_) => None::<u8>,
                }),
        },
{
    match committable {
        Err(e) => Err(e),
        Ok(ready) => match outcome {
            Err(e) => Err(e),
            Ok(o) => {
                let clean = match o {
                    ChildOutcome::Exited(0) => true,
                    _ => false,
                };
                if clean && ready {
                    return Ok(());
                }
                let why = if clean {
                    owned("the child exited successfully but did not leave a safe saved-login path")
                } else {
                    let mut text = owned("agent auth login returned ");
                    push_outcome(&mut text, o);
                    text
                };
                let child_exit = match o {
                    ChildOutcome::Exited(code) => Some(code),
                    ChildOutcome::Signaled(_) => None,
                };
                let diagnostic = Diagnostic {
                    what: owned("native child login failed"),
                    where_: owned("agent auth login"),
                    why,
                    hint: owned("retry session-wrapper-rs account login from an interactive terminal"),
                    child_exit,
                };
                Err(AppError::new(ErrorKind::Auth, diagnostic))
            },
        },
    }
}

/// A text without the dots it ends with.
pub open spec fn without_trailing_dots(t: Seq<char>) -> Seq<char>
    decreases t.len(),
{
    if t.len() > 0 && t.last() == '.' {
        without_trailing_dots(t.drop_last())
    } else {
        t
    }
}

fn strip_trailing_dots(text: &str) -> (r: String)
    ensures
        r@ == without_trailing_dots(text@),
{
    let t = chars_of(text);
    let mut n = t.len();
    proof {
        assert(t@.take(n as int) =~= t@);
    }
    while n > 0 && t[n - 1] == '.'
        invariant
            n <= t@.len(),
            without_trailing_dots(t@) == without_trailing_dots(t@.take(n as int)),
        decreases n,
    {
        proof {
            assert(t@.take(n as int).drop_last() =~= t@.take(n - 1));
        }
        n = n - 1;
    }
    let mut kept: Vec<char> = Vec::new();
    let mut i: usize = 0;
    while i < n
        invariant
            i <= n <= t@.len(),
            kept@ == t@.take(i as int),
        decreases n - i,
    {
        kept.push(t[i]);
        proof {
            assert(t@.take(i + 1) =~= t@.take(i as int).push(t@[i as int]));
        }
        i = i + 1;
    }
    string_of(&kept)
}

/// The refusal of a login whose credential committed but whose profile
/// binding could not be written: it says what survived and names the verb
/// that finishes the job, rather than undoing a credential the user proved.
pub fn binding_failure(failure: &AppError, account: &Identifier, profile: &Identifier) -> (r: AppError)
    ensures
        kind_of(r) == kind_of(*failure),
        diagnostic_of(r).what@ == "account authenticated but its profile was not recorded"@,
        diagnostic_of(r).where_@ == diagnostic_of(*failure).where_@,
        diagnostic_of(r).why@ == without_trailing_dots(diagnostic_of(*failure).why@) + ". The credential for \""@
            + account@ + "\" is stored and usable, so this login is not being undone; only the profile binding is missing"@,
        diagnostic_of(r).hint@ == "run session-wrapper-rs account bind "@ + account@ + " --profile "@ + profile@,
        diagnostic_of(r).child_exit == diagnostic_of(*failure).child_exit,
{
    let original = failure.diagnostic();
    let mut why = strip_trailing_dots(original.why.as_str());
    push_str(&mut why, ". The credential for \"");
    push_str(&mut why, account.as_str());
    push_str(&mut why, "\" is stored and usable, so this login is not being undone; only the profile binding is missing");
    let mut hint = owned("run session-wrapper-rs account bind ");
    push_str(&mut hint, account.as_str());
    push_str(&mut hint, " --profile ");
    push_str(&mut hint, profile.as_str());
    let diagnostic = Diagnostic {
        what: owned("account authenticated but its profile was not recorded"),
        where_: original.where_.clone(),
        why,
        hint,
        child_exit: original.child_exit,
    };
    AppError::new(failure.kind(), diagnostic)
}

/// The refusal of a failed first login whose cleanup failed too: the
/// cleanup's own error, with the login's reason folded into its why.
pub fn cleanup_failure(cleanup: &AppError, login: Option<&AppError>) -> (r: AppError)
    ensures
        kind_of(r) == kind_of(*cleanup),
        diagnostic_of(r).what@ == diagnostic_of(*cleanup).what@,
        diagnostic_of(r).where_@ == diagnostic_of(*cleanup).where_@,
        diagnostic_of(r).hint@ == diagnostic_of(*cleanup).hint@,
        diagnostic_of(r).child_exit == diagnostic_of(*cleanup).child_exit,
        diagnostic_of(r).why@ == diagnostic_of(*cleanup).why@ + match login {
            Some(l) => " after "@ + diagnostic_of(*l).why@,
            None => Seq::<char>::empty(),
        },
{
    let original = cleanup.diagnostic();
    let mut why = original.why.clone();
    if let Some(l) = login {
        push_str(&mut why, " after ");
        push_str(&mut why, l.diagnostic().why.as_str());
    } else {
        proof {
            assert(why@ =~= original.why@ + Seq::<char>::empty());
        }
    }
    let diagnostic = Diagnostic {
        what: original.what.clone(),
        where_: original.where_.clone(),
        why,
        hint: original.hint.clone(),
        child_exit: original.child_exit,
    };
    AppError::new(cleanup.kind(), diagnostic)
}

/// The one confirmation question of a removal, with what it costs stated
/// before it is answered.
pub fn removal_prompt(account: &Identifier) -> (r: String)
    ensures
        r@ == "This deletes everything this wrapper stored for \""@ + account@
            + "\", and revokes nothing at the provider.\nRemove it? [y/N] "@,
{
    let mut prompt = owned("This deletes everything this wrapper stored for \"");
    push_str(&mut prompt, account.as_str());
    push_str(&mut prompt, "\", and revokes nothing at the provider.\nRemove it? [y/N] ");
    prompt
}

/// A removal confirmed on no terminal cannot be confirmed at all.
pub fn confirmation_unavailable(why: String) -> (r: AppError)
    ensures
        error_is(
            r,
            ErrorKind::Unavailable,
            "account remove needs a controlling terminal to confirm"@,
            "/dev/tty"@,
            why@,
            "pass --yes to remove without confirming"@,
        ),
{
    error(
        ErrorKind::Unavailable,
        "account remove needs a controlling terminal to confirm",
        "/dev/tty",
        why,
        owned("pass --yes to remove without confirming"),
    )
}

/// The half of a launch's binding that did not resolve.
pub open spec fn binding_gap(account: Option<Seq<char>>, profile: Option<Seq<char>>) -> Option<(Seq<char>, Seq<char>, Seq<char>)> {
    let login = "run session-wrapper account login <name>"@;
    match (account, profile) {
        (Some(_), Some(_)) => None,
        (None, Some(p)) => Some((
            "this launch, which resolved the \""@ + p + "\" profile but no account"@,
            "a child launch requires a resolved account"@,
            login + ", then select it with --account or default_account"@,
        )),
        (Some(a), None) => Some((
            "this launch, which resolved the \""@ + a + "\" account but no profile"@,
            "a child launch requires a resolved profile"@,
            Seq::empty(),
        )),
        (None, None) => Some((
            "this launch, which resolved neither an account nor a profile"@,
            "a child launch requires a resolved account and profile"@,
            Seq::empty(),
        )),
    }
}

/// Where a profile would be written, for a hint.
pub open spec fn author_text(profiles: Seq<u8>) -> Seq<char> {
    "write a profile at "@ + lossy_spec(profiles) + "/<name>.yaml"@
}

/// The hint a missing binding earns.
pub open spec fn binding_hint(account: bool, profile: bool, profiles: Seq<u8>) -> Seq<char> {
    let login = "run session-wrapper account login <name>"@;
    if !account && profile {
        login + ", then select it with --account or default_account"@
    } else if account && !profile {
        author_text(profiles)
            + ", then bind it with session-wrapper account bind <account> --profile <name>, or select it with --profile or default_profile"@
    } else {
        login + " and "@ + author_text(profiles)
            + ", then select each with --account and --profile or with default_account and default_profile"@
    }
}

/// A launch goes ahead only with both an account and a profile resolved;
/// otherwise the refusal names the half that resolved and says the other in
/// words, with a hint naming the wrapper's own surfaces.
pub fn validate_binding(account: Option<&Identifier>, profile: Option<&Identifier>, profiles: &Vec<u8>) -> (r: Result<(), AppError>)
    ensures
        (account is Some && profile is Some) ==> r is Ok,
        !(account is Some && profile is Some) ==> (r matches Err(e) && kind_of(e) == ErrorKind::Config
            && diagnostic_of(e).what@ == "child launch is not bound to a complete session"@
            && diagnostic_of(e).where_@ == binding_gap(
                match account { Some(a) => Some(a@), None => None },
                match profile { Some(p) => Some(p@), None => None },
            ).unwrap().0
            && diagnostic_of(e).why@ == binding_gap(
                match account { Some(a) => Some(a@), None => None },
                match profile { Some(p) => Some(p@), None => None },
            ).unwrap().1
            && diagnostic_of(e).hint@ == binding_hint(account is Some, profile is Some, profiles@)),
{
    let author_dir = lossy_text(profiles.as_slice());
    let mut author = owned("write a profile at ");
    push_str(&mut author, author_dir.as_str());
    push_str(&mut author, "/<name>.yaml");
    match (account, profile) {
        (Some(_), Some(_)) => Ok(()),
        (None, Some(p)) => {
            let mut subject = owned("this launch, which resolved the \"");
            push_str(&mut subject, p.as_str());
            push_str(&mut subject, "\" profile but no account");
            let mut hint = owned("run session-wrapper account login <name>");
            push_str(&mut hint, ", then select it with --account or default_account");
            Err(AppError::new(
                ErrorKind::Config,
                Diagnostic::new(
                    owned("child launch is not bound to a complete session"),
                    subject,
                    owned("a child launch requires a resolved account"),
                    hint,
                ),
            ))
        },
        (Some(a), None) => {
            let mut subject = owned("this launch, which resolved the \"");
            push_str(&mut subject, a.as_str());
            push_str(&mut subject, "\" account but no profile");
            let mut hint = author;
            push_str(
                &mut hint,
                ", then bind it with session-wrapper account bind <account> --profile <name>, or select it with --profile or default_profile",
            );
            Err(AppError::new(
                ErrorKind::Config,
                Diagnostic::new(
                    owned("child launch is not bound to a complete session"),
                    subject,
                    owned("a child launch requires a resolved profile"),
                    hint,
                ),
            ))
        },
        (None, None) => {
            let mut hint = owned("run session-wrapper account login <name>");
            push_str(&mut hint, " and ");
            push_str(&mut hint, author.as_str());
            push_str(
                &mut hint,
                ", then select each with --account and --profile or with default_account and default_profile",
            );
            Err(AppError::new(
                ErrorKind::Config,
                Diagnostic::new(
                    owned("child launch is not bound to a complete session"),
                    owned("this launch, which resolved neither an account nor a profile"),
                    owned("a child launch requires a resolved account and profile"),
                    hint,
                ),
            ))
        },
    }
}

} // verus!
