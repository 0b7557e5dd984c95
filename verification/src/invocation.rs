//! What one classified invocation asks of the wrapper: its verb, its output
//! format and how much of the diagnostic mirror the user wants.

use vstd::prelude::*;

use crate::account::{recorded_at_spec, RecordedAt};
use crate::argv::{arg_views, law_split_keeps_every_argument, split, split_spec};
use crate::encoding::{bytes_are, utf8};
use crate::error::{diagnostic_of, kind_of, owned, AppError, Diagnostic, DomainError, ErrorKind};
use crate::identifier::Identifier;

verus! {

/// Terminal output format owned by the active wrapper verb.
#[derive(Clone, Copy, Debug, PartialEq, Eq, Structural)]
pub enum OutputMode {
    Human,
    Json,
}

/// The user's coarse control over the diagnostic mirror.
///
/// One ladder rather than a count beside a flag: `--quiet` with `--verbose` is
/// a usage error, so the pair is never both set.
#[derive(Clone, Copy, Debug, PartialEq, Eq, Structural)]
pub enum Verbosity {
    Quiet,
    Default,
    Info,
    Debug,
    Trace,
}

/// Where a token login reads its token from.
#[derive(Clone, Copy, Debug, PartialEq, Eq, Structural)]
pub enum TokenSource {
    Terminal,
    Stdin,
}

/// The shells a completion script can be generated for.
#[derive(Clone, Copy, Debug, PartialEq, Eq, Structural)]
pub enum Shell {
    Bash,
    Elvish,
    Fish,
    PowerShell,
    Zsh,
}

/// How a token login takes its token: where from, and when it was minted.
#[derive(Debug)]
pub struct TokenIngest {
    pub source: TokenSource,
    pub minted_at: Option<RecordedAt>,
}

/// The command line's contribution to configuration resolution, extracted
/// before the configuration layers exist, since `--config` decides what
/// configuration is.
#[derive(Debug)]
pub struct ConfigOverrides {
    /// Explicit user configuration replacement.
    pub config: Option<Vec<u8>>,
    /// Invocation account override.
    pub account: Option<Identifier>,
    /// Invocation profile override.
    pub profile: Option<Identifier>,
}

/// The wrapper verb an invocation names, with what that verb was given.
#[derive(Debug)]
pub enum InvocationKind {
    Passthrough(Vec<Vec<u8>>),
    Help,
    Version { mode: OutputMode },
    Doctor { mode: OutputMode, list: bool, strict: bool },
    AccountLogin { name: Option<Identifier>, token: Option<TokenIngest>, mode: OutputMode },
    AccountList { mode: OutputMode },
    AccountStatus { name: Option<Identifier>, mode: OutputMode },
    AccountRemove { name: Identifier, consented: bool, mode: OutputMode },
    Completion { shell: Shell },
    Man,
    Config { mode: OutputMode },
    Profile { mode: OutputMode },
    VerbHelp { verb: &'static str, subcommand: Option<&'static str> },
}

/// A fully classified wrapper invocation.
#[derive(Debug)]
pub struct Invocation {
    pub config_overrides: ConfigOverrides,
    pub verbose: u8,
    pub quiet: bool,
    pub kind: InvocationKind,
}

/// The mirror ladder a flag combination selects; a fourth `--verbose` clamps.
pub open spec fn verbosity_of(quiet: bool, verbose: u8) -> Verbosity {
    if quiet {
        Verbosity::Quiet
    } else if verbose == 0 {
        Verbosity::Default
    } else if verbose == 1 {
        Verbosity::Info
    } else if verbose == 2 {
        Verbosity::Debug
    } else {
        Verbosity::Trace
    }
}

/// The output mode a verb runs in; verbs without one print for humans.
pub open spec fn mode_of(kind: InvocationKind) -> OutputMode {
    match kind {
        InvocationKind::Version { mode } => mode,
        InvocationKind::Doctor { mode, .. } => mode,
        InvocationKind::AccountLogin { mode, .. } => mode,
        InvocationKind::AccountList { mode } => mode,
        InvocationKind::AccountStatus { mode, .. } => mode,
        InvocationKind::AccountRemove { mode, .. } => mode,
        InvocationKind::Config { mode } => mode,
        InvocationKind::Profile { mode } => mode,
        _ => OutputMode::Human,
    }
}

impl Invocation {
    /// Returns the diagnostic-mirror ladder, clamping a fourth repeat.
    pub fn verbosity(&self) -> (r: Verbosity)
        ensures
            r == verbosity_of(self.quiet, self.verbose),
    {
        if self.quiet {
            return Verbosity::Quiet;
        }
        match self.verbose {
            0 => Verbosity::Default,
            1 => Verbosity::Info,
            2 => Verbosity::Debug,
            _ => Verbosity::Trace,
        }
    }

    /// Returns the active output mode.
    pub fn output_mode(&self) -> (r: OutputMode)
        ensures
            r == mode_of(self.kind),
    {
        match &self.kind {
            InvocationKind::Version { mode } => *mode,
            InvocationKind::Doctor { mode, .. } => *mode,
            InvocationKind::AccountLogin { mode, .. } => *mode,
            InvocationKind::AccountList { mode } => *mode,
            InvocationKind::AccountStatus { mode, .. } => *mode,
            InvocationKind::AccountRemove { mode, .. } => *mode,
            InvocationKind::Config { mode } => *mode,
            InvocationKind::Profile { mode } => *mode,
            _ => OutputMode::Human,
        }
    }

    /// Reports whether this request only projects static catalog metadata.
    pub fn is_doctor_list(&self) -> (r: bool)
        ensures
            r == (self.kind matches InvocationKind::Doctor { list, .. } && list),
    {
        match &self.kind {
            InvocationKind::Doctor { list, .. } => *list,
            _ => false,
        }
    }

    /// Reports whether the wrapper owns this invocation as doctor.
    pub fn is_doctor(&self) -> (r: bool)
        ensures
            r == (self.kind is Doctor),
    {
        match &self.kind {
            InvocationKind::Doctor { .. } => true,
            _ => false,
        }
    }

    /// Reports whether a failed configuration probe is this verb's subject:
    /// the two assertion verbs render it rather than abandon the report.
    pub fn reports_config_defects(&self) -> (r: bool)
        ensures
            r == (self.kind is Doctor || self.kind is Config),
    {
        match &self.kind {
            InvocationKind::Doctor { .. } | InvocationKind::Config { .. } => true,
            _ => false,
        }
    }

    /// Returns doctor strict policy when this is a doctor request.
    pub fn doctor_strict(&self) -> (r: bool)
        ensures
            r == (self.kind matches InvocationKind::Doctor { strict, .. } && strict),
    {
        match &self.kind {
            InvocationKind::Doctor { strict, .. } => *strict,
            _ => false,
        }
    }
}

/// The topics `help` can be asked about.
#[derive(Clone, Copy, Debug, PartialEq, Eq, Structural)]
pub enum HelpTopic {
    Account,
    Completion,
    Config,
    Man,
    Profile,
}

/// `account login`'s arguments.
#[derive(Debug)]
pub struct LoginArgs {
    pub name: Option<Identifier>,
    pub token: bool,
    pub stdin: bool,
    pub minted_at: Option<String>,
    pub json: bool,
}

/// `account status`'s arguments.
#[derive(Debug)]
pub struct StatusArgs {
    pub name: Option<Identifier>,
    pub json: bool,
}

/// `account remove`'s arguments.
#[derive(Debug)]
pub struct RemoveArgs {
    pub name: Identifier,
    pub yes: bool,
    pub json: bool,
}

/// The `account` namespace's subcommands.
#[derive(Debug)]
pub enum AccountCommand {
    Login(LoginArgs),
    List { json: bool },
    Status(StatusArgs),
    Remove(RemoveArgs),
}

/// `account`'s arguments: requested help, and the subcommand if one was given.
#[derive(Debug)]
pub struct AccountArgs {
    pub help_flag: bool,
    pub command: Option<AccountCommand>,
}

/// A wrapper verb as the parser read it.
#[derive(Debug)]
pub enum Command {
    Account(AccountArgs),
    Completion { help_flag: bool, shell: Option<Shell> },
    Config { help_flag: bool, json: bool },
    Doctor { json: bool, list: bool, strict: bool },
    Help { verb: Option<HelpTopic> },
    Man { help_flag: bool },
    Profile { help_flag: bool, json: bool },
    Version { json: bool },
}

/// The wrapper-owned command line as the parser read it.
#[derive(Debug)]
pub struct ParsedCli {
    pub verbose: u8,
    pub quiet: bool,
    pub config: Option<Vec<u8>>,
    pub account: Option<Identifier>,
    pub profile: Option<Identifier>,
    pub version_flag: bool,
    pub help_flag: bool,
    pub command: Option<Command>,
}

/// The output mode `--json` selects.
pub open spec fn mode_for(json: bool) -> OutputMode {
    if json { OutputMode::Json } else { OutputMode::Human }
}

fn mode(json: bool) -> (r: OutputMode)
    ensures
        r == mode_for(json),
{
    if json { OutputMode::Json } else { OutputMode::Human }
}

/// The parser node that answers a requested-help topic.
pub open spec fn topic_node(topic: HelpTopic) -> Seq<char> {
    match topic {
        HelpTopic::Account => "account"@,
        HelpTopic::Completion => "completion"@,
        HelpTopic::Config => "config"@,
        HelpTopic::Man => "man"@,
        HelpTopic::Profile => "profile"@,
    }
}

/// Maps a requested-help topic to the parser node that answers it.
pub fn help_topic_node(topic: HelpTopic) -> (r: &'static str)
    ensures
        r@ == topic_node(topic),
{
    match topic {
        HelpTopic::Account => "account",
        HelpTopic::Completion => "completion",
        HelpTopic::Config => "config",
        HelpTopic::Man => "man",
        HelpTopic::Profile => "profile",
    }
}

/// Whether an error is a usage error with these four parts.
pub open spec fn usage_error(e: AppError, what: Seq<char>, where_: Seq<char>, why: Seq<char>, hint: Seq<char>) -> bool {
    kind_of(e) == ErrorKind::Usage && diagnostic_of(e).what@ == what && diagnostic_of(e).where_@ == where_
        && diagnostic_of(e).why@ == why && diagnostic_of(e).hint@ == hint && diagnostic_of(e).child_exit is None
}

fn usage(what: &str, where_: &str, why: String, hint: &str) -> (r: AppError)
    ensures
        usage_error(r, what@, where_@, why@, hint@),
{
    AppError::new(ErrorKind::Usage, Diagnostic::new(owned(what), owned(where_), why, owned(hint)))
}

/// What the token flags ask for: nothing without `--token`; otherwise where
/// the token comes from and, when given, when it was minted.
pub fn token_ingest(token: bool, stdin: bool, minted_at: Option<String>) -> (r: Result<Option<TokenIngest>, AppError>)
    ensures
        !token ==> (r matches Ok(None)),
        token ==> match minted_at {
            None => r matches Ok(Some(t)) && t.minted_at is None
                && t.source == (if stdin { TokenSource::Stdin } else { TokenSource::Terminal }),
            Some(m) => match recorded_at_spec(m@) {
                Ok(v) => r matches Ok(Some(t)) && (t.minted_at matches Some(a) && a@ == v)
                    && t.source == (if stdin { TokenSource::Stdin } else { TokenSource::Terminal }),
                Err(why) => r matches Err(e) && usage_error(
                    e,
                    "invalid command line"@,
                    "--minted-at"@,
                    why,
                    "pass an RFC 3339 UTC time such as 2026-08-11T12:34:56Z"@,
                ),
            },
        },
{
    if !token {
        return Ok(None);
    }
    let minted = match minted_at {
        None => None,
        Some(text) => match RecordedAt::parse(text) {
            Ok(at) => Some(at),
            Err(message) => {
                return Err(usage(
                    "invalid command line",
                    "--minted-at",
                    message,
                    "pass an RFC 3339 UTC time such as 2026-08-11T12:34:56Z",
                ));
            },
        },
    };
    Ok(Some(TokenIngest { source: if stdin { TokenSource::Stdin } else { TokenSource::Terminal }, minted_at: minted }))
}

/// The subcommand node an `account` help request names.
pub open spec fn account_node(c: Option<AccountCommand>) -> Option<Seq<char>> {
    match c {
        None => None,
        Some(AccountCommand::Login(_)) => Some("login"@),
        Some(AccountCommand::List { .. }) => Some("list"@),
        Some(AccountCommand::Status(_)) => Some("status"@),
        Some(AccountCommand::Remove(_)) => Some("remove"@),
    }
}

/// Whether a kind is requested help for one node.
pub open spec fn is_verb_help(k: InvocationKind, verb: Seq<char>, sub: Option<Seq<char>>) -> bool {
    k matches InvocationKind::VerbHelp { verb: v, subcommand } && v@ == verb && match subcommand {
        Some(s) => sub == Some(s@),
        None => sub is None,
    }
}

/// What resolving the `account` namespace gives: requested help first, a
/// bare `account` refused with its own help, then each subcommand.
pub open spec fn account_outcome(value: AccountArgs, account_help: Seq<char>, r: Result<InvocationKind, AppError>) -> bool {
    &&& (value.help_flag ==> (r matches Ok(k) && is_verb_help(k, "account"@, account_node(value.command))))
    &&& (!value.help_flag ==> match value.command {
            None => r matches Err(e) && usage_error(
                e,
                "account requires a subcommand"@,
                "account"@,
                account_help,
                "run session-wrapper-rs account --help"@,
            ),
            Some(AccountCommand::Login(l)) => if l.token && l.minted_at is Some && recorded_at_spec(
                l.minted_at.unwrap()@,
            ) is Err {
                r matches Err(e) && usage_error(
                    e,
                    "invalid command line"@,
                    "--minted-at"@,
                    recorded_at_spec(l.minted_at.unwrap()@)->Err_0,
                    "pass an RFC 3339 UTC time such as 2026-08-11T12:34:56Z"@,
                )
            } else {
                r matches Ok(InvocationKind::AccountLogin { name, token, mode: m }) && name == l.name
                    && m == mode_for(l.json) && (token is Some) == l.token && (token matches Some(t) ==> (t.source
                    == (if l.stdin { TokenSource::Stdin } else { TokenSource::Terminal }) && match l.minted_at {
                    None => t.minted_at is None,
                    Some(text) => t.minted_at matches Some(a) && a@ == recorded_at_spec(text@)->Ok_0,
                }))
            },
            Some(AccountCommand::List { json }) => r matches Ok(InvocationKind::AccountList { mode: m }) && m
                == mode_for(json),
            Some(AccountCommand::Status(a)) => r matches Ok(InvocationKind::AccountStatus { name, mode: m })
                && name == a.name && m == mode_for(a.json),
            Some(AccountCommand::Remove(a)) => r matches Ok(
                InvocationKind::AccountRemove { name, consented, mode: m },
            ) && name == a.name && consented == a.yes && m == mode_for(a.json),
        })
}

/// What resolving the `completion` verb gives: requested help first, then
/// the shell, which a bare `completion` lacks.
pub open spec fn completion_outcome(help_flag: bool, shell: Option<Shell>, completion_help: Seq<char>, r: Result<InvocationKind, AppError>) -> bool {
    &&& (help_flag ==> (r matches Ok(k) && is_verb_help(k, "completion"@, None)))
    &&& (!help_flag ==> match shell {
            Some(s) => r matches Ok(InvocationKind::Completion { shell: t }) && t == s,
            None => r matches Err(e) && usage_error(
                e,
                "completion requires a shell"@,
                "completion"@,
                completion_help,
                "run session-wrapper-rs completion --help"@,
            ),
        })
}

/// What resolving the parsed subcommand, or its absence, gives.
pub open spec fn command_outcome(command: Option<Command>, child: Seq<Vec<u8>>, account_help: Seq<char>, completion_help: Seq<char>, r: Result<InvocationKind, AppError>) -> bool {
    match command {
            None => r matches Ok(InvocationKind::Passthrough(c)) && c@ == child,
            Some(Command::Config { help_flag, json }) => r matches Ok(k) && if help_flag {
                is_verb_help(k, "config"@, None)
            } else {
                k matches InvocationKind::Config { mode: m } && m == mode_for(json)
            },
            Some(Command::Profile { help_flag, json }) => r matches Ok(k) && if help_flag {
                is_verb_help(k, "profile"@, None)
            } else {
                k matches InvocationKind::Profile { mode: m } && m == mode_for(json)
            },
            Some(Command::Doctor { json, list, strict }) => r matches Ok(
                InvocationKind::Doctor { mode: m, list: l, strict: s },
            ) && m == mode_for(json) && l == list && s == strict,
            Some(Command::Help { verb }) => r matches Ok(k) && match verb {
                Some(t) => is_verb_help(k, topic_node(t), None),
                None => k is Help,
            },
            Some(Command::Man { help_flag }) => r matches Ok(k) && if help_flag {
                is_verb_help(k, "man"@, None)
            } else {
                k is Man
            },
            Some(Command::Version { json }) => r matches Ok(InvocationKind::Version { mode: m }) && m == mode_for(
                json,
            ),
            Some(Command::Completion { help_flag, shell }) => completion_outcome(help_flag, shell, completion_help, r),
            Some(Command::Account(a)) => account_outcome(a, account_help, r),
        }
}

/// Resolves the `account` namespace into one invocation. Requested help is
/// checked first; a bare `account` is malformed, and its own help is the
/// diagnostic.
pub fn classify_account(value: AccountArgs, account_help: &str) -> (r: Result<InvocationKind, AppError>)
    ensures
        account_outcome(value, account_help@, r),
{
    if value.help_flag {
        let subcommand = match value.command {
            None => None,
            Some(AccountCommand::Login(_)) => Some("login"),
            Some(AccountCommand::List { .. }) => Some("list"),
            Some(AccountCommand::Status(_)) => Some("status"),
            Some(AccountCommand::Remove(_)) => Some("remove"),
        };
        return Ok(InvocationKind::VerbHelp { verb: "account", subcommand });
    }
    match value.command {
        None => Err(usage(
            "account requires a subcommand",
            "account",
            owned(account_help),
            "run session-wrapper-rs account --help",
        )),
        Some(AccountCommand::Login(login)) => {
            let json = login.json;
            match token_ingest(login.token, login.stdin, login.minted_at) {
                Ok(token) => Ok(InvocationKind::AccountLogin { name: login.name, token, mode: mode(json) }),
                Err(e) => Err(e),
            }
        },
        Some(AccountCommand::List { json }) => Ok(InvocationKind::AccountList { mode: mode(json) }),
        Some(AccountCommand::Status(status)) => Ok(
            InvocationKind::AccountStatus { name: status.name, mode: mode(status.json) },
        ),
        Some(AccountCommand::Remove(remove)) => Ok(
            InvocationKind::AccountRemove { name: remove.name, consented: remove.yes, mode: mode(remove.json) },
        ),
    }
}

/// Resolves the `completion` verb: requested help first, then the shell,
/// which a bare `completion` lacks.
pub fn classify_completion(help_flag: bool, shell: Option<Shell>, completion_help: &str) -> (r: Result<InvocationKind, AppError>)
    ensures
        completion_outcome(help_flag, shell, completion_help@, r),
{
    if help_flag {
        return Ok(InvocationKind::VerbHelp { verb: "completion", subcommand: None });
    }
    match shell {
        Some(s) => Ok(InvocationKind::Completion { shell: s }),
        None => Err(usage(
            "completion requires a shell",
            "completion",
            owned(completion_help),
            "run session-wrapper-rs completion --help",
        )),
    }
}

/// Resolves the parsed subcommand, or its absence, into an invocation; with
/// no wrapper verb, the child arguments are passed through untouched.
pub fn classify_command(command: Option<Command>, child: Vec<Vec<u8>>, account_help: &str, completion_help: &str) -> (r: Result<InvocationKind, AppError>)
    ensures
        command_outcome(command, child@, account_help@, completion_help@, r),
{
    match command {
        Some(Command::Account(value)) => classify_account(value, account_help),
        Some(Command::Completion { help_flag, shell }) => classify_completion(help_flag, shell, completion_help),
        Some(Command::Config { help_flag, json }) => {
            if help_flag {
                Ok(InvocationKind::VerbHelp { verb: "config", subcommand: None })
            } else {
                Ok(InvocationKind::Config { mode: mode(json) })
            }
        },
        Some(Command::Doctor { json, list, strict }) => Ok(InvocationKind::Doctor { mode: mode(json), list, strict }),
        Some(Command::Help { verb }) => match verb {
            Some(topic) => Ok(InvocationKind::VerbHelp { verb: help_topic_node(topic), subcommand: None }),
            None => Ok(InvocationKind::Help),
        },
        Some(Command::Man { help_flag }) => {
            if help_flag {
                Ok(InvocationKind::VerbHelp { verb: "man", subcommand: None })
            } else {
                Ok(InvocationKind::Man)
            }
        },
        Some(Command::Profile { help_flag, json }) => {
            if help_flag {
                Ok(InvocationKind::VerbHelp { verb: "profile", subcommand: None })
            } else {
                Ok(InvocationKind::Profile { mode: mode(json) })
            }
        },
        Some(Command::Version { json }) => Ok(InvocationKind::Version { mode: mode(json) }),
        None => Ok(InvocationKind::Passthrough(child)),
    }
}

/// Builds the invocation from the parsed wrapper command line: requested
/// help wins, then `--version`, then the verb.
pub fn classify_parsed(cli: ParsedCli, child: Vec<Vec<u8>>, account_help: &str, completion_help: &str) -> (r: Result<Invocation, AppError>)
    ensures
        r matches Ok(i) ==> i.verbose == cli.verbose && i.quiet == cli.quiet
            && i.config_overrides.config == cli.config && i.config_overrides.account == cli.account
            && i.config_overrides.profile == cli.profile,
        cli.help_flag ==> (r matches Ok(i) && i.kind is Help),
        !cli.help_flag && cli.version_flag ==> (r matches Ok(i) && (i.kind matches InvocationKind::Version { mode: m }
            && m == OutputMode::Human)),
        !cli.help_flag && !cli.version_flag ==> command_outcome(
            cli.command,
            child@,
            account_help@,
            completion_help@,
            match r {
                Ok(i) => Ok(i.kind),
                Err(e) => Err(e),
            },
        ),
{
    let config_overrides = ConfigOverrides { config: cli.config, account: cli.account, profile: cli.profile };
    let kind = if cli.help_flag {
        InvocationKind::Help
    } else if cli.version_flag {
        InvocationKind::Version { mode: OutputMode::Human }
    } else {
        match classify_command(cli.command, child, account_help, completion_help) {
            Ok(k) => k,
            Err(e) => {
                return Err(e);
            },
        }
    };
    Ok(Invocation { config_overrides, verbose: cli.verbose, quiet: cli.quiet, kind })
}

/// Whether an argument spells a wrapper verb.
pub open spec fn is_wrapper_verb(a: Seq<u8>) -> bool {
    ||| a == utf8("account"@)
    ||| a == utf8("completion"@)
    ||| a == utf8("config"@)
    ||| a == utf8("doctor"@)
    ||| a == utf8("help"@)
    ||| a == utf8("man"@)
    ||| a == utf8("profile"@)
    ||| a == utf8("version"@)
}

fn wrapper_verb(a: &Vec<u8>) -> (r: bool)
    ensures
        r == is_wrapper_verb(a@),
{
    bytes_are(a, "account") || bytes_are(a, "completion") || bytes_are(a, "config") || bytes_are(a, "doctor")
        || bytes_are(a, "help") || bytes_are(a, "man") || bytes_are(a, "profile") || bytes_are(a, "version")
}

/// The wrapper's and the child's arguments routing gives, or the refusal.
pub open spec fn routed(args: Seq<Seq<u8>>) -> Result<(Seq<Seq<u8>>, Seq<Seq<u8>>), Seq<char>> {
    match split_spec(args) {
        Ok(p) => if !p.2 && p.1.len() > 0 && is_wrapper_verb(p.1[0]) {
            Ok((p.0 + p.1, Seq::empty()))
        } else {
            Ok((p.0, p.1))
        },
        Err(m) => Err(m),
    }
}

/// The wrapper parses its own verbs. Whatever split leaves with the child
/// goes there whole, except when no `--` closed the wrapper's flags and the
/// first of those arguments spells `account`, `completion`, `config`,
/// `doctor`, `help`, `man`, `profile` or `version`: then the whole command
/// line is the wrapper's and the child gets nothing.
pub proof fn law_wrapper_verbs_stay_with_the_wrapper(args: Seq<Seq<u8>>)
    ensures
        split_spec(args) matches Ok((w, c, s)) ==> routed(args) == if !s && c.len() > 0 && (c[0] == utf8("account"@)
            || c[0] == utf8("completion"@) || c[0] == utf8("config"@) || c[0] == utf8("doctor"@) || c[0] == utf8(
            "help"@,
        ) || c[0] == utf8("man"@) || c[0] == utf8("profile"@) || c[0] == utf8("version"@)) {
            Ok::<(Seq<Seq<u8>>, Seq<Seq<u8>>), Seq<char>>((args, Seq::empty()))
        } else {
            Ok::<(Seq<Seq<u8>>, Seq<Seq<u8>>), Seq<char>>((w, c))
        },
        split_spec(args) matches Err(m) ==> routed(args) == Err::<(Seq<Seq<u8>>, Seq<Seq<u8>>), Seq<char>>(m),
{
    law_split_keeps_every_argument(args);
    if let Ok((w, c, s)) = split_spec(args) {
        if !s {
            assert(w + Seq::<Seq<u8>>::empty() + c =~= w + c);
        }
    }
}

/// Pre-splits the raw arguments into the wrapper's and the child's. When no
/// `--` closed the wrapper's flags and the child's first argument spells a
/// wrapper verb, the whole suffix is the wrapper's to parse after all.
pub fn route(arguments: &Vec<Vec<u8>>) -> (r: Result<(Vec<Vec<u8>>, Vec<Vec<u8>>), AppError>)
    ensures
        match split_spec(arg_views(arguments@)) {
            Ok(p) => r matches Ok((w, c)) && if !p.2 && p.1.len() > 0 && is_wrapper_verb(p.1[0]) {
                arg_views(w@) == p.0 + p.1 && c@.len() == 0
            } else {
                arg_views(w@) == p.0 && arg_views(c@) == p.1
            },
            Err(m) => r matches Err(e) && usage_error(
                e,
                "invalid command line"@,
                "wrapper arguments"@,
                m,
                "run session-wrapper --help"@,
            ),
        },
        match r {
            Ok((w, c)) => routed(arg_views(arguments@)) == Ok::<(Seq<Seq<u8>>, Seq<Seq<u8>>), Seq<char>>(
                (arg_views(w@), arg_views(c@)),
            ),
            Err(_) => routed(arg_views(arguments@)) is Err,
        },
{
    let partition = match split(arguments) {
        Ok(p) => p,
        Err(error) => {
            return Err(AppError::from_domain(error));
        },
    };
    let sentinel = partition.sentinel();
    let (mut wrapper, mut child) = partition.into_parts();
    if !sentinel && child.len() > 0 && wrapper_verb(&child[0]) {
        let ghost before = wrapper@;
        let ghost rest = child@;
        wrapper.append(&mut child);
        proof {
            assert(arg_views(wrapper@) =~= arg_views(before) + arg_views(rest));
            assert(arg_views(child@) =~= Seq::<Seq<u8>>::empty());
        }
    }
    Ok((wrapper, child))
}

} // verus!
