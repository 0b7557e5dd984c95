//! Resolved wrapper configuration and the precedence that produces it.
//!
//! Defaults, then the user file, then a project file, then the environment,
//! then the command line: each later layer wins for every key it sets.

use vstd::prelude::*;

use crate::encoding::{
    ascii_text, bytes_are, copy_bytes, decode_utf8, is_utf8, lemma_ascii_bytes_decode, lemma_ascii_is_utf8,
    lemma_utf8_of_ascii, utf8,
};
use crate::error::{owned, AppError, Diagnostic};
use crate::identifier::{is_identifier, is_tail_char, Identifier};
use crate::text::push_str;

verus! {

/// The layer which supplied a resolved configuration value.
#[derive(Clone, Copy, Debug, PartialEq, Eq, Structural)]
pub enum Source {
    /// No layer supplied a value.
    Default,
    /// The user configuration file supplied the value.
    User,
    /// The project configuration file supplied the value.
    Project,
    /// The process environment supplied the value.
    Environment,
    /// The command line supplied the value.
    Cli,
}

/// A value paired with its winning configuration source.
#[derive(Debug)]
pub struct Sourced<T> {
    pub value: Option<T>,
    pub source: Source,
}

impl<T> Sourced<T> {
    /// An unset default value.
    pub fn unset() -> (r: Sourced<T>)
        ensures
            r.value is None,
            r.source == Source::Default,
    {
        Sourced { value: None, source: Source::Default }
    }

    /// Replaces the value and records its source.
    pub fn set(&mut self, value: T, source: Source)
        ensures
            final(self).value == Some(value),
            final(self).source == source,
    {
        self.value = Some(value);
        self.source = source;
    }

    /// Borrows the resolved value.
    pub fn value(&self) -> (r: Option<&T>)
        ensures
            match self.value {
                Some(v) => r == Some(&v),
                None => r is None,
            },
    {
        match &self.value {
            Some(v) => Some(v),
            None => None,
        }
    }

    /// Returns the winning source.
    pub fn source(&self) -> (r: Source)
        ensures
            r == self.source,
    {
        self.source
    }
}

/// All wrapper configuration after precedence has been applied.
#[derive(Debug)]
pub struct ResolvedConfig {
    pub child_bin: Sourced<Vec<u8>>,
    pub default_account: Sourced<Identifier>,
    pub default_profile: Sourced<Identifier>,
}

impl ResolvedConfig {
    /// The all-unset built-in defaults.
    pub fn defaults() -> (r: ResolvedConfig)
        ensures
            r.child_bin.value is None && r.child_bin.source == Source::Default,
            r.default_account.value is None && r.default_account.source == Source::Default,
            r.default_profile.value is None && r.default_profile.source == Source::Default,
    {
        ResolvedConfig { child_bin: Sourced::unset(), default_account: Sourced::unset(), default_profile: Sourced::unset() }
    }
}

/// Configuration loading failures.
#[derive(Debug)]
pub enum ConfigError {
    /// A file could not be read.
    Read { path: String, message: String },
    /// A file could not be decoded strictly.
    Decode { path: String, message: String },
    /// A value that is not text arrived where an identifier was expected.
    Value { key: &'static str, origin: String },
    /// A value broke the identifier grammar.
    Identifier { key: &'static str, origin: String, value: String },
}

/// The sentence each configuration failure reads as.
pub open spec fn config_message(e: ConfigError) -> Seq<char> {
    match e {
        ConfigError::Read { path, message } => "cannot read configuration file "@ + path@ + ": "@ + message@,
        ConfigError::Decode { path, message } => "invalid configuration file "@ + path@ + ": "@ + message@,
        ConfigError::Value { key, origin } => "invalid configuration value for "@ + key@ + " from "@ + origin@,
        ConfigError::Identifier { key, origin, value } => "invalid configuration value for "@ + key@ + " from "@
            + origin@ + ": "@ + value@,
    }
}

impl ConfigError {
    /// Renders the failure as one sentence.
    pub fn message(&self) -> (r: String)
        ensures
            r@ == config_message(*self),
    {
        match self {
            ConfigError::Read { path, message } => {
                let mut m = owned("cannot read configuration file ");
                push_str(&mut m, path.as_str());
                push_str(&mut m, ": ");
                push_str(&mut m, message.as_str());
                m
            },
            ConfigError::Decode { path, message } => {
                let mut m = owned("invalid configuration file ");
                push_str(&mut m, path.as_str());
                push_str(&mut m, ": ");
                push_str(&mut m, message.as_str());
                m
            },
            ConfigError::Value { key, origin } => {
                let mut m = owned("invalid configuration value for ");
                push_str(&mut m, key);
                push_str(&mut m, " from ");
                push_str(&mut m, origin.as_str());
                m
            },
            ConfigError::Identifier { key, origin, value } => {
                let mut m = owned("invalid configuration value for ");
                push_str(&mut m, key);
                push_str(&mut m, " from ");
                push_str(&mut m, origin.as_str());
                push_str(&mut m, ": ");
                push_str(&mut m, value.as_str());
                m
            },
        }
    }

    /// The wrapper error a configuration failure becomes.
    pub fn into_app_error(&self) -> (r: AppError)
        ensures
            r matches AppError::Config(d) && d.what@ == "configuration is invalid"@
                && d.where_@ == "configuration loading"@ && d.why@ == config_message(*self)
                && d.hint@ == "correct the named value or file"@,
    {
        AppError::Config(Diagnostic::new(
            owned("configuration is invalid"),
            owned("configuration loading"),
            self.message(),
            owned("correct the named value or file"),
        ))
    }
}

/// The keys one configuration file sets, already decoded.
#[derive(Debug)]
pub struct FileConfig {
    pub child_bin: Option<Vec<u8>>,
    pub default_account: Option<String>,
    pub default_profile: Option<String>,
}

/// The environment variable each identifier key is read from.
pub open spec fn environment_name(key: Seq<char>) -> Seq<char> {
    if key == "default_account"@ {
        "SESSION_WRAPPER_DEFAULT_ACCOUNT"@
    } else {
        "SESSION_WRAPPER_DEFAULT_PROFILE"@
    }
}

/// Names the environment variable a key is read from, so a diagnostic points
/// at the thing the user would unset rather than at the file spelling.
pub fn environment_spelling(key: &str) -> (r: &'static str)
    ensures
        r@ == environment_name(key@),
{
    if crate::text::same_text(key, "default_account") {
        "SESSION_WRAPPER_DEFAULT_ACCOUNT"
    } else {
        "SESSION_WRAPPER_DEFAULT_PROFILE"
    }
}

fn file_identifier(key: &'static str, value: &str, origin: &str) -> (r: Result<Identifier, ConfigError>)
    ensures
        is_identifier(value@) ==> (r matches Ok(id) && id@ == value@),
        !is_identifier(value@) ==> (r matches Err(ConfigError::Identifier { key: k, origin: o, value: v })
            && k@ == key@ && o@ == origin@ && v@ == value@),
{
    match Identifier::parse(value) {
        Ok(id) => Ok(id),
        Err(_) => Err(ConfigError::Identifier { key, origin: owned(origin), value: owned(value) }),
    }
}

/// Applies one decoded file layer; a project file may set only the profile.
pub fn apply_file_config(resolved: &mut ResolvedConfig, file: FileConfig, origin: &str, source: Source, project: bool) -> (r: Result<(), ConfigError>)
    ensures
        project && file.child_bin is Some ==> (r matches Err(ConfigError::Decode { path, message })
            && path@ == origin@ && message@ == "key `child_bin` is not allowed in a project file"@),
        project && file.child_bin is None && file.default_account is Some ==> (r matches Err(ConfigError::Decode { path, message })
            && path@ == origin@ && message@ == "key `default_account` is not allowed in a project file"@),
        !(project && (file.child_bin is Some || file.default_account is Some)) ==> {
            let account_ok = match file.default_account { Some(a) => is_identifier(a@), None => true };
            let profile_ok = match file.default_profile { Some(p) => is_identifier(p@), None => true };
            &&& (account_ok && profile_ok) ==> r is Ok
            &&& !account_ok ==> (r matches Err(ConfigError::Identifier { key, .. }) && key@ == "default_account"@)
            &&& account_ok && !profile_ok ==> (r matches Err(ConfigError::Identifier { key, .. }) && key@ == "default_profile"@)
        },
        r is Ok ==> {
            &&& match file.child_bin {
                Some(c) => final(resolved).child_bin.value == Some(c) && final(resolved).child_bin.source == source,
                None => final(resolved).child_bin == old(resolved).child_bin,
            }
            &&& match file.default_account {
                Some(a) => final(resolved).default_account.value matches Some(i) && i@ == a@
                    && final(resolved).default_account.source == source,
                None => final(resolved).default_account == old(resolved).default_account,
            }
            &&& match file.default_profile {
                Some(p) => final(resolved).default_profile.value matches Some(i) && i@ == p@
                    && final(resolved).default_profile.source == source,
                None => final(resolved).default_profile == old(resolved).default_profile,
            }
        },
{
    if project && file.child_bin.is_some() {
        let message = owned("key `child_bin` is not allowed in a project file");
        return Err(ConfigError::Decode { path: owned(origin), message });
    }
    if project && file.default_account.is_some() {
        let message = owned("key `default_account` is not allowed in a project file");
        return Err(ConfigError::Decode { path: owned(origin), message });
    }
    let FileConfig { child_bin, default_account, default_profile } = file;
    let account = match default_account {
        Some(value) => Some(file_identifier("default_account", value.as_str(), origin)?),
        None => None,
    };
    let profile = match default_profile {
        Some(value) => Some(file_identifier("default_profile", value.as_str(), origin)?),
        None => None,
    };
    if let Some(value) = child_bin {
        resolved.child_bin.set(value, source);
    }
    if let Some(value) = account {
        resolved.default_account.set(value, source);
    }
    if let Some(value) = profile {
        resolved.default_profile.set(value, source);
    }
    Ok(())
}

/// The variable that overrides the child binary.
pub open spec fn child_bin_variable() -> Seq<char> {
    "SESSION_WRAPPER_CHILD_BIN"@
}

/// The variable that selects the default account.
pub open spec fn account_variable() -> Seq<char> {
    "SESSION_WRAPPER_DEFAULT_ACCOUNT"@
}

/// The variable that selects the default profile.
pub open spec fn profile_variable() -> Seq<char> {
    "SESSION_WRAPPER_DEFAULT_PROFILE"@
}

/// Whether the bytes of a value spell an identifier.
pub open spec fn identifier_bytes(v: Seq<u8>) -> bool {
    is_identifier(ascii_text(v))
}

/// An environment entry as the pair of its name's and value's bytes.
pub open spec fn entry_bytes(e: (Vec<u8>, Vec<u8>)) -> (Seq<u8>, Seq<u8>) {
    (e.0@, e.1@)
}

/// The environment as byte sequences.
pub open spec fn entries(environment: Seq<(Vec<u8>, Vec<u8>)>) -> Seq<(Seq<u8>, Seq<u8>)> {
    environment.map_values(|e: (Vec<u8>, Vec<u8>)| entry_bytes(e))
}

/// Whether an environment entry sets an identifier key to a value outside the grammar.
pub open spec fn refused_entry(e: (Seq<u8>, Seq<u8>)) -> bool {
    (e.0 == utf8(account_variable()) || e.0 == utf8(profile_variable())) && !identifier_bytes(e.1)
}

/// The position of the last entry before `n` with the given name, or -1.
pub open spec fn last_named(vars: Seq<(Seq<u8>, Seq<u8>)>, name: Seq<u8>, n: int) -> int
    decreases n,
{
    if n <= 0 {
        -1
    } else if vars[n - 1].0 == name {
        n - 1
    } else {
        last_named(vars, name, n - 1)
    }
}

/// The error a refused environment entry raises.
pub open spec fn environment_error(e: (Seq<u8>, Seq<u8>), error: ConfigError) -> bool {
    let key = if e.0 == utf8(account_variable()) { "default_account"@ } else { "default_profile"@ };
    if !is_utf8(e.1) {
        error matches ConfigError::Value { key: k, origin } && k@ == key && origin@ == "environment (non-UTF-8)"@
    } else {
        error matches ConfigError::Identifier { key: k, origin, value } && k@ == key
            && origin@ == environment_name(key) && utf8(value@) == e.1
    }
}

/// Bytes that spell an identifier are all ASCII.
pub proof fn lemma_identifier_bytes_are_ascii(v: Seq<u8>)
    requires
        identifier_bytes(v),
    ensures
        forall|i: int| 0 <= i < v.len() ==> #[trigger] v[i] < 0x80,
{
    assert forall|i: int| 0 <= i < v.len() implies #[trigger] v[i] < 0x80 by {
        let c = ascii_text(v)[i];
        assert(c == v[i] as char);
        if i > 0 {
            assert(is_tail_char(ascii_text(v)[i]));
        }
        assert((v[i] as char) as u32 == v[i] as u32);
    }
}

/// The three variable names are spelled apart.
proof fn lemma_variables_differ()
    ensures
        utf8(child_bin_variable()) != utf8(account_variable()),
        utf8(child_bin_variable()) != utf8(profile_variable()),
        utf8(account_variable()) != utf8(profile_variable()),
{
    reveal_strlit("SESSION_WRAPPER_CHILD_BIN");
    reveal_strlit("SESSION_WRAPPER_DEFAULT_ACCOUNT");
    reveal_strlit("SESSION_WRAPPER_DEFAULT_PROFILE");
    lemma_utf8_of_ascii(child_bin_variable());
    lemma_utf8_of_ascii(account_variable());
    lemma_utf8_of_ascii(profile_variable());
    assert(account_variable()[24] == 'A' && profile_variable()[24] == 'P');
    assert(utf8(account_variable())[24] != utf8(profile_variable())[24]);
}

fn environment_identifier(key: &'static str, value: &Vec<u8>) -> (r: Result<Identifier, ConfigError>)
    requires
        key@ == "default_account"@ || key@ == "default_profile"@,
    ensures
        identifier_bytes(value@) ==> (r matches Ok(id) && id@ == ascii_text(value@)),
        !identifier_bytes(value@) && !is_utf8(value@) ==> (r matches Err(ConfigError::Value { key: k, origin })
            && k@ == key@ && origin@ == "environment (non-UTF-8)"@),
        !identifier_bytes(value@) && is_utf8(value@) ==> (r matches Err(ConfigError::Identifier { key: k, origin, value: v })
            && k@ == key@ && origin@ == environment_name(key@) && utf8(v@) == value@),
{
    match decode_utf8(value.as_slice()) {
        None => {
            proof {
                if identifier_bytes(value@) {
                    lemma_identifier_bytes_are_ascii(value@);
                    lemma_ascii_is_utf8(value@);
                }
            }
            Err(ConfigError::Value { key, origin: owned("environment (non-UTF-8)") })
        },
        Some(text) => match Identifier::parse(text.as_str()) {
            Ok(id) => {
                proof {
                    assert forall|i: int| 0 <= i < text@.len() implies (#[trigger] text@[i] as u32) < 0x80 by {
                        if i > 0 {
                            assert(is_tail_char(text@[i]));
                        }
                    }
                    lemma_utf8_of_ascii(text@);
                }
                Ok(id)
            },
            Err(_) => {
                proof {
                    if identifier_bytes(value@) {
                        lemma_identifier_bytes_are_ascii(value@);
                        lemma_ascii_bytes_decode(text@);
                    }
                }
                Err(ConfigError::Identifier { key, origin: owned(environment_spelling(key)), value: text })
            },
        },
    }
}

/// Applies the environment layer: the last entry for each variable wins, and
/// the first entry that names an identifier key with a value outside the
/// grammar refuses the layer.
pub fn apply_environment(resolved: &mut ResolvedConfig, environment: &Vec<(Vec<u8>, Vec<u8>)>) -> (r: Result<(), ConfigError>)
    ensures
        r is Err <==> exists|i: int| 0 <= i < environment@.len() && #[trigger] refused_entry(entries(environment@)[i]),
        r matches Err(e) ==> exists|i: int| 0 <= i < environment@.len() && #[trigger] refused_entry(entries(environment@)[i])
            && (forall|j: int| 0 <= j < i ==> !refused_entry(#[trigger] entries(environment@)[j]))
            && environment_error(entries(environment@)[i], e),
        r is Ok ==> {
            let vars = entries(environment@);
            let n = environment@.len() as int;
            let c = last_named(vars, utf8(child_bin_variable()), n);
            let a = last_named(vars, utf8(account_variable()), n);
            let p = last_named(vars, utf8(profile_variable()), n);
            &&& c >= 0 ==> (final(resolved).child_bin.value matches Some(b) && b@ == vars[c].1
                && final(resolved).child_bin.source == Source::Environment)
            &&& c < 0 ==> final(resolved).child_bin == old(resolved).child_bin
            &&& a >= 0 ==> (final(resolved).default_account.value matches Some(id) && id@ == ascii_text(vars[a].1)
                && final(resolved).default_account.source == Source::Environment)
            &&& a < 0 ==> final(resolved).default_account == old(resolved).default_account
            &&& p >= 0 ==> (final(resolved).default_profile.value matches Some(id) && id@ == ascii_text(vars[p].1)
                && final(resolved).default_profile.source == Source::Environment)
            &&& p < 0 ==> final(resolved).default_profile == old(resolved).default_profile
        },
{
    let ghost vars = entries(environment@);
    let ghost cb = utf8(child_bin_variable());
    let ghost ac = utf8(account_variable());
    let ghost pr = utf8(profile_variable());
    proof {
        lemma_variables_differ();
    }
    let mut k: usize = 0;
    while k < environment.len()
        invariant
            vars == entries(environment@),
            cb == utf8(child_bin_variable()),
            ac == utf8(account_variable()),
            pr == utf8(profile_variable()),
            cb != ac && cb != pr && ac != pr,
            k <= environment@.len(),
            forall|j: int| 0 <= j < k ==> !refused_entry(#[trigger] vars[j]),
            last_named(vars, cb, k as int) >= 0 ==> (resolved.child_bin.value matches Some(b)
                && b@ == vars[last_named(vars, cb, k as int)].1 && resolved.child_bin.source == Source::Environment),
            last_named(vars, cb, k as int) < 0 ==> resolved.child_bin == old(resolved).child_bin,
            last_named(vars, ac, k as int) >= 0 ==> (resolved.default_account.value matches Some(id)
                && id@ == ascii_text(vars[last_named(vars, ac, k as int)].1)
                && resolved.default_account.source == Source::Environment),
            last_named(vars, ac, k as int) < 0 ==> resolved.default_account == old(resolved).default_account,
            last_named(vars, pr, k as int) >= 0 ==> (resolved.default_profile.value matches Some(id)
                && id@ == ascii_text(vars[last_named(vars, pr, k as int)].1)
                && resolved.default_profile.source == Source::Environment),
            last_named(vars, pr, k as int) < 0 ==> resolved.default_profile == old(resolved).default_profile,
        decreases environment@.len() - k,
    {
        let key = &environment[k].0;
        let value = &environment[k].1;
        assert(vars[k as int] == (key@, value@));
        if bytes_are(key, "SESSION_WRAPPER_CHILD_BIN") {
            resolved.child_bin.set(copy_bytes(value), Source::Environment);
        } else if bytes_are(key, "SESSION_WRAPPER_DEFAULT_ACCOUNT") {
            let id = match environment_identifier("default_account", value) {
                Ok(id) => id,
                Err(e) => {
                    assert(refused_entry(vars[k as int]));
                    return Err(e);
                },
            };
            resolved.default_account.set(id, Source::Environment);
        } else if bytes_are(key, "SESSION_WRAPPER_DEFAULT_PROFILE") {
            let id = match environment_identifier("default_profile", value) {
                Ok(id) => id,
                Err(e) => {
                    assert(refused_entry(vars[k as int]));
                    return Err(e);
                },
            };
            resolved.default_profile.set(id, Source::Environment);
        }
        k = k + 1;
    }
    Ok(())
}

/// Applies the command line layer: each identifier given there wins.
pub fn apply_overrides(resolved: &mut ResolvedConfig, account: Option<Identifier>, profile: Option<Identifier>)
    ensures
        match account {
            Some(a) => final(resolved).default_account.value == Some(a)
                && final(resolved).default_account.source == Source::Cli,
            None => final(resolved).default_account == old(resolved).default_account,
        },
        match profile {
            Some(p) => final(resolved).default_profile.value == Some(p)
                && final(resolved).default_profile.source == Source::Cli,
            None => final(resolved).default_profile == old(resolved).default_profile,
        },
        final(resolved).child_bin == old(resolved).child_bin,
{
    if let Some(a) = account {
        resolved.default_account.set(a, Source::Cli);
    }
    if let Some(p) = profile {
        resolved.default_profile.set(p, Source::Cli);
    }
}

/// One configuration file that was read and decoded, with the name it is
/// reported under.
#[derive(Debug)]
pub struct FileLayer {
    pub origin: String,
    pub config: FileConfig,
}

/// Whether a decoded file layer is accepted: a project file sets neither the
/// child binary nor the account, and every identifier it sets is well formed.
pub open spec fn file_accepted(file: FileConfig, project: bool) -> bool {
    &&& !(project && (file.child_bin is Some || file.default_account is Some))
    &&& match file.default_account { Some(a) => is_identifier(a@), None => true }
    &&& match file.default_profile { Some(p) => is_identifier(p@), None => true }
}

/// Whether an optional layer is accepted.
pub open spec fn layer_accepted(layer: Option<FileLayer>, project: bool) -> bool {
    match layer {
        Some(l) => file_accepted(l.config, project),
        None => true,
    }
}

/// The profile an optional layer sets.
pub open spec fn layer_profile(layer: Option<FileLayer>) -> Option<Seq<char>> {
    match layer {
        Some(l) => match l.config.default_profile {
            Some(p) => Some(p@),
            None => None,
        },
        None => None,
    }
}

/// The account an optional layer sets.
pub open spec fn layer_account(layer: Option<FileLayer>) -> Option<Seq<char>> {
    match layer {
        Some(l) => match l.config.default_account {
            Some(a) => Some(a@),
            None => None,
        },
        None => None,
    }
}

/// The child binary an optional layer sets.
pub open spec fn layer_child_bin(layer: Option<FileLayer>) -> Option<Seq<u8>> {
    match layer {
        Some(l) => match l.config.child_bin {
            Some(c) => Some(c@),
            None => None,
        },
        None => None,
    }
}

/// Whether a sourced identifier holds a given value from a given layer.
pub open spec fn holds_identifier(s: Sourced<Identifier>, value: Seq<char>, source: Source) -> bool {
    s.value matches Some(i) && i@ == value && s.source == source
}

fn apply_layer(resolved: &mut ResolvedConfig, layer: Option<FileLayer>, source: Source, project: bool) -> (r: Result<(), ConfigError>)
    ensures
        r is Ok <==> layer_accepted(layer, project),
        r is Ok ==> {
            &&& match layer_child_bin(layer) {
                Some(c) => final(resolved).child_bin.value matches Some(b) && b@ == c
                    && final(resolved).child_bin.source == source,
                None => final(resolved).child_bin == old(resolved).child_bin,
            }
            &&& match layer_account(layer) {
                Some(a) => holds_identifier(final(resolved).default_account, a, source),
                None => final(resolved).default_account == old(resolved).default_account,
            }
            &&& match layer_profile(layer) {
                Some(p) => holds_identifier(final(resolved).default_profile, p, source),
                None => final(resolved).default_profile == old(resolved).default_profile,
            }
        },
{
    match layer {
        Some(l) => {
            let FileLayer { origin, config } = l;
            apply_file_config(resolved, config, origin.as_str(), source, project)
        },
        None => Ok(()),
    }
}

/// Resolves every layer in precedence order: defaults, the user file, the
/// project file, the environment, then the command line. A later layer wins
/// for every key it sets; the first refused layer refuses the whole.
pub fn resolve_layers(
    user: Option<FileLayer>,
    project: Option<FileLayer>,
    environment: &Vec<(Vec<u8>, Vec<u8>)>,
    account: Option<Identifier>,
    profile: Option<Identifier>,
) -> (r: Result<ResolvedConfig, ConfigError>)
    ensures
        r is Ok <==> layer_accepted(user, false) && layer_accepted(project, true)
            && forall|i: int| 0 <= i < environment@.len() ==> !refused_entry(#[trigger] entries(environment@)[i]),
        r matches Ok(c) ==> {
            let vars = entries(environment@);
            let n = environment@.len() as int;
            let ec = last_named(vars, utf8(child_bin_variable()), n);
            let ea = last_named(vars, utf8(account_variable()), n);
            let ep = last_named(vars, utf8(profile_variable()), n);
            &&& if ec >= 0 {
                c.child_bin.value matches Some(b) && b@ == vars[ec].1 && c.child_bin.source == Source::Environment
            } else if layer_child_bin(user) is Some {
                c.child_bin.value matches Some(b) && Some(b@) == layer_child_bin(user)
                    && c.child_bin.source == Source::User
            } else {
                c.child_bin.value is None && c.child_bin.source == Source::Default
            }
            &&& match account {
                Some(a) => holds_identifier(c.default_account, a@, Source::Cli),
                None => if ea >= 0 {
                    holds_identifier(c.default_account, ascii_text(vars[ea].1), Source::Environment)
                } else if layer_account(user) is Some {
                    holds_identifier(c.default_account, layer_account(user).unwrap(), Source::User)
                } else {
                    c.default_account.value is None && c.default_account.source == Source::Default
                },
            }
            &&& match profile {
                Some(p) => holds_identifier(c.default_profile, p@, Source::Cli),
                None => if ep >= 0 {
                    holds_identifier(c.default_profile, ascii_text(vars[ep].1), Source::Environment)
                } else if layer_profile(project) is Some {
                    holds_identifier(c.default_profile, layer_profile(project).unwrap(), Source::Project)
                } else if layer_profile(user) is Some {
                    holds_identifier(c.default_profile, layer_profile(user).unwrap(), Source::User)
                } else {
                    c.default_profile.value is None && c.default_profile.source == Source::Default
                },
            }
        },
{
    let mut resolved = ResolvedConfig::defaults();
    apply_layer(&mut resolved, user, Source::User, false)?;
    apply_layer(&mut resolved, project, Source::Project, true)?;
    apply_environment(&mut resolved, environment)?;
    apply_overrides(&mut resolved, account, profile);
    Ok(resolved)
}


/// The walk from the working directory up, from position `i`, with the
/// project file found so far: the first project file met counts, and the walk
/// answers at the first repository root; reaching the top without one there
/// is no project layer at all.
pub open spec fn project_walk(levels: Seq<(bool, bool)>, i: int, candidate: Option<int>) -> Option<int>
    decreases levels.len() - i,
{
    if i < 0 || i >= levels.len() {
        None
    } else {
        let found = if candidate is None && levels[i].0 { Some(i) } else { candidate };
        if levels[i].1 {
            found
        } else {
            project_walk(levels, i + 1, found)
        }
    }
}

/// Finds the project file within the nearest repository from what each
/// directory on the walk up holds: a project file, and a repository marker.
/// Outside a repository there is no project layer, so a file in the home
/// directory cannot apply to every unrelated tree.
pub fn discover_project(levels: &Vec<(bool, bool)>) -> (r: Option<usize>)
    ensures
        match project_walk(levels@, 0, None) {
            Some(f) => r == Some(f as usize),
            None => r is None,
        },
{
    let mut candidate: Option<usize> = None;
    let mut i: usize = 0;
    while i < levels.len()
        invariant
            i <= levels@.len(),
            candidate matches Some(c) ==> c < i,
            project_walk(levels@, 0, None) == project_walk(levels@, i as int, match candidate {
                Some(c) => Some(c as int),
                None => None::<int>,
            }),
        decreases levels.len() - i,
    {
        if candidate.is_none() && levels[i].0 {
            candidate = Some(i);
        }
        if levels[i].1 {
            return candidate;
        }
        i = i + 1;
    }
    None
}

} // verus!
