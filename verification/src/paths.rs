//! Absolute XDG-owned application paths, as the bytes of Unix paths.

use vstd::prelude::*;

use crate::encoding::{bytes_are, copy_bytes, utf8, utf8_bytes};
use crate::error::{owned, DomainError};
use crate::identifier::Identifier;
use crate::encoding::{ascii_text, decode_utf8, lemma_ascii_bytes_decode, lemma_utf8_of_ascii};
use crate::identifier::is_tail_char;
use crate::resolve::{entries, identifier_bytes, last_named, lemma_identifier_bytes_are_ascii};
use crate::text::push_str;

verus! {

/// The directory name every XDG base is namespaced under.
pub open spec fn namespace_dir() -> Seq<char> {
    "session-wrapper"@
}

/// The child's own user-scope configuration directory, relative to `$HOME`.
pub open spec fn child_config_dir() -> Seq<char> {
    ".agent"@
}

/// Whether a path is absolute: it begins at the root.
pub open spec fn is_absolute(p: Seq<u8>) -> bool {
    p.len() > 0 && p[0] == 0x2F
}

/// What `PathBuf::push` makes of a base and a component: an absolute
/// component replaces the base; otherwise one separator is put between them
/// unless the base is empty or already ends in one.
pub open spec fn join_spec(base: Seq<u8>, name: Seq<u8>) -> Seq<u8> {
    if is_absolute(name) {
        name
    } else if base.len() > 0 && base.last() != 0x2F {
        base + seq![0x2Fu8] + name
    } else {
        base + name
    }
}

/// A base joined with the UTF-8 bytes of a text.
pub open spec fn join_text(base: Seq<u8>, name: Seq<char>) -> Seq<u8> {
    join_spec(base, utf8(name))
}

/// Joins a path and a component the way `PathBuf::push` does.
pub fn join_bytes(base: &Vec<u8>, name: Vec<u8>) -> (r: Vec<u8>)
    ensures
        r@ == join_spec(base@, name@),
{
    if name.len() > 0 && name[0] == 0x2F {
        return name;
    }
    let mut out = copy_bytes(base);
    if out.len() > 0 && out[out.len() - 1] != 0x2F {
        out.push(0x2F);
    }
    let mut more = name;
    out.append(&mut more);
    out
}

/// Joins a path and a text component.
pub fn join(base: &Vec<u8>, name: &str) -> (r: Vec<u8>)
    ensures
        r@ == join_text(base@, name@),
{
    join_bytes(base, utf8_bytes(name))
}

/// The value of the last entry with the given name.
pub open spec fn last_value(vars: Seq<(Seq<u8>, Seq<u8>)>, name: Seq<char>) -> Option<Seq<u8>> {
    let i = last_named(vars, utf8(name), vars.len() as int);
    if i >= 0 {
        Some(vars[i].1)
    } else {
        None
    }
}

/// Finds the value of the last entry with the given name.
pub fn find_last<'a>(environment: &'a Vec<(Vec<u8>, Vec<u8>)>, name: &str) -> (r: Option<&'a Vec<u8>>)
    ensures
        match last_value(entries(environment@), name@) {
            Some(v) => r matches Some(x) && x@ == v,
            None => r is None,
        },
{
    let ghost vars = entries(environment@);
    let mut i: usize = environment.len();
    while i > 0
        invariant
            vars == entries(environment@),
            i <= environment@.len(),
            last_named(vars, utf8(name@), vars.len() as int) == last_named(vars, utf8(name@), i as int),
        decreases i,
    {
        assert(vars[i - 1] == (environment@[i - 1].0@, environment@[i - 1].1@));
        if bytes_are(&environment[i - 1].0, name) {
            return Some(&environment[i - 1].1);
        }
        i = i - 1;
    }
    None
}

/// The base a variable names when it is set to an absolute path, or the
/// fallback under `$HOME`.
pub open spec fn xdg_base(vars: Seq<(Seq<u8>, Seq<u8>)>, name: Seq<char>, fallback: Seq<char>, home: Seq<u8>) -> Seq<u8> {
    match last_value(vars, name) {
        Some(v) => if is_absolute(v) { v } else { join_text(home, fallback) },
        None => join_text(home, fallback),
    }
}

/// The five roots: configuration, state, data and cache namespaces, and the
/// child's native configuration directory.
pub type Roots = (Seq<u8>, Seq<u8>, Seq<u8>, Seq<u8>, Seq<u8>);

/// The roots an environment resolves to, or nothing when `$HOME` is unset or
/// not absolute.
pub open spec fn roots_of(vars: Seq<(Seq<u8>, Seq<u8>)>) -> Option<Roots> {
    match last_value(vars, "HOME"@) {
        Some(home) => if is_absolute(home) {
            Some(
                (
                    join_text(xdg_base(vars, "XDG_CONFIG_HOME"@, ".config"@, home), namespace_dir()),
                    join_text(xdg_base(vars, "XDG_STATE_HOME"@, ".local/state"@, home), namespace_dir()),
                    join_text(xdg_base(vars, "XDG_DATA_HOME"@, ".local/share"@, home), namespace_dir()),
                    join_text(xdg_base(vars, "XDG_CACHE_HOME"@, ".cache"@, home), namespace_dir()),
                    join_text(home, child_config_dir()),
                ),
            )
        } else {
            None
        },
        None => None,
    }
}

/// The position of the first `/` in `p` at or after `from`, or the end.
pub open spec fn slash_from(p: Seq<u8>, from: int) -> int
    decreases p.len() - from,
{
    if from >= p.len() {
        p.len() as int
    } else if p[from] == 0x2F {
        from
    } else {
        slash_from(p, from + 1)
    }
}

/// The first separator from a position lies between it and the end.
pub proof fn lemma_slash_from(p: Seq<u8>, from: int)
    requires
        0 <= from,
    ensures
        from <= slash_from(p, from) || from > p.len(),
        slash_from(p, from) <= p.len() || from > p.len(),
        from <= p.len() ==> forall|k: int| from <= k < slash_from(p, from) ==> p[k] != 0x2F,
        slash_from(p, from) < p.len() ==> p[slash_from(p, from)] == 0x2F,
    decreases p.len() - from,
{
    if from < p.len() && p[from] != 0x2F {
        lemma_slash_from(p, from + 1);
    }
}

/// The components of a path from `from` on, as `Path::components` yields
/// them past the root: the runs between separators, without empty runs and
/// without `.`.
pub open spec fn components_from(p: Seq<u8>, from: int) -> Seq<Seq<u8>>
    decreases p.len() + 1 - from,
{
    if from < 0 || from >= p.len() {
        Seq::empty()
    } else {
        proof {
            lemma_slash_from(p, from);
        }
        let end = slash_from(p, from);
        let run = p.subrange(from, end);
        let rest = components_from(p, end + 1);
        if run.len() == 0 || run == seq![0x2Eu8] {
            rest
        } else {
            seq![run] + rest
        }
    }
}

fn next_slash(p: &Vec<u8>, from: usize) -> (r: usize)
    requires
        from <= p@.len(),
    ensures
        r == slash_from(p@, from as int),
{
    let mut k = from;
    while k < p.len() && p[k] != 0x2F
        invariant
            from <= k <= p@.len(),
            slash_from(p@, from as int) == slash_from(p@, k as int),
        decreases p.len() - k,
    {
        k = k + 1;
    }
    k
}

fn components(p: &Vec<u8>) -> (r: Vec<Vec<u8>>)
    ensures
        r@.map_values(|c: Vec<u8>| c@) == components_from(p@, 0),
{
    let mut out: Vec<Vec<u8>> = Vec::new();
    let mut from: usize = 0;
    while from < p.len()
        invariant
            from <= p@.len(),
            out@.map_values(|c: Vec<u8>| c@) + components_from(p@, from as int) == components_from(p@, 0),
        decreases p.len() - from,
    {
        let end = next_slash(p, from);
        proof {
            lemma_slash_from(p@, from as int);
        }
        let mut run: Vec<u8> = Vec::new();
        let mut k = from;
        while k < end
            invariant
                from <= k <= end <= p@.len(),
                run@ == p@.subrange(from as int, k as int),
            decreases end - k,
        {
            run.push(p[k]);
            proof {
                assert(p@.subrange(from as int, k + 1) =~= p@.subrange(from as int, k as int).push(p@[k as int]));
            }
            k = k + 1;
        }
        let ghost before = out@.map_values(|c: Vec<u8>| c@);
        let ghost rest = components_from(p@, end + 1);
        if !(run.len() == 0 || (run.len() == 1 && run[0] == 0x2E)) {
            proof {
                assert(run@ != seq![0x2Eu8]);
            }
            out.push(run);
            proof {
                assert(out@.map_values(|c: Vec<u8>| c@) =~= before.push(p@.subrange(from as int, end as int)));
                assert(before.push(p@.subrange(from as int, end as int)) + rest =~= before + (seq![
                    p@.subrange(from as int, end as int),
                ] + rest));
            }
        } else {
            proof {
                if run.len() == 1 {
                    assert(run@ =~= seq![0x2Eu8]);
                }
            }
        }
        from = if end < p.len() { end + 1 } else { p.len() };
    }
    proof {
        assert(components_from(p@, from as int) =~= Seq::<Seq<u8>>::empty());
        assert(out@.map_values(|c: Vec<u8>| c@) + Seq::<Seq<u8>>::empty() =~= out@.map_values(|c: Vec<u8>| c@));
    }
    out
}

fn identifier_of(v: &Vec<u8>) -> (r: Option<Identifier>)
    ensures
        identifier_bytes(v@) ==> (r matches Some(id) && id@ == ascii_text(v@)),
        !identifier_bytes(v@) ==> r is None,
{
    match decode_utf8(v.as_slice()) {
        None => {
            proof {
                if identifier_bytes(v@) {
                    lemma_identifier_bytes_are_ascii(v@);
                    crate::encoding::lemma_ascii_is_utf8(v@);
                }
            }
            None
        },
        Some(text) => match Identifier::parse(text.as_str()) {
            Ok(id) => {
                proof {
                    assert forall|i: int| 0 <= i < text@.len() implies (#[trigger] text@[i] as u32) < 0x80 by {
                        if i > 0 {
                            assert(is_tail_char(text@[i]));
                        }
                    }
                    lemma_utf8_of_ascii(text@);
                }
                Some(id)
            },
            Err(_) => {
                proof {
                    if identifier_bytes(v@) {
                        lemma_identifier_bytes_are_ascii(v@);
                        lemma_ascii_bytes_decode(text@);
                    }
                }
                None
            },
        },
    }
}

/// The boot and namespace a link into some peers root names: its last three
/// components are `peers`, then two identifiers.
pub open spec fn adopted_scope(target: Seq<u8>) -> Option<(Seq<char>, Seq<char>)> {
    let c = components_from(target, 0);
    let n = c.len() as int;
    if n >= 3 && c[n - 3] == utf8("peers"@) && identifier_bytes(c[n - 2]) && identifier_bytes(c[n - 1]) {
        Some((ascii_text(c[n - 2]), ascii_text(c[n - 1])))
    } else {
        None
    }
}

/// Absolute XDG namespace paths owned by the wrapper.
#[derive(Debug)]
pub struct XdgPaths {
    config: Vec<u8>,
    state: Vec<u8>,
    data: Vec<u8>,
    cache: Vec<u8>,
    child_config: Vec<u8>,
}

impl View for XdgPaths {
    type V = Roots;

    closed spec fn view(&self) -> Roots {
        (self.config@, self.state@, self.data@, self.cache@, self.child_config@)
    }
}

fn base(environment: &Vec<(Vec<u8>, Vec<u8>)>, name: &str, fallback: &str, home: &Vec<u8>) -> (r: Vec<u8>)
    ensures
        r@ == xdg_base(entries(environment@), name@, fallback@, home@),
{
    match find_last(environment, name) {
        Some(v) => if v.len() > 0 && v[0] == 0x2F {
            copy_bytes(v)
        } else {
            join(home, fallback)
        },
        None => join(home, fallback),
    }
}

/// The text `.` + name + suffix, as bytes.
pub open spec fn dotted(name: Seq<char>, suffix: Seq<char>) -> Seq<char> {
    seq!['.'] + name + suffix
}

fn text_of(prefix: &str, name: &str, suffix: &str) -> (r: String)
    ensures
        r@ == prefix@ + name@ + suffix@,
{
    let mut s = owned(prefix);
    push_str(&mut s, name);
    push_str(&mut s, suffix);
    s
}

impl XdgPaths {
    /// Resolves all four bases from an environment snapshot. `$HOME` is
    /// required, and required to be absolute, whether or not a base falls
    /// back to it: the skill source is `$HOME` joined with the child's own
    /// directory, and a relative one would be read against the working
    /// directory and then stored.
    pub fn resolve(environment: &Vec<(Vec<u8>, Vec<u8>)>) -> (r: Result<XdgPaths, DomainError>)
        ensures
            match roots_of(entries(environment@)) {
                Some(v) => r matches Ok(p) && p@ == v,
                None => r matches Err(DomainError::MissingHome),
            },
    {
        let home = match find_last(environment, "HOME") {
            Some(h) => h,
            None => return Err(DomainError::MissingHome),
        };
        if !(home.len() > 0 && home[0] == 0x2F) {
            return Err(DomainError::MissingHome);
        }
        let config = join(&base(environment, "XDG_CONFIG_HOME", ".config", home), "session-wrapper");
        let state = join(&base(environment, "XDG_STATE_HOME", ".local/state", home), "session-wrapper");
        let data = join(&base(environment, "XDG_DATA_HOME", ".local/share", home), "session-wrapper");
        let cache = join(&base(environment, "XDG_CACHE_HOME", ".cache", home), "session-wrapper");
        let child_config = join(home, ".agent");
        Ok(XdgPaths { config, state, data, cache, child_config })
    }

    /// Returns the configuration namespace.
    pub fn config(&self) -> (r: &Vec<u8>)
        ensures
            r@ == self@.0,
    {
        &self.config
    }

    /// Returns the state namespace.
    pub fn state(&self) -> (r: &Vec<u8>)
        ensures
            r@ == self@.1,
    {
        &self.state
    }

    /// Returns the data namespace.
    pub fn data(&self) -> (r: &Vec<u8>)
        ensures
            r@ == self@.2,
    {
        &self.data
    }

    /// Returns the cache namespace.
    pub fn cache(&self) -> (r: &Vec<u8>)
        ensures
            r@ == self@.3,
    {
        &self.cache
    }

    /// Returns the user's machine-local tree of child assets.
    pub fn assets(&self) -> (r: Vec<u8>)
        ensures
            r@ == join_text(self@.2, "assets"@),
    {
        join(&self.data, "assets")
    }

    /// Returns the skill directory the child reads when nothing relocates it.
    pub fn child_skills(&self) -> (r: Vec<u8>)
        ensures
            r@ == join_text(self@.4, "skills"@),
    {
        join(&self.child_config, "skills")
    }

    /// Returns the machine-local read-only tree of child plugins.
    pub fn plugin_seed(&self) -> (r: Vec<u8>)
        ensures
            r@ == join_text(self@.2, "plugin-seed"@),
    {
        join(&self.data, "plugin-seed")
    }

    /// Returns the accounts collection directory.
    pub fn accounts(&self) -> (r: Vec<u8>)
        ensures
            r@ == join_text(self@.1, "accounts"@),
    {
        join(&self.state, "accounts")
    }

    /// Returns one account's directory.
    pub fn account(&self, account: &Identifier) -> (r: Vec<u8>)
        ensures
            r@ == join_text(join_text(self@.1, "accounts"@), account@),
    {
        join(&self.accounts(), account.as_str())
    }

    /// Returns the child-owned native configuration directory for one account.
    pub fn account_config(&self, account: &Identifier) -> (r: Vec<u8>)
        ensures
            r@ == join_text(join_text(join_text(self@.1, "accounts"@), account@), "config"@),
    {
        join(&self.account(account), "config")
    }

    /// Returns the collection of one account's per-terminal state directories.
    pub fn account_sessions(&self, account: &Identifier) -> (r: Vec<u8>)
        ensures
            r@ == join_text(join_text(join_text(self@.1, "accounts"@), account@), "sessions"@),
    {
        join(&self.account(account), "sessions")
    }

    /// Returns the namespace directory one account's terminals are grouped by.
    pub fn account_namespace(&self, account: &Identifier, namespace: &Identifier) -> (r: Vec<u8>)
        ensures
            r@ == join_text(join_text(join_text(join_text(self@.1, "accounts"@), account@), "sessions"@), namespace@),
    {
        join(&self.account_sessions(account), namespace.as_str())
    }

    /// Returns the child state directory for one account and one terminal.
    pub fn account_session(&self, account: &Identifier, namespace: &Identifier, terminal: &Identifier) -> (r: Vec<u8>)
        ensures
            r@ == join_text(
                join_text(join_text(join_text(join_text(self@.1, "accounts"@), account@), "sessions"@), namespace@),
                terminal@,
            ),
    {
        join(&self.account_namespace(account, namespace), terminal.as_str())
    }

    /// Returns the projects tree every terminal of one account shares.
    pub fn account_projects(&self, account: &Identifier) -> (r: Vec<u8>)
        ensures
            r@ == join_text(join_text(join_text(join_text(self@.1, "accounts"@), account@), "config"@), "projects"@),
    {
        join(&self.account_config(account), "projects")
    }

    /// Returns the child's own configuration file inside one session directory.
    pub fn session_native_config(&self, account: &Identifier, namespace: &Identifier, terminal: &Identifier) -> (r: Vec<u8>)
        ensures
            r@ == join_text(
                join_text(
                    join_text(join_text(join_text(join_text(self@.1, "accounts"@), account@), "sessions"@), namespace@),
                    terminal@,
                ),
                ".agent.json"@,
            ),
    {
        join(&self.account_session(account, namespace, terminal), ".agent.json")
    }

    /// Returns the shared-projects link inside one session directory.
    pub fn session_projects_link(&self, account: &Identifier, namespace: &Identifier, terminal: &Identifier) -> (r: Vec<u8>)
        ensures
            r@ == join_text(
                join_text(
                    join_text(join_text(join_text(join_text(self@.1, "accounts"@), account@), "sessions"@), namespace@),
                    terminal@,
                ),
                "projects"@,
            ),
    {
        join(&self.account_session(account, namespace, terminal), "projects")
    }

    /// Returns the peer-registry link inside one session directory; the name
    /// is the child's own, which makes it read the shared registry.
    pub fn session_registry_link(&self, account: &Identifier, namespace: &Identifier, terminal: &Identifier) -> (r: Vec<u8>)
        ensures
            r@ == join_text(
                join_text(
                    join_text(join_text(join_text(join_text(self@.1, "accounts"@), account@), "sessions"@), namespace@),
                    terminal@,
                ),
                "sessions"@,
            ),
    {
        join(&self.account_session(account, namespace, terminal), "sessions")
    }

    /// Returns the witness marker recorded beside one session directory.
    pub fn session_witness(&self, account: &Identifier, namespace: &Identifier, terminal: &Identifier) -> (r: Vec<u8>)
        ensures
            r@ == join_text(
                join_text(join_text(join_text(join_text(self@.1, "accounts"@), account@), "sessions"@), namespace@),
                "."@ + terminal@ + ".witness.json"@,
            ),
    {
        let name = text_of(".", terminal.as_str(), ".witness.json");
        join(&self.account_namespace(account, namespace), name.as_str())
    }

    /// Returns the root every peer-registry scope lives under.
    pub fn peers(&self) -> (r: Vec<u8>)
        ensures
            r@ == join_text(self@.1, "peers"@),
    {
        join(&self.state, "peers")
    }

    /// Returns the peer registry one boot-and-namespace scope shares.
    pub fn peer_registry(&self, boot: &Identifier, namespace: &Identifier) -> (r: Vec<u8>)
        ensures
            r@ == join_text(join_text(join_text(self@.1, "peers"@), boot@), namespace@),
    {
        join(&join(&self.peers(), boot.as_str()), namespace.as_str())
    }

    /// Re-anchors a registry a session's own link names under this run's
    /// peers root. The target is never opened: its last three components are
    /// read, and the path built is one of this run's own.
    pub fn adopted_registry(&self, target: &Vec<u8>) -> (r: Option<Vec<u8>>)
        ensures
            match adopted_scope(target@) {
                Some((boot, namespace)) => r matches Some(p)
                    && p@ == join_text(join_text(join_text(self@.1, "peers"@), boot), namespace),
                None => r is None,
            },
    {
        let parts = components(target);
        let n = parts.len();
        if n < 3 {
            return None;
        }
        proof {
            let c = components_from(target@, 0);
            assert(parts@[n - 3]@ == c[n - 3]);
            assert(parts@[n - 2]@ == c[n - 2]);
            assert(parts@[n - 1]@ == c[n - 1]);
        }
        if !bytes_are(&parts[n - 3], "peers") {
            return None;
        }
        let boot = match identifier_of(&parts[n - 2]) {
            Some(id) => id,
            None => return None,
        };
        let namespace = match identifier_of(&parts[n - 1]) {
            Some(id) => id,
            None => return None,
        };
        Some(self.peer_registry(&boot, &namespace))
    }

    /// Returns one account's authentication-mode metadata.
    pub fn account_auth_mode(&self, account: &Identifier) -> (r: Vec<u8>)
        ensures
            r@ == join_text(join_text(join_text(self@.1, "accounts"@), account@), "auth-mode.json"@),
    {
        join(&self.account(account), "auth-mode.json")
    }

    /// Returns one account's profile binding.
    pub fn account_profile(&self, account: &Identifier) -> (r: Vec<u8>)
        ensures
            r@ == join_text(join_text(join_text(self@.1, "accounts"@), account@), "profile.json"@),
    {
        join(&self.account(account), "profile.json")
    }

    /// Returns one account's wrapper-owned token path.
    pub fn account_oauth_token(&self, account: &Identifier) -> (r: Vec<u8>)
        ensures
            r@ == join_text(join_text(join_text(self@.1, "accounts"@), account@), "oauth-token"@),
    {
        join(&self.account(account), "oauth-token")
    }

    /// Returns one account's credential lock file, beside the account so
    /// removal cannot destroy the inode that excludes a concurrent login.
    pub fn account_credentials_lock(&self, account: &Identifier) -> (r: Vec<u8>)
        ensures
            r@ == join_text(join_text(self@.1, "accounts"@), "."@ + account@ + ".lock"@),
    {
        let name = text_of(".", account.as_str(), ".lock");
        join(&self.accounts(), name.as_str())
    }

    /// Returns the child-owned saved-login path without opening it.
    pub fn account_credentials(&self, account: &Identifier) -> (r: Vec<u8>)
        ensures
            r@ == join_text(join_text(join_text(join_text(self@.1, "accounts"@), account@), "config"@), ".credentials.json"@),
    {
        join(&self.account_config(account), ".credentials.json")
    }

    /// Returns the last-used account marker.
    pub fn last_account(&self) -> (r: Vec<u8>)
        ensures
            r@ == join_text(join_text(self@.1, "state"@), "last-account"@),
    {
        join(&join(&self.state, "state"), "last-account")
    }

    /// Returns the composed-settings store directory.
    pub fn composed(&self) -> (r: Vec<u8>)
        ensures
            r@ == join_text(self@.1, "composed"@),
    {
        join(&self.state, "composed")
    }

    /// Returns the directory holding one profile document per profile.
    pub fn profiles(&self) -> (r: Vec<u8>)
        ensures
            r@ == join_text(self@.0, "profiles"@),
    {
        join(&self.config, "profiles")
    }

    /// Returns the profile document for one profile name.
    pub fn profile_file(&self, profile: &Identifier) -> (r: Vec<u8>)
        ensures
            r@ == join_text(join_text(self@.0, "profiles"@), profile@ + ".yaml"@),
    {
        let mut name = owned(profile.as_str());
        push_str(&mut name, ".yaml");
        join(&self.profiles(), name.as_str())
    }

    /// Returns the settings piece file for one piece name.
    pub fn piece_file(&self, piece: &Identifier) -> (r: Vec<u8>)
        ensures
            r@ == join_text(join_text(self@.0, "settings"@), piece@ + ".json"@),
    {
        let mut name = owned(piece.as_str());
        push_str(&mut name, ".json");
        join(&join(&self.config, "settings"), name.as_str())
    }
}

} // verus!
