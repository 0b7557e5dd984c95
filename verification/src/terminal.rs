//! Naming the terminal one run's child state directory belongs to.
//!
//! What the operating system says about a run's terminal becomes one path
//! component, unique inside the namespace that issued it.

use vstd::prelude::*;

use crate::digest::{sha256, sha256_spec};
use crate::identifier::{is_identifier, Identifier};
use crate::namespace::Namespace;
use crate::text::{decimal, hex_of, hex_string, push_char, push_chars, push_decimal, push_str};

verus! {

/// Which rung of the ladder named this run's terminal.
#[derive(Clone, Copy, Debug, PartialEq, Eq, Structural)]
pub enum Source {
    /// The pane's own pseudo-terminal, which survives detach and reattach.
    Tty,
    /// The session leader, for a run with no controlling terminal.
    SessionLeader,
}

impl Source {
    /// Returns the phrase a report uses for this rung.
    pub fn as_str(self) -> (r: &'static str)
        ensures
            r@ == (match self {
                Source::Tty => "its controlling terminal"@,
                Source::SessionLeader => "the session it leads, having no controlling terminal"@,
            }),
    {
        match self {
            Source::Tty => "its controlling terminal",
            Source::SessionLeader => "the session it leads, having no controlling terminal",
        }
    }
}

/// The device prefix every terminal path carries.
pub open spec fn dev_prefix() -> Seq<u8> {
    seq![0x2Fu8, 0x64u8, 0x65u8, 0x76u8, 0x2Fu8]
}

/// A device path without its `/dev/` prefix, when it has one.
pub open spec fn strip_dev(d: Seq<u8>) -> Seq<u8> {
    if d.len() >= 5 && d.take(5) == dev_prefix() {
        d.skip(5)
    } else {
        d
    }
}

/// A byte with ASCII upper case mapped to lower case.
pub open spec fn lower_byte(b: u8) -> u8 {
    if 0x41 <= b <= 0x5A {
        (b + 32) as u8
    } else {
        b
    }
}

/// A byte the identifier grammar keeps: a lowercase letter, a digit or `_`.
pub open spec fn is_grammar_byte(b: u8) -> bool {
    (0x61 <= b <= 0x7A) || (0x30 <= b <= 0x39) || b == 0x5F
}

/// The character one device byte maps to: itself in lower case when the
/// grammar keeps it, else `-`.
pub open spec fn map_byte(b: u8) -> char {
    if is_grammar_byte(lower_byte(b)) {
        lower_byte(b) as char
    } else {
        '-'
    }
}

/// A device's bytes, each mapped.
pub open spec fn mapped(t: Seq<u8>) -> Seq<char> {
    t.map_values(|b: u8| map_byte(b))
}

/// A character trimmed from both ends of a mapped name.
pub open spec fn is_edge(c: char) -> bool {
    c == '-' || c == '_'
}

/// The first index at or after `k` that is not an edge character, or the length.
pub open spec fn first_inner(t: Seq<char>, k: int) -> int
    decreases t.len() - k,
{
    if k >= t.len() {
        t.len() as int
    } else if is_edge(t[k]) {
        first_inner(t, k + 1)
    } else {
        k
    }
}

/// The end of `t.take(k)` once trailing edge characters are removed.
pub open spec fn last_inner(t: Seq<char>, k: int) -> int
    decreases k,
{
    if k <= 0 {
        0
    } else if is_edge(t[k - 1]) {
        last_inner(t, k - 1)
    } else {
        k
    }
}

/// A mapped name without leading and trailing `-` and `_`.
pub open spec fn trim_edges(t: Seq<char>) -> Seq<char> {
    let a = first_inner(t, 0);
    if a >= t.len() {
        Seq::empty()
    } else {
        t.subrange(a, last_inner(t, t.len() as int))
    }
}

/// A byte inside the domain where the mapping loses nothing.
pub open spec fn is_reversible_byte(b: u8) -> bool {
    (0x61 <= b <= 0x7A) || (0x30 <= b <= 0x39) || b == 0x5F || b == 0x2F
}

/// Whether the whole transformation loses nothing about this device: every
/// byte is in the reversible domain and nothing was trimmed.
pub open spec fn reversible(t: Seq<u8>) -> bool {
    (forall|i: int| 0 <= i < t.len() ==> is_reversible_byte(#[trigger] t[i]))
        && trim_edges(mapped(t)).len() == mapped(t).len()
}

/// The name a device path gives: the trimmed mapping itself when the mapping
/// is reversible, else followed by a fingerprint of the device's own bytes.
pub open spec fn tty_name(device: Seq<u8>) -> Seq<char> {
    let t = strip_dev(device);
    let candidate = trim_edges(mapped(t));
    if reversible(t) {
        candidate
    } else {
        candidate + seq!['-'] + hex_of(sha256_spec(t).take(8))
    }
}

/// The name a session leader gives: its id and its start time, in decimal.
pub open spec fn leader_name(sid: u32, started: u64) -> Seq<char> {
    "sid-"@ + decimal(sid as nat) + seq!['-'] + decimal(started as nat)
}

/// One run's terminal: the path component, the namespace it is unique inside,
/// and the rung that named it.
#[derive(Debug)]
pub struct Terminal {
    id: Identifier,
    namespace: Namespace,
    source: Source,
}

fn map_one(b: u8) -> (r: char)
    ensures
        r == map_byte(b),
{
    let lowered: u8 = if 0x41 <= b && b <= 0x5A { b + 32 } else { b };
    if (0x61 <= lowered && lowered <= 0x7A) || (0x30 <= lowered && lowered <= 0x39) || lowered == 0x5F {
        lowered as char
    } else {
        '-'
    }
}

fn edge(c: char) -> (r: bool)
    ensures
        r == is_edge(c),
{
    c == '-' || c == '_'
}

proof fn lemma_first_inner(t: Seq<char>, k: int)
    requires
        0 <= k <= t.len(),
    ensures
        k <= first_inner(t, k) <= t.len(),
        first_inner(t, k) < t.len() ==> !is_edge(t[first_inner(t, k)]),
        forall|i: int| k <= i < first_inner(t, k) ==> is_edge(t[i]),
    decreases t.len() - k,
{
    if k < t.len() && is_edge(t[k]) {
        lemma_first_inner(t, k + 1);
    }
}

proof fn lemma_last_inner(t: Seq<char>, k: int)
    requires
        0 <= k <= t.len(),
    ensures
        0 <= last_inner(t, k) <= k,
        last_inner(t, k) > 0 ==> !is_edge(t[last_inner(t, k) - 1]),
        forall|i: int| last_inner(t, k) <= i < k ==> is_edge(t[i]),
    decreases k,
{
    if k > 0 && is_edge(t[k - 1]) {
        lemma_last_inner(t, k - 1);
    }
}

/// Maps a device path onto the identifier grammar, or gives up when the
/// result still cannot be an identifier; it never truncates.
fn sanitize(device: &[u8]) -> (r: Option<Identifier>)
    ensures
        is_identifier(tty_name(device@)) ==> (r matches Some(id) && id@ == tty_name(device@)),
        !is_identifier(tty_name(device@)) ==> r is None,
{
    let n = device.len();
    let has_prefix = n >= 5 && device[0] == 0x2F && device[1] == 0x64 && device[2] == 0x65
        && device[3] == 0x76 && device[4] == 0x2F;
    let start: usize = if has_prefix { 5 } else { 0 };
    proof {
        if has_prefix {
            assert(device@.take(5) =~= dev_prefix());
        } else if n >= 5 {
            assert(device@.take(5) != dev_prefix()) by {
                if device@.take(5) == dev_prefix() {
                    assert(device@.take(5)[0] == device@[0]);
                    assert(device@.take(5)[1] == device@[1]);
                    assert(device@.take(5)[2] == device@[2]);
                    assert(device@.take(5)[3] == device@[3]);
                    assert(device@.take(5)[4] == device@[4]);
                }
            }
        }
        assert(strip_dev(device@) =~= device@.skip(start as int));
    }
    let ghost t = device@.skip(start as int);
    let mut trimmed: Vec<u8> = Vec::new();
    let mut chars: Vec<char> = Vec::new();
    let mut in_domain = true;
    let mut i: usize = start;
    while i < n
        invariant
            start <= i <= n,
            n == device@.len(),
            t == device@.skip(start as int),
            trimmed@ == t.take(i - start),
            chars@ == mapped(t.take(i - start)),
            in_domain == (forall|k: int| 0 <= k < i - start ==> is_reversible_byte(#[trigger] t[k])),
        decreases n - i,
    {
        let b = device[i];
        proof {
            assert(t[i - start] == b);
        }
        trimmed.push(b);
        chars.push(map_one(b));
        let ok = (0x61 <= b && b <= 0x7A) || (0x30 <= b && b <= 0x39) || b == 0x5F || b == 0x2F;
        if !ok {
            in_domain = false;
        }
        proof {
            assert(t.take(i + 1 - start) =~= t.take(i - start).push(b));
            assert(mapped(t.take(i + 1 - start)) =~= mapped(t.take(i - start)).push(map_byte(b)));
        }
        i = i + 1;
    }
    proof {
        assert(t.take(n - start) =~= t);
    }
    let m = chars.len();
    let mut a: usize = 0;
    while a < m && edge(chars[a])
        invariant
            m == chars@.len(),
            a <= m,
            first_inner(chars@, 0) == first_inner(chars@, a as int),
        decreases m - a,
    {
        a = a + 1;
    }
    let mut b: usize = m;
    while b > 0 && edge(chars[b - 1])
        invariant
            m == chars@.len(),
            b <= m,
            last_inner(chars@, m as int) == last_inner(chars@, b as int),
        decreases b,
    {
        b = b - 1;
    }
    proof {
        assert(first_inner(chars@, a as int) == a as int);
        assert(last_inner(chars@, b as int) == b as int);
    }
    let mut candidate: Vec<char> = Vec::new();
    if a < m {
        proof {
            lemma_first_inner(chars@, 0);
            lemma_last_inner(chars@, m as int);
            if b <= a {
                assert(is_edge(chars@[a as int]));
            }
        }
        let mut k: usize = a;
        while k < b
            invariant
                a <= k <= b <= m,
                m == chars@.len(),
                candidate@ == chars@.subrange(a as int, k as int),
            decreases b - k,
        {
            candidate.push(chars[k]);
            proof {
                assert(chars@.subrange(a as int, k + 1) =~= chars@.subrange(a as int, k as int).push(chars@[k as int]));
            }
            k = k + 1;
        }
    }
    proof {
        assert(candidate@ =~= trim_edges(mapped(t)));
    }
    let mut text = String::new();
    push_chars(&mut text, &candidate);
    if !(in_domain && candidate.len() == m) {
        let digest = sha256(trimmed.as_slice());
        let mut head: Vec<u8> = Vec::new();
        let mut j: usize = 0;
        while j < 8
            invariant
                digest@.len() == 32,
                j <= 8,
                head@ == digest@.take(j as int),
            decreases 8 - j,
        {
            head.push(digest[j]);
            proof {
                assert(digest@.take(j + 1) =~= digest@.take(j as int).push(digest@[j as int]));
            }
            j = j + 1;
        }
        push_char(&mut text, '-');
        push_str(&mut text, hex_string(head.as_slice()).as_str());
    }
    proof {
        assert(text@ =~= tty_name(device@));
    }
    match Identifier::parse(text.as_str()) {
        Ok(id) => Some(id),
        Err(_) => None,
    }
}

impl Terminal {
    /// The path component.
    pub closed spec fn id_spec(&self) -> Seq<char> {
        self.id@
    }

    /// The namespace component the name is unique inside.
    pub closed spec fn namespace_spec(&self) -> Seq<char> {
        self.namespace.id_spec()
    }

    /// The rung that named the terminal.
    pub closed spec fn source_spec(&self) -> Source {
        self.source
    }

    /// Borrows the validated path component.
    pub fn id(&self) -> (r: &Identifier)
        ensures
            r@ == self.id_spec(),
    {
        &self.id
    }

    /// Borrows the namespace this terminal's name is unique inside.
    pub fn namespace(&self) -> (r: &Namespace)
        ensures
            r.id_spec() == self.namespace_spec(),
    {
        &self.namespace
    }

    /// Returns the rung that named this terminal.
    pub fn source(&self) -> (r: Source)
        ensures
            r == self.source_spec(),
    {
        self.source
    }

    /// Names a terminal from the controlling terminal's device path, or
    /// nothing when no identifier survives, so the caller falls to the next
    /// rung instead of storing state under a name two devices could share.
    pub fn from_tty(namespace: Namespace, device: &[u8]) -> (r: Option<Terminal>)
        ensures
            is_identifier(tty_name(device@)) ==> (r matches Some(t) && t.id_spec() == tty_name(device@)
                && t.source_spec() == Source::Tty && t.namespace_spec() == namespace.id_spec()),
            !is_identifier(tty_name(device@)) ==> r is None,
    {
        match sanitize(device) {
            Some(id) => Some(Terminal { id, namespace, source: Source::Tty }),
            None => None,
        }
    }

    /// Names a terminal from the session leader and the time it started; the
    /// start time stops a recycled process id inheriting a directory.
    pub fn from_session_leader(namespace: Namespace, sid: u32, started: u64) -> (r: Option<Terminal>)
        ensures
            is_identifier(leader_name(sid, started)) ==> (r matches Some(t) && t.id_spec() == leader_name(sid, started)
                && t.source_spec() == Source::SessionLeader && t.namespace_spec() == namespace.id_spec()),
            !is_identifier(leader_name(sid, started)) ==> r is None,
    {
        let mut text = String::new();
        push_str(&mut text, "sid-");
        push_decimal(&mut text, sid as u64);
        push_char(&mut text, '-');
        push_decimal(&mut text, started);
        proof {
            assert(text@ =~= leader_name(sid, started));
        }
        match Identifier::parse(text.as_str()) {
            Ok(id) => Some(Terminal { id, namespace, source: Source::SessionLeader }),
            Err(_) => None,
        }
    }
}

proof fn lemma_mapped_reversible(t: Seq<u8>)
    requires
        forall|i: int| 0 <= i < t.len() ==> is_reversible_byte(#[trigger] t[i]),
    ensures
        forall|i: int| 0 <= i < t.len() ==> (#[trigger] mapped(t)[i] == '-' <==> t[i] == 0x2F),
        forall|i: int| 0 <= i < t.len() && t[i] != 0x2F ==> #[trigger] mapped(t)[i] == t[i] as char,
{
}

/// Two devices in the reversible domain never share a name: inside that
/// domain the mapping rewrites only `/`, which no other byte maps to, and
/// nothing was trimmed, so the name gives the device back.
pub proof fn law_reversible_names_are_distinct(d1: Seq<u8>, d2: Seq<u8>)
    requires
        reversible(strip_dev(d1)),
        reversible(strip_dev(d2)),
        tty_name(d1) == tty_name(d2),
    ensures
        strip_dev(d1) == strip_dev(d2),
{
    let t1 = strip_dev(d1);
    let t2 = strip_dev(d2);
    let m1 = mapped(t1);
    let m2 = mapped(t2);
    lemma_trim_full(m1);
    lemma_trim_full(m2);
    assert(m1 == m2);
    lemma_mapped_reversible(t1);
    lemma_mapped_reversible(t2);
    assert(t1.len() == t2.len());
    assert forall|i: int| 0 <= i < t1.len() implies t1[i] == t2[i] by {
        assert(m1[i] == m2[i]);
        if t1[i] == 0x2F {
            assert(m2[i] == '-');
        } else {
            assert(t2[i] != 0x2F);
            assert((t1[i] as char) == (t2[i] as char));
        }
    }
    assert(t1 =~= t2);
}

proof fn lemma_trim_full(m: Seq<char>)
    requires
        trim_edges(m).len() == m.len(),
    ensures
        trim_edges(m) == m,
{
    lemma_first_inner(m, 0);
    lemma_last_inner(m, m.len() as int);
    let a = first_inner(m, 0);
    if a < m.len() {
        let b = last_inner(m, m.len() as int);
        if b <= a {
            assert(is_edge(m[a]));
        }
        assert(trim_edges(m).len() == b - a);
        assert(a == 0 && b == m.len());
        assert(m.subrange(0, m.len() as int) =~= m);
    }
}

} // verus!
