//! Naming the kernel namespace one name is unique inside.
//!
//! A namespace link and a per-kernel discriminator become one path component:
//! a kind prefix and twelve bytes of the SHA-256 digest of both, in hexadecimal.

use vstd::prelude::*;

use crate::digest::{sha256, sha256_spec};
use crate::identifier::{is_identifier, Identifier};
use crate::text::{chars_of, hex_of, hex_string, push_char, push_str, string_of, trim, trim_chars};

verus! {

/// Which kernel identity discriminated a namespace name.
#[derive(Clone, Copy, Debug, PartialEq, Eq, Structural)]
pub enum DiscriminatorSource {
    /// The kernel's machine identifier.
    Machine,
    /// The kernel's boot identifier.
    Boot,
}

impl DiscriminatorSource {
    /// Returns the phrase a report uses for this rung.
    pub fn as_str(self) -> (r: &'static str)
        ensures
            r@ == (match self {
                DiscriminatorSource::Machine => "its machine identifier"@,
                DiscriminatorSource::Boot => "its boot identifier"@,
            }),
    {
        match self {
            DiscriminatorSource::Machine => "its machine identifier",
            DiscriminatorSource::Boot => "its boot identifier",
        }
    }
}

/// One per-kernel discriminator: the identity read, and which rung read it.
#[derive(Debug)]
pub struct Discriminator {
    source: DiscriminatorSource,
    value: String,
}

impl Discriminator {
    /// The value is never empty and carries no surrounding white space.
    #[verifier::type_invariant]
    spec fn nonempty(self) -> bool {
        self.value@.len() > 0 && trim(self.value@) == self.value@
    }

    /// The trimmed identity this discriminator carries.
    pub closed spec fn value_spec(&self) -> Seq<char> {
        self.value@
    }

    /// The rung that read it.
    pub closed spec fn source_spec(&self) -> DiscriminatorSource {
        self.source
    }

    /// Wraps one rung's value, trimmed, refusing one that is empty once trimmed:
    /// an empty discriminator would make every kernel agree again.
    pub fn new(source: DiscriminatorSource, value: &str) -> (r: Option<Discriminator>)
        ensures
            trim(value@).len() == 0 ==> r is None,
            trim(value@).len() > 0 ==> (r matches Some(d) && d.value_spec() == trim(value@)
                && d.source_spec() == source),
    {
        let trimmed = trim_chars(&chars_of(value));
        if trimmed.len() == 0 {
            return None;
        }
        proof {
            crate::text::lemma_trim_idempotent(value@);
        }
        Some(Discriminator { source, value: string_of(&trimmed) })
    }

    /// Returns which rung read this discriminator.
    pub fn source(&self) -> (r: DiscriminatorSource)
        ensures
            r == self.source_spec(),
    {
        self.source
    }

    /// Returns the identity this discriminator carries.
    pub fn value(&self) -> (r: &str)
        ensures
            r@ == self.value_spec(),
    {
        self.value.as_str()
    }

    /// Selects the kernel's discriminator: the machine identifier when it
    /// yields a value, else the boot identifier, else nothing.
    pub fn select(machine: Option<&str>, boot: Option<&str>) -> (r: Option<Discriminator>)
        ensures
            match (machine, boot) {
                (Some(m), _) if trim(m@).len() > 0 => r matches Some(d)
                    && d.source_spec() == DiscriminatorSource::Machine && d.value_spec() == trim(m@),
                (_, Some(b)) if trim(b@).len() > 0 => r matches Some(d)
                    && d.source_spec() == DiscriminatorSource::Boot && d.value_spec() == trim(b@),
                _ => r is None,
            },
    {
        if let Some(value) = machine {
            if let Some(found) = Discriminator::new(DiscriminatorSource::Machine, value) {
                return Some(found);
            }
        }
        match boot {
            Some(value) => Discriminator::new(DiscriminatorSource::Boot, value),
            None => None,
        }
    }
}

/// Which namespace issued the name a rung reads.
#[derive(Clone, Copy, Debug, PartialEq, Eq, Structural)]
pub enum Kind {
    /// Owns the device names the controlling-terminal rung reads.
    Mount,
    /// Owns the session ids the session-leader rung reads.
    Pid,
}

/// A namespace kind's name under `/proc/self/ns`.
pub open spec fn procfs_name_of(kind: Kind) -> Seq<char> {
    match kind {
        Kind::Mount => "mnt"@,
        Kind::Pid => "pid"@,
    }
}

impl Kind {
    /// Returns this namespace's name under `/proc/self/ns`.
    pub fn procfs_name(self) -> (r: &'static str)
        ensures
            r@ == procfs_name_of(self),
    {
        match self {
            Kind::Mount => "mnt",
            Kind::Pid => "pid",
        }
    }

    /// Returns the phrase a report uses for this namespace.
    pub fn as_str(self) -> (r: &'static str)
        ensures
            r@ == (match self {
                Kind::Mount => "its mount namespace"@,
                Kind::Pid => "its process namespace"@,
            }),
    {
        match self {
            Kind::Mount => "its mount namespace",
            Kind::Pid => "its process namespace",
        }
    }
}

/// The component a prefix and a preimage name: the prefix, a hyphen, and the
/// first twelve bytes of the preimage's SHA-256 digest in lowercase hexadecimal.
pub open spec fn component(prefix: Seq<char>, preimage: Seq<u8>) -> Seq<char> {
    prefix + seq!['-'] + hex_of(sha256_spec(preimage).take(12))
}

/// Turns one preimage into a fixed-width path component behind a prefix, or
/// nothing when the result is not an identifier.
pub fn fingerprint(prefix: &str, preimage: &[u8]) -> (r: Option<Identifier>)
    ensures
        is_identifier(component(prefix@, preimage@)) ==> (r matches Some(id) && id@ == component(prefix@, preimage@)),
        !is_identifier(component(prefix@, preimage@)) ==> r is None,
{
    let digest = sha256(preimage);
    let mut head: Vec<u8> = Vec::new();
    let mut i: usize = 0;
    while i < 12
        invariant
            digest@.len() == 32,
            i <= 12,
            head@ == digest@.take(i as int),
        decreases 12 - i,
    {
        head.push(digest[i]);
        proof {
            assert(digest@.take(i + 1) =~= digest@.take(i as int).push(digest@[i as int]));
        }
        i = i + 1;
    }
    let tag = hex_string(head.as_slice());
    let mut text = String::new();
    push_str(&mut text, prefix);
    push_char(&mut text, '-');
    push_str(&mut text, tag.as_str());
    proof {
        assert(text@ =~= component(prefix@, preimage@));
    }
    match Identifier::parse(text.as_str()) {
        Ok(id) => Some(id),
        Err(_) => None,
    }
}

/// The preimage of a namespace name: the discriminator, a NUL, then the link.
///
/// Neither a kernel identity line nor a link value can hold a NUL, so no pair
/// of values imitates another pair's concatenation.
pub open spec fn namespace_preimage(discriminator: Seq<char>, link: Seq<u8>) -> Seq<u8> {
    crate::encoding::utf8(discriminator) + seq![0u8] + link
}

/// One namespace: the path component, and which namespace it names.
#[derive(Debug)]
pub struct Namespace {
    id: Identifier,
    kind: Kind,
    discriminated_by: DiscriminatorSource,
}

impl Namespace {
    /// The path component.
    pub closed spec fn id_spec(&self) -> Seq<char> {
        self.id@
    }

    /// The namespace kind.
    pub closed spec fn kind_spec(&self) -> Kind {
        self.kind
    }

    /// The rung that discriminated it.
    pub closed spec fn source_spec(&self) -> DiscriminatorSource {
        self.discriminated_by
    }

    /// Borrows the validated path component.
    pub fn id(&self) -> (r: &Identifier)
        ensures
            r@ == self.id_spec(),
    {
        &self.id
    }

    /// Returns which kernel identity discriminated this name.
    pub fn discriminated_by(&self) -> (r: DiscriminatorSource)
        ensures
            r == self.source_spec(),
    {
        self.discriminated_by
    }

    /// Returns which namespace this names.
    pub fn kind(&self) -> (r: Kind)
        ensures
            r == self.kind_spec(),
    {
        self.kind
    }

    /// Returns a namespace with the same name.
    pub fn duplicate(&self) -> (r: Namespace)
        ensures
            r.id_spec() == self.id_spec(),
            r.kind_spec() == self.kind_spec(),
            r.source_spec() == self.source_spec(),
    {
        Namespace { id: self.id.duplicate(), kind: self.kind, discriminated_by: self.discriminated_by }
    }

    /// Names a namespace from its `/proc/self/ns` link bytes and the kernel's
    /// discriminator; nothing for an empty link, so a caller falls to the next
    /// rung rather than storing state under a name every namespace shares.
    pub fn from_link(kind: Kind, link: &[u8], discriminator: &Discriminator) -> (r: Option<Namespace>)
        ensures
            link@.len() == 0 ==> r is None,
            link@.len() > 0 ==> {
                let c = component(procfs_name_of(kind), namespace_preimage(discriminator.value_spec(), link@));
                &&& is_identifier(c) ==> (r matches Some(n) && n.id_spec() == c && n.kind_spec() == kind
                    && n.source_spec() == discriminator.source_spec())
                &&& !is_identifier(c) ==> r is None
            },
    {
        if link.len() == 0 {
            return None;
        }
        let mut preimage = crate::encoding::utf8_bytes(discriminator.value());
        preimage.push(0u8);
        let mut i: usize = 0;
        let ghost base = preimage@;
        while i < link.len()
            invariant
                i <= link@.len(),
                preimage@ == base + link@.take(i as int),
            decreases link.len() - i,
        {
            preimage.push(link[i]);
            proof {
                assert(link@.take(i + 1) =~= link@.take(i as int).push(link@[i as int]));
            }
            i = i + 1;
        }
        proof {
            assert(link@.take(link@.len() as int) =~= link@);
            assert(preimage@ =~= namespace_preimage(discriminator.value_spec(), link@));
        }
        match fingerprint(kind.procfs_name(), preimage.as_slice()) {
            Some(id) => Some(Namespace { id, kind, discriminated_by: discriminator.source() }),
            None => None,
        }
    }
}

} // verus!
