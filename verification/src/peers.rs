//! Naming the peer-registry scope one run's sessions share.
//!
//! The scope answers whether a listed peer is reachable, and each of its two
//! components answers half of it: distinct kernels never share a boot
//! identifier, and containers of one kernel share its boot but not their
//! mount namespaces. Nothing here reads the system; the caller hands over the
//! boot identifier and the mount-namespace link.

use vstd::prelude::*;

use crate::identifier::{is_digit, is_identifier, is_lower, is_tail_char, Identifier};
use crate::namespace::{component, fingerprint, procfs_name_of, Kind};
use crate::text::{ascii_lower, chars_of, is_hex_digit, lower_of, push_char, trim, trim_chars};
use crate::error::owned;

verus! {

/// The hex digits of the boot identifier a scope keeps: forty-eight random
/// bits, short enough that the component joins the identifier grammar.
pub const BOOT_DIGITS: usize = 12;

/// A boot identifier without its hyphens, ASCII letters lowered.
pub open spec fn boot_digits(t: Seq<char>) -> Seq<char>
    decreases t.len(),
{
    if t.len() == 0 {
        Seq::empty()
    } else if t.last() == '-' {
        boot_digits(t.drop_last())
    } else {
        boot_digits(t.drop_last()).push(ascii_lower(t.last()))
    }
}

/// The two path components a boot identifier and a mount-namespace link name:
/// `boot-` and the first twelve hex digits of the cleaned boot identifier,
/// and the fingerprint of the bare link; nothing when the boot identifier is
/// not hex all the way through or too short, or the link is empty.
pub open spec fn scope_of(boot_id: Seq<char>, link: Seq<u8>) -> Option<(Seq<char>, Seq<char>)> {
    let c = boot_digits(trim(boot_id));
    let ns = component(procfs_name_of(Kind::Mount), link);
    if c.len() < BOOT_DIGITS || !(forall|i: int| 0 <= i < c.len() ==> is_hex_digit(#[trigger] c[i]))
        || link.len() == 0 || !is_identifier(ns) {
        None
    } else {
        Some(("boot-"@ + c.take(BOOT_DIGITS as int), ns))
    }
}

/// One run's peer scope: the boot component and the namespace under it.
#[derive(Debug, PartialEq, Eq)]
pub struct Scope {
    boot: Identifier,
    namespace: Identifier,
}

impl View for Scope {
    type V = (Seq<char>, Seq<char>);

    closed spec fn view(&self) -> (Seq<char>, Seq<char>) {
        (self.boot@, self.namespace@)
    }
}

fn clean(boot_id: &str) -> (r: Vec<char>)
    ensures
        r@ == boot_digits(trim(boot_id@)),
{
    let t = trim_chars(&chars_of(boot_id));
    let mut out: Vec<char> = Vec::new();
    let mut i: usize = 0;
    while i < t.len()
        invariant
            t@ == trim(boot_id@),
            i <= t@.len(),
            out@ == boot_digits(t@.take(i as int)),
        decreases t.len() - i,
    {
        proof {
            assert(t@.take(i + 1).drop_last() =~= t@.take(i as int));
        }
        let c = t[i];
        if c != '-' {
            out.push(lower_of(c));
        }
        i = i + 1;
    }
    proof {
        assert(t@.take(t@.len() as int) =~= t@);
    }
    out
}

impl Scope {
    /// Derives a scope from the kernel's boot identifier and mount-namespace
    /// link, or nothing when either cannot name one: the caller then launches
    /// unshared rather than under a name another boot could also produce.
    pub fn derive(boot_id: &str, link: &[u8]) -> (r: Option<Scope>)
        ensures
            match scope_of(boot_id@, link@) {
                Some(v) => r matches Some(s) && s@ == v,
                None => r is None,
            },
    {
        let c = clean(boot_id);
        if c.len() < BOOT_DIGITS {
            return None;
        }
        let mut i: usize = 0;
        while i < c.len()
            invariant
                c@ == boot_digits(trim(boot_id@)),
                i <= c@.len(),
                forall|k: int| 0 <= k < i ==> is_hex_digit(#[trigger] c@[k]),
            decreases c.len() - i,
        {
            let d = c[i];
            if !(('0' <= d && d <= '9') || ('a' <= d && d <= 'f')) {
                proof {
                    assert(!is_hex_digit(c@[i as int]));
                }
                return None;
            }
            i = i + 1;
        }
        if link.len() == 0 {
            return None;
        }
        let mut text = owned("boot-");
        let mut k: usize = 0;
        while k < BOOT_DIGITS
            invariant
                k <= BOOT_DIGITS <= c@.len(),
                text@ == "boot-"@ + c@.take(k as int),
            decreases BOOT_DIGITS - k,
        {
            push_char(&mut text, c[k]);
            proof {
                assert(c@.take(k + 1) =~= c@.take(k as int).push(c@[k as int]));
            }
            k = k + 1;
        }
        proof {
            reveal_strlit("boot-");
            let b = text@;
            assert(b.len() == 17);
            assert(is_lower(b[0]));
            assert forall|j: int| 1 <= j < b.len() implies #[trigger] is_tail_char(b[j]) by {
                if j >= 5 {
                    assert(b[j] == c@[j - 5]);
                    assert(is_hex_digit(c@[j - 5]));
                }
            }
        }
        let boot = match Identifier::parse(text.as_str()) {
            Ok(id) => id,
            Err(_) => return None,
        };
        let namespace = match fingerprint(Kind::Mount.procfs_name(), link) {
            Some(id) => id,
            None => return None,
        };
        Some(Scope { boot, namespace })
    }

    /// Borrows the boot path component.
    pub fn boot(&self) -> (r: &Identifier)
        ensures
            r@ == self@.0,
    {
        &self.boot
    }

    /// Borrows the namespace path component.
    pub fn namespace(&self) -> (r: &Identifier)
        ensures
            r@ == self@.1,
    {
        &self.namespace
    }
}

} // verus!
