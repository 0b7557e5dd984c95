//! Pure, total partitioning of wrapper and child arguments.
//!
//! The wrapper claims only a leading run of its own flags; everything after
//! the run, or after a `--` sentinel, belongs to the child byte for byte.

use vstd::prelude::*;

use crate::encoding::{bytes_are, copy_bytes, lemma_utf8_of_ascii, utf8, utf8_bytes};
use crate::error::DomainError;
use crate::text::{push_str, same_text};

verus! {

/// The raw wrapper prefix and the untouched child suffix.
#[derive(Debug)]
pub struct Partition {
    pub wrapper: Vec<Vec<u8>>,
    pub child: Vec<Vec<u8>>,
    pub sentinel: bool,
}

impl Partition {
    /// Returns the wrapper-owned prefix, including `argv[0]`.
    pub fn wrapper(&self) -> (r: &Vec<Vec<u8>>)
        ensures
            r@ == self.wrapper@,
    {
        &self.wrapper
    }

    /// Returns the untouched child suffix.
    pub fn child(&self) -> (r: &Vec<Vec<u8>>)
        ensures
            r@ == self.child@,
    {
        &self.child
    }

    /// Reports whether a `--` sentinel closed the wrapper prefix; the sentinel
    /// is consumed rather than forwarded.
    pub fn sentinel(&self) -> (r: bool)
        ensures
            r == self.sentinel,
    {
        self.sentinel
    }

    /// Moves out both argument zones.
    pub fn into_parts(self) -> (r: (Vec<Vec<u8>>, Vec<Vec<u8>>))
        ensures
            r.0@ == self.wrapper@,
            r.1@ == self.child@,
    {
        (self.wrapper, self.child)
    }
}

/// Whether `b` opens with the bytes of `p`.
pub open spec fn opens_with(b: Seq<u8>, p: Seq<u8>) -> bool {
    b.len() >= p.len() && b.take(p.len() as int) == p
}

/// What one argument claims: the flag's name, whether it takes a value, and
/// whether the value is attached with `=`.
pub open spec fn claimed_spec(b: Seq<u8>) -> (Option<Seq<char>>, bool, bool) {
    if b == utf8("--verbose"@) {
        (Some("verbose"@), false, false)
    } else if b == utf8("--quiet"@) || b == utf8("-q"@) {
        (Some("quiet"@), false, false)
    } else if b == utf8("--version"@) || b == utf8("-V"@) {
        (Some("version"@), false, false)
    } else if b == utf8("--help"@) || b == utf8("-h"@) {
        (Some("help"@), false, false)
    } else if b == utf8("--config"@) {
        (Some("config"@), true, false)
    } else if b == utf8("--account"@) {
        (Some("account"@), true, false)
    } else if b == utf8("--profile"@) {
        (Some("profile"@), true, false)
    } else if opens_with(b, utf8("--config="@)) {
        (Some("config"@), true, true)
    } else if opens_with(b, utf8("--account="@)) {
        (Some("account"@), true, true)
    } else if opens_with(b, utf8("--profile="@)) {
        (Some("profile"@), true, true)
    } else {
        (None, false, false)
    }
}

/// Whether a flag may appear more than once.
pub open spec fn repeatable(name: Seq<char>) -> bool {
    name == "verbose"@ || name == "quiet"@
}

/// Scans claimed flags from `index` on: the wrapper prefix, where the child
/// suffix starts and whether a sentinel ended the scan, or the refusal.
pub open spec fn scan(
    args: Seq<Seq<u8>>,
    index: int,
    wrapper: Seq<Seq<u8>>,
    seen: Seq<Seq<char>>,
    verbose: bool,
    quiet: bool,
) -> Result<(Seq<Seq<u8>>, int, bool), Seq<char>>
    decreases args.len() - index,
{
    if index < 0 || index >= args.len() {
        Ok((wrapper, index, false))
    } else if args[index] == utf8("--"@) {
        Ok((wrapper, index + 1, true))
    } else {
        let c = claimed_spec(args[index]);
        match c.0 {
            None => Ok((wrapper, index, false)),
            Some(name) => {
                let v = verbose || name == "verbose"@;
                let q = quiet || name == "quiet"@;
                if v && q {
                    Err("--quiet conflicts with --verbose"@)
                } else if !repeatable(name) && seen.contains(name) {
                    Err("--"@ + name + " may not be repeated"@)
                } else {
                    let seen2 = if repeatable(name) { seen } else { seen.push(name) };
                    let w2 = wrapper.push(args[index]);
                    if c.1 && !c.2 {
                        if index + 1 >= args.len() || opens_with(args[index + 1], utf8("-"@)) {
                            Err("--"@ + name + " requires a value"@)
                        } else {
                            scan(args, index + 2, w2.push(args[index + 1]), seen2, v, q)
                        }
                    } else {
                        scan(args, index + 1, w2, seen2, v, q)
                    }
                }
            },
        }
    }
}

/// The partition of an argument vector: `(wrapper, child, sentinel)`, or the
/// refusal message.
pub open spec fn split_spec(args: Seq<Seq<u8>>) -> Result<(Seq<Seq<u8>>, Seq<Seq<u8>>, bool), Seq<char>> {
    if args.len() == 0 {
        Ok((Seq::empty(), Seq::empty(), false))
    } else {
        match scan(args, 1, seq![args[0]], Seq::empty(), false, false) {
            Ok(r) => Ok((r.0, args.skip(r.1), r.2)),
            Err(m) => Err(m),
        }
    }
}

/// The views of a vector of byte vectors.
pub open spec fn arg_views(v: Seq<Vec<u8>>) -> Seq<Seq<u8>> {
    v.map_values(|x: Vec<u8>| x@)
}

/// The views of a vector of names.
pub open spec fn name_views(v: Seq<&'static str>) -> Seq<Seq<char>> {
    v.map_values(|x: &'static str| x@)
}

fn bytes_open_with(b: &Vec<u8>, text: &str) -> (r: bool)
    ensures
        r == opens_with(b@, utf8(text@)),
{
    let t = utf8_bytes(text);
    if b.len() < t.len() {
        return false;
    }
    let mut i: usize = 0;
    while i < t.len()
        invariant
            t@ == utf8(text@),
            b@.len() >= t@.len(),
            i <= t@.len(),
            forall|k: int| 0 <= k < i ==> b@[k] == t@[k],
        decreases t.len() - i,
    {
        if b[i] != t[i] {
            proof {
                assert(b@.take(t@.len() as int)[i as int] != t@[i as int]);
            }
            return false;
        }
        i = i + 1;
    }
    proof {
        assert(b@.take(t@.len() as int) =~= t@);
    }
    true
}

fn claimed(b: &Vec<u8>) -> (r: (Option<&'static str>, bool, bool))
    ensures
        (match r.0 {
            Some(n) => Some(n@),
            None => None,
        }, r.1, r.2) == claimed_spec(b@),
{
    if bytes_are(b, "--verbose") {
        (Some("verbose"), false, false)
    } else if bytes_are(b, "--quiet") || bytes_are(b, "-q") {
        (Some("quiet"), false, false)
    } else if bytes_are(b, "--version") || bytes_are(b, "-V") {
        (Some("version"), false, false)
    } else if bytes_are(b, "--help") || bytes_are(b, "-h") {
        (Some("help"), false, false)
    } else if bytes_are(b, "--config") {
        (Some("config"), true, false)
    } else if bytes_are(b, "--account") {
        (Some("account"), true, false)
    } else if bytes_are(b, "--profile") {
        (Some("profile"), true, false)
    } else if bytes_open_with(b, "--config=") {
        (Some("config"), true, true)
    } else if bytes_open_with(b, "--account=") {
        (Some("account"), true, true)
    } else if bytes_open_with(b, "--profile=") {
        (Some("profile"), true, true)
    } else {
        (None, false, false)
    }
}

fn contains_name(seen: &Vec<&'static str>, name: &str) -> (r: bool)
    ensures
        r == name_views(seen@).contains(name@),
{
    let mut i: usize = 0;
    while i < seen.len()
        invariant
            i <= seen@.len(),
            forall|k: int| 0 <= k < i ==> name_views(seen@)[k] != name@,
        decreases seen.len() - i,
    {
        if same_text(seen[i], name) {
            proof {
                assert(name_views(seen@)[i as int] == name@);
            }
            return true;
        }
        i = i + 1;
    }
    false
}

fn refusal(name: &str, tail: &str) -> (r: DomainError)
    ensures
        r matches DomainError::InvalidArguments(m) && m@ == "--"@ + name@ + tail@,
{
    let mut m = String::new();
    push_str(&mut m, "--");
    push_str(&mut m, name);
    push_str(&mut m, tail);
    DomainError::InvalidArguments(m)
}

/// Splits leading claimed flags from opaque child arguments.
pub fn split(arguments: &Vec<Vec<u8>>) -> (r: Result<Partition, DomainError>)
    ensures
        match split_spec(arg_views(arguments@)) {
            Ok(p) => r matches Ok(q) && arg_views(q.wrapper@) == p.0 && arg_views(q.child@) == p.1
                && q.sentinel == p.2,
            Err(m) => r matches Err(DomainError::InvalidArguments(n)) && n@ == m,
        },
{
    let ghost args = arg_views(arguments@);
    if arguments.len() == 0 {
        let empty_wrapper: Vec<Vec<u8>> = Vec::new();
        let empty_child: Vec<Vec<u8>> = Vec::new();
        proof {
            assert(arg_views(empty_wrapper@) =~= Seq::<Seq<u8>>::empty());
            assert(arg_views(empty_child@) =~= Seq::<Seq<u8>>::empty());
        }
        return Ok(Partition { wrapper: empty_wrapper, child: empty_child, sentinel: false });
    }
    let mut wrapper: Vec<Vec<u8>> = Vec::new();
    wrapper.push(copy_bytes(&arguments[0]));
    let mut seen: Vec<&'static str> = Vec::new();
    proof {
        assert(arg_views(wrapper@) =~= seq![args[0]]);
        assert(name_views(seen@) =~= Seq::<Seq<char>>::empty());
    }
    let n = arguments.len();
    let mut index: usize = 1;
    let mut sentinel = false;
    let mut verbose = false;
    let mut quiet = false;
    let mut done = false;
    while !done && index < n
        invariant
            n == arguments@.len(),
            args == arg_views(arguments@),
            1 <= index <= n,
            done ==> split_spec(args) == Ok::<(Seq<Seq<u8>>, Seq<Seq<u8>>, bool), Seq<char>>((arg_views(wrapper@), args.skip(index as int), sentinel)),
            !done ==> !sentinel,
            !done ==> split_spec(args) == match scan(args, index as int, arg_views(wrapper@), name_views(seen@), verbose, quiet) {
                Ok(r) => Ok((r.0, args.skip(r.1), r.2)),
                Err(m) => Err(m),
            },
        decreases (n - index) * 2 + (if done { 0int } else { 1int }),
    {
        let arg = &arguments[index];
        let ghost old_w = arg_views(wrapper@);
        let ghost old_seen = name_views(seen@);
        let ghost old_v = verbose;
        let ghost old_q = quiet;
        let ghost old_i = index as int;
        proof {
            assert(args[index as int] == arg@);
        }
        if bytes_are(arg, "--") {
            index = index + 1;
            sentinel = true;
            done = true;
        } else {
            let (claimed_name, takes_value, attached) = claimed(arg);
            match claimed_name {
                None => {
                    done = true;
                },
                Some(name) => {
                    let is_verbose = same_text(name, "verbose");
                    let is_quiet = same_text(name, "quiet");
                    if is_verbose {
                        verbose = true;
                    }
                    if is_quiet {
                        quiet = true;
                    }
                    if verbose && quiet {
                        return Err(DomainError::InvalidArguments(crate::error::owned("--quiet conflicts with --verbose")));
                    }
                    if !is_verbose && !is_quiet {
                        if contains_name(&seen, name) {
                            return Err(refusal(name, " may not be repeated"));
                        }
                        let ghost before_seen = seen@;
                        seen.push(name);
                        proof {
                            assert(seen@.drop_last() =~= before_seen);
                            assert(name_views(seen@) =~= name_views(before_seen).push(name@));
                        }
                    }
                    let ghost before = arg_views(wrapper@);
                    wrapper.push(copy_bytes(arg));
                    proof {
                        assert(arg_views(wrapper@) =~= before.push(arg@));
                    }
                    if takes_value && !attached {
                        if index + 1 >= n {
                            return Err(refusal(name, " requires a value"));
                        }
                        let value = &arguments[index + 1];
                        proof {
                            assert(args[index + 1] == value@);
                        }
                        if bytes_open_with(value, "-") {
                            return Err(refusal(name, " requires a value"));
                        }
                        let ghost mid = arg_views(wrapper@);
                        wrapper.push(copy_bytes(value));
                        proof {
                            assert(arg_views(wrapper@) =~= mid.push(value@));
                        }
                        index = index + 1;
                    }
                    index = index + 1;
                    proof {
                        let c = claimed_spec(args[old_i]);
                        assert(c == (Some(name@), takes_value, attached));
                        assert(args[old_i] != utf8("--"@));
                        assert(repeatable(name@) == (is_verbose || is_quiet));
                        assert(!(verbose && quiet));
                        let seen2 = if repeatable(name@) { old_seen } else { old_seen.push(name@) };
                        assert(name_views(seen@) == seen2);
                        let w2 = old_w.push(args[old_i]);
                        if takes_value && !attached {
                            assert(arg_views(wrapper@) == w2.push(args[old_i + 1]));
                            assert(index == old_i + 2);
                        } else {
                            assert(arg_views(wrapper@) == w2);
                            assert(index == old_i + 1);
                        }
                        assert(scan(args, old_i, old_w, old_seen, old_v, old_q) == scan(args, index as int,
                            arg_views(wrapper@), name_views(seen@), verbose, quiet));
                    }
                },
            }
        }
    }
    let mut child: Vec<Vec<u8>> = Vec::new();
    let start = index;
    let mut k: usize = start;
    proof {
        assert(arg_views(child@) =~= args.subrange(start as int, start as int));
    }
    while k < n
        invariant
            n == arguments@.len(),
            args == arg_views(arguments@),
            start <= k <= n,
            arg_views(child@) == args.subrange(start as int, k as int),
        decreases n - k,
    {
        let ghost before = arg_views(child@);
        child.push(copy_bytes(&arguments[k]));
        proof {
            assert(arg_views(child@) =~= before.push(args[k as int]));
            assert(args.subrange(start as int, k + 1) =~= args.subrange(start as int, k as int).push(args[k as int]));
        }
        k = k + 1;
    }
    proof {
        assert(args.subrange(start as int, n as int) =~= args.skip(start as int));
    }
    Ok(Partition { wrapper, child, sentinel })
}


/// The bytes of every spelling the wrapper claims; each opens with a dash.
proof fn lemma_flag_spellings()
    ensures
        utf8("--verbose"@).len() == 9,
        utf8("--verbose"@)[0] == 45u8,
        utf8("--verbose"@)[1] == 45u8,
        utf8("--verbose"@)[2] == 118u8,
        utf8("--verbose"@)[3] == 101u8,
        utf8("--verbose"@)[4] == 114u8,
        utf8("--verbose"@)[5] == 98u8,
        utf8("--verbose"@)[6] == 111u8,
        utf8("--verbose"@)[7] == 115u8,
        utf8("--verbose"@)[8] == 101u8,
        utf8("--quiet"@).len() == 7,
        utf8("--quiet"@)[0] == 45u8,
        utf8("--quiet"@)[1] == 45u8,
        utf8("--quiet"@)[2] == 113u8,
        utf8("--quiet"@)[3] == 117u8,
        utf8("--quiet"@)[4] == 105u8,
        utf8("--quiet"@)[5] == 101u8,
        utf8("--quiet"@)[6] == 116u8,
        utf8("-q"@).len() == 2,
        utf8("-q"@)[0] == 45u8,
        utf8("-q"@)[1] == 113u8,
        utf8("--version"@).len() == 9,
        utf8("--version"@)[0] == 45u8,
        utf8("--version"@)[1] == 45u8,
        utf8("--version"@)[2] == 118u8,
        utf8("--version"@)[3] == 101u8,
        utf8("--version"@)[4] == 114u8,
        utf8("--version"@)[5] == 115u8,
        utf8("--version"@)[6] == 105u8,
        utf8("--version"@)[7] == 111u8,
        utf8("--version"@)[8] == 110u8,
        utf8("-V"@).len() == 2,
        utf8("-V"@)[0] == 45u8,
        utf8("-V"@)[1] == 86u8,
        utf8("--help"@).len() == 6,
        utf8("--help"@)[0] == 45u8,
        utf8("--help"@)[1] == 45u8,
        utf8("--help"@)[2] == 104u8,
        utf8("--help"@)[3] == 101u8,
        utf8("--help"@)[4] == 108u8,
        utf8("--help"@)[5] == 112u8,
        utf8("-h"@).len() == 2,
        utf8("-h"@)[0] == 45u8,
        utf8("-h"@)[1] == 104u8,
        utf8("--config"@).len() == 8,
        utf8("--config"@)[0] == 45u8,
        utf8("--config"@)[1] == 45u8,
        utf8("--config"@)[2] == 99u8,
        utf8("--config"@)[3] == 111u8,
        utf8("--config"@)[4] == 110u8,
        utf8("--config"@)[5] == 102u8,
        utf8("--config"@)[6] == 105u8,
        utf8("--config"@)[7] == 103u8,
        utf8("--account"@).len() == 9,
        utf8("--account"@)[0] == 45u8,
        utf8("--account"@)[1] == 45u8,
        utf8("--account"@)[2] == 97u8,
        utf8("--account"@)[3] == 99u8,
        utf8("--account"@)[4] == 99u8,
        utf8("--account"@)[5] == 111u8,
        utf8("--account"@)[6] == 117u8,
        utf8("--account"@)[7] == 110u8,
        utf8("--account"@)[8] == 116u8,
        utf8("--profile"@).len() == 9,
        utf8("--profile"@)[0] == 45u8,
        utf8("--profile"@)[1] == 45u8,
        utf8("--profile"@)[2] == 112u8,
        utf8("--profile"@)[3] == 114u8,
        utf8("--profile"@)[4] == 111u8,
        utf8("--profile"@)[5] == 102u8,
        utf8("--profile"@)[6] == 105u8,
        utf8("--profile"@)[7] == 108u8,
        utf8("--profile"@)[8] == 101u8,
        utf8("--config="@).len() == 9,
        utf8("--config="@)[0] == 45u8,
        utf8("--config="@)[1] == 45u8,
        utf8("--config="@)[2] == 99u8,
        utf8("--config="@)[3] == 111u8,
        utf8("--config="@)[4] == 110u8,
        utf8("--config="@)[5] == 102u8,
        utf8("--config="@)[6] == 105u8,
        utf8("--config="@)[7] == 103u8,
        utf8("--config="@)[8] == 61u8,
        utf8("--account="@).len() == 10,
        utf8("--account="@)[0] == 45u8,
        utf8("--account="@)[1] == 45u8,
        utf8("--account="@)[2] == 97u8,
        utf8("--account="@)[3] == 99u8,
        utf8("--account="@)[4] == 99u8,
        utf8("--account="@)[5] == 111u8,
        utf8("--account="@)[6] == 117u8,
        utf8("--account="@)[7] == 110u8,
        utf8("--account="@)[8] == 116u8,
        utf8("--account="@)[9] == 61u8,
        utf8("--profile="@).len() == 10,
        utf8("--profile="@)[0] == 45u8,
        utf8("--profile="@)[1] == 45u8,
        utf8("--profile="@)[2] == 112u8,
        utf8("--profile="@)[3] == 114u8,
        utf8("--profile="@)[4] == 111u8,
        utf8("--profile="@)[5] == 102u8,
        utf8("--profile="@)[6] == 105u8,
        utf8("--profile="@)[7] == 108u8,
        utf8("--profile="@)[8] == 101u8,
        utf8("--profile="@)[9] == 61u8,
        utf8("--"@).len() == 2,
        utf8("--"@)[0] == 45u8,
        utf8("--"@)[1] == 45u8,
{
    reveal_strlit("--verbose");
    lemma_utf8_of_ascii("--verbose"@);
    reveal_strlit("--quiet");
    lemma_utf8_of_ascii("--quiet"@);
    reveal_strlit("-q");
    lemma_utf8_of_ascii("-q"@);
    reveal_strlit("--version");
    lemma_utf8_of_ascii("--version"@);
    reveal_strlit("-V");
    lemma_utf8_of_ascii("-V"@);
    reveal_strlit("--help");
    lemma_utf8_of_ascii("--help"@);
    reveal_strlit("-h");
    lemma_utf8_of_ascii("-h"@);
    reveal_strlit("--config");
    lemma_utf8_of_ascii("--config"@);
    reveal_strlit("--account");
    lemma_utf8_of_ascii("--account"@);
    reveal_strlit("--profile");
    lemma_utf8_of_ascii("--profile"@);
    reveal_strlit("--config=");
    lemma_utf8_of_ascii("--config="@);
    reveal_strlit("--account=");
    lemma_utf8_of_ascii("--account="@);
    reveal_strlit("--profile=");
    lemma_utf8_of_ascii("--profile="@);
    reveal_strlit("--");
    lemma_utf8_of_ascii("--"@);
}

/// What each full spelling the wrapper knows claims.
proof fn lemma_spelled_claims()
    ensures
        claimed_spec(utf8("--verbose"@)) == (Some("verbose"@), false, false),
        claimed_spec(utf8("--quiet"@)) == (Some("quiet"@), false, false),
        claimed_spec(utf8("-q"@)) == (Some("quiet"@), false, false),
        claimed_spec(utf8("--version"@)) == (Some("version"@), false, false),
        claimed_spec(utf8("-V"@)) == (Some("version"@), false, false),
        claimed_spec(utf8("--help"@)) == (Some("help"@), false, false),
        claimed_spec(utf8("-h"@)) == (Some("help"@), false, false),
        claimed_spec(utf8("--config"@)) == (Some("config"@), true, false),
        claimed_spec(utf8("--account"@)) == (Some("account"@), true, false),
        claimed_spec(utf8("--profile"@)) == (Some("profile"@), true, false),
{
    lemma_flag_spellings();
    assert(utf8("--version"@)[5] != utf8("--verbose"@)[5]);
    assert(utf8("-V"@)[1] != utf8("-q"@)[1]);
    assert(utf8("-h"@)[1] != utf8("-q"@)[1]);
    assert(utf8("-h"@)[1] != utf8("-V"@)[1]);
    assert(utf8("--account"@)[2] != utf8("--verbose"@)[2]);
    assert(utf8("--account"@)[2] != utf8("--version"@)[2]);
    assert(utf8("--profile"@)[2] != utf8("--verbose"@)[2]);
    assert(utf8("--profile"@)[2] != utf8("--version"@)[2]);
    assert(utf8("--profile"@)[2] != utf8("--account"@)[2]);
}

/// An argument that does not open with a dash is no wrapper flag and no
/// sentinel.
proof fn lemma_undashed_is_unclaimed(b: Seq<u8>)
    requires
        b.len() > 0,
        b[0] != 45u8,
    ensures
        claimed_spec(b).0 is None,
        b != utf8("--"@),
{
    lemma_flag_spellings();
}

/// An argument opening with `--config=`, `--account=` or `--profile=` is that
/// flag with its value attached.
proof fn lemma_attached_is_claimed(prefix: Seq<u8>, value: Seq<u8>)
    requires
        prefix == utf8("--config="@) || prefix == utf8("--account="@) || prefix == utf8("--profile="@),
    ensures
        claimed_spec(prefix + value) == (Some(if prefix == utf8("--config="@) {
            "config"@
        } else if prefix == utf8("--account="@) {
            "account"@
        } else {
            "profile"@
        }), true, true),
        prefix + value != utf8("--"@),
{
    lemma_flag_spellings();
    let b = prefix + value;
    assert(b[0] == prefix[0] && b[2] == prefix[2]);
    assert(b.take(prefix.len() as int) =~= prefix);
    if prefix == utf8("--account="@) {
        assert(b.take(9)[2] == b[2]);
    }
    if prefix == utf8("--profile="@) {
        assert(b.take(9)[2] == b[2]);
        assert(b.take(10)[2] == b[2]);
    }
}

/// The attached forms `--config=VALUE`, `--account=VALUE` and
/// `--profile=VALUE` right after the program name are wrapper flags: split
/// keeps the argument in the wrapper's prefix and goes on scanning after it,
/// so a following argument that does not open with a dash starts the child's
/// arguments, and no sentinel is reported.
pub proof fn law_attached_flags_stay_with_the_wrapper(
    program: Seq<u8>,
    prefix: Seq<u8>,
    value: Seq<u8>,
    rest: Seq<Seq<u8>>,
)
    requires
        prefix == utf8("--config="@) || prefix == utf8("--account="@) || prefix == utf8("--profile="@),
        rest.len() > 0 ==> rest[0].len() > 0 && rest[0][0] != 45u8,
    ensures
        split_spec(seq![program, prefix + value] + rest) == Ok::<(Seq<Seq<u8>>, Seq<Seq<u8>>, bool), Seq<char>>(
            (seq![program, prefix + value], rest, false),
        ),
{
    let args = seq![program, prefix + value] + rest;
    lemma_attached_is_claimed(prefix, value);
    assert(args[1] == prefix + value);
    assert(seq![args[0]].push(args[1]) =~= seq![program, prefix + value]);
    if rest.len() > 0 {
        assert(args[2] == rest[0]);
        lemma_undashed_is_unclaimed(rest[0]);
    }
    assert(args.skip(2) =~= rest);
    reveal_strlit("verbose");
    reveal_strlit("quiet");
    reveal_strlit("config");
    reveal_strlit("account");
    reveal_strlit("profile");
    let name = claimed_spec(args[1]).0->0;
    assert("verbose"@[0] == 'v' && "quiet"@[0] == 'q');
    assert(name[0] == 'c' || name[0] == 'a' || name[0] == 'p');
    assert(name != "verbose"@ && name != "quiet"@);
    let w2 = seq![program, prefix + value];
    let seen2 = Seq::<Seq<char>>::empty().push(name);
    assert(scan(args, 2, w2, seen2, false, false) == Ok::<(Seq<Seq<u8>>, int, bool), Seq<char>>((w2, 2, false)));
    assert(scan(args, 1, seq![args[0]], Seq::empty(), false, false) == Ok::<(Seq<Seq<u8>>, int, bool), Seq<char>>(
        (w2, 2, false),
    ));
}

/// The flags that take no value, `--verbose`, `--quiet`/`-q`, `--version`/`-V`
/// and `--help`/`-h`, right after the program name stay in the wrapper's
/// prefix, and scanning goes on after them: a following argument that does
/// not open with a dash starts the child's arguments.
pub proof fn law_plain_flags_stay_with_the_wrapper(program: Seq<u8>, flag: Seq<u8>, rest: Seq<Seq<u8>>)
    requires
        flag == utf8("--verbose"@) || flag == utf8("--quiet"@) || flag == utf8("-q"@) || flag == utf8("--version"@)
            || flag == utf8("-V"@) || flag == utf8("--help"@) || flag == utf8("-h"@),
        rest.len() > 0 ==> rest[0].len() > 0 && rest[0][0] != 45u8,
    ensures
        split_spec(seq![program, flag] + rest) == Ok::<(Seq<Seq<u8>>, Seq<Seq<u8>>, bool), Seq<char>>(
            (seq![program, flag], rest, false),
        ),
{
    let args = seq![program, flag] + rest;
    lemma_flag_spellings();
    lemma_spelled_claims();
    assert(args[1] == flag);
    assert(flag != utf8("--"@));
    if rest.len() > 0 {
        assert(args[2] == rest[0]);
        lemma_undashed_is_unclaimed(rest[0]);
    }
    assert(args.skip(2) =~= rest);
    let name = claimed_spec(flag).0->0;
    let v = name == "verbose"@;
    let q = name == "quiet"@;
    reveal_strlit("verbose");
    reveal_strlit("quiet");
    assert(!(v && q)) by {
        assert("verbose"@[0] != "quiet"@[0]);
    }
    let w2 = seq![program, flag];
    assert(seq![args[0]].push(args[1]) =~= w2);
    let seen2 = if repeatable(name) { Seq::<Seq<char>>::empty() } else { Seq::<Seq<char>>::empty().push(name) };
    assert(scan(args, 2, w2, seen2, v, q) == Ok::<(Seq<Seq<u8>>, int, bool), Seq<char>>((w2, 2, false)));
    assert(scan(args, 1, seq![args[0]], Seq::empty(), false, false) == Ok::<(Seq<Seq<u8>>, int, bool), Seq<char>>(
        (w2, 2, false),
    ));
}

/// `--config`, `--account` and `--profile` written apart from their value take
/// the next argument as that value: both stay in the wrapper's prefix, and a
/// following argument that does not open with a dash starts the child's.
pub proof fn law_flag_values_stay_with_the_wrapper(
    program: Seq<u8>,
    flag: Seq<u8>,
    value: Seq<u8>,
    rest: Seq<Seq<u8>>,
)
    requires
        flag == utf8("--config"@) || flag == utf8("--account"@) || flag == utf8("--profile"@),
        value.len() > 0 && value[0] != 45u8,
        rest.len() > 0 ==> rest[0].len() > 0 && rest[0][0] != 45u8,
    ensures
        split_spec(seq![program, flag, value] + rest) == Ok::<(Seq<Seq<u8>>, Seq<Seq<u8>>, bool), Seq<char>>(
            (seq![program, flag, value], rest, false),
        ),
{
    let args = seq![program, flag, value] + rest;
    lemma_flag_spellings();
    lemma_spelled_claims();
    reveal_strlit("-");
    lemma_utf8_of_ascii("-"@);
    assert(args[1] == flag && args[2] == value);
    assert(flag != utf8("--"@));
    assert(!opens_with(value, utf8("-"@))) by {
        if opens_with(value, utf8("-"@)) {
            assert(value.take(1)[0] == value[0]);
        }
    }
    if rest.len() > 0 {
        assert(args[3] == rest[0]);
        lemma_undashed_is_unclaimed(rest[0]);
    }
    assert(args.skip(3) =~= rest);
    let name = claimed_spec(flag).0->0;
    reveal_strlit("verbose");
    reveal_strlit("quiet");
    reveal_strlit("config");
    reveal_strlit("account");
    reveal_strlit("profile");
    assert("verbose"@[0] == 'v' && "quiet"@[0] == 'q');
    assert(name[0] == 'c' || name[0] == 'a' || name[0] == 'p');
    assert(name != "verbose"@ && name != "quiet"@);
    let w3 = seq![program, flag, value];
    assert(seq![args[0]].push(args[1]).push(args[2]) =~= w3);
    let seen2 = Seq::<Seq<char>>::empty().push(name);
    assert(scan(args, 3, w3, seen2, false, false) == Ok::<(Seq<Seq<u8>>, int, bool), Seq<char>>((w3, 3, false)));
    assert(scan(args, 1, seq![args[0]], Seq::empty(), false, false) == Ok::<(Seq<Seq<u8>>, int, bool), Seq<char>>(
        (w3, 3, false),
    ));
}

/// `--config`, `--account` or `--profile` with nothing after it, or with a
/// dash-led argument after it, is refused rather than guessed at.
pub proof fn law_a_missing_value_is_refused(program: Seq<u8>, flag: Seq<u8>, rest: Seq<Seq<u8>>)
    requires
        flag == utf8("--config"@) || flag == utf8("--account"@) || flag == utf8("--profile"@),
        rest.len() > 0 ==> rest[0].len() > 0 && rest[0][0] == 45u8,
    ensures
        split_spec(seq![program, flag] + rest) is Err,
{
    let args = seq![program, flag] + rest;
    lemma_flag_spellings();
    lemma_spelled_claims();
    reveal_strlit("-");
    lemma_utf8_of_ascii("-"@);
    assert(args[1] == flag);
    assert(flag != utf8("--"@));
    if rest.len() > 0 {
        assert(args[2] == rest[0]);
        assert(rest[0].take(1) =~= utf8("-"@));
    }
    reveal_strlit("verbose");
    reveal_strlit("quiet");
    reveal_strlit("config");
    reveal_strlit("account");
    reveal_strlit("profile");
    let name = claimed_spec(flag).0->0;
    assert("verbose"@[0] == 'v' && "quiet"@[0] == 'q');
    assert(name[0] == 'c' || name[0] == 'a' || name[0] == 'p');
    assert(name != "verbose"@ && name != "quiet"@);
}

/// A `--` right after the program name closes the wrapper's arguments: it is
/// consumed, everything after it goes to the child unread, and the sentinel
/// is reported.
pub proof fn law_sentinel_closes_the_wrapper(program: Seq<u8>, rest: Seq<Seq<u8>>)
    ensures
        split_spec(seq![program, utf8("--"@)] + rest) == Ok::<(Seq<Seq<u8>>, Seq<Seq<u8>>, bool), Seq<char>>(
            (seq![program], rest, true),
        ),
{
    let args = seq![program, utf8("--"@)] + rest;
    assert(args[1] == utf8("--"@));
    assert(args.skip(2) =~= rest);
}

/// An argument right after the program name that does not open with a dash
/// is the child's, with everything after it, however flag-like.
pub proof fn law_first_operand_starts_the_child(program: Seq<u8>, rest: Seq<Seq<u8>>)
    requires
        rest.len() > 0,
        rest[0].len() > 0 && rest[0][0] != 45u8,
    ensures
        split_spec(seq![program] + rest) == Ok::<(Seq<Seq<u8>>, Seq<Seq<u8>>, bool), Seq<char>>(
            (seq![program], rest, false),
        ),
{
    let args = seq![program] + rest;
    assert(args[1] == rest[0]);
    lemma_undashed_is_unclaimed(rest[0]);
    assert(args.skip(1) =~= rest);
}

/// `--quiet` and `--verbose` together are refused, in either order.
pub proof fn law_quiet_and_verbose_conflict(program: Seq<u8>, first: Seq<u8>, second: Seq<u8>, rest: Seq<Seq<u8>>)
    requires
        (first == utf8("--verbose"@) && (second == utf8("--quiet"@) || second == utf8("-q"@))) || ((first == utf8(
            "--quiet"@,
        ) || first == utf8("-q"@)) && second == utf8("--verbose"@)),
    ensures
        split_spec(seq![program, first, second] + rest) is Err,
{
    let args = seq![program, first, second] + rest;
    lemma_flag_spellings();
    lemma_spelled_claims();
    assert(args[1] == first && args[2] == second);
    assert(first != utf8("--"@) && second != utf8("--"@));
    reveal_strlit("verbose");
    reveal_strlit("quiet");
    assert("verbose"@[0] != "quiet"@[0]);
    let n1 = claimed_spec(first).0->0;
    let w2 = seq![args[0]].push(args[1]);
    assert(repeatable(n1));
    assert(scan(args, 2, w2, Seq::empty(), n1 == "verbose"@, n1 == "quiet"@) is Err);
    assert(scan(args, 1, seq![args[0]], Seq::empty(), false, false) is Err);
}

/// A scan that starts with the arguments before `index` as its prefix ends
/// with a prefix of the arguments: all of them up to where the child's start,
/// less the sentinel when one closed the run.
proof fn lemma_scan_keeps_order(
    args: Seq<Seq<u8>>,
    index: int,
    wrapper: Seq<Seq<u8>>,
    seen: Seq<Seq<char>>,
    verbose: bool,
    quiet: bool,
)
    requires
        0 <= index <= args.len(),
        wrapper == args.take(index),
    ensures
        scan(args, index, wrapper, seen, verbose, quiet) matches Ok((w, j, s)) ==> index <= j <= args.len() && if s {
            j >= 1 && args[j - 1] == utf8("--"@) && w == args.take(j - 1)
        } else {
            w == args.take(j)
        },
    decreases args.len() - index,
{
    if index < args.len() && args[index] != utf8("--"@) {
        let c = claimed_spec(args[index]);
        if let Some(name) = c.0 {
            let v = verbose || name == "verbose"@;
            let q = quiet || name == "quiet"@;
            let seen2 = if repeatable(name) { seen } else { seen.push(name) };
            let w2 = wrapper.push(args[index]);
            assert(w2 =~= args.take(index + 1));
            if c.1 && !c.2 {
                if index + 1 < args.len() {
                    assert(w2.push(args[index + 1]) =~= args.take(index + 2));
                    lemma_scan_keeps_order(args, index + 2, w2.push(args[index + 1]), seen2, v, q);
                }
            } else {
                lemma_scan_keeps_order(args, index + 1, w2, seen2, v, q);
            }
        }
    }
}

/// The split loses and reorders nothing: the wrapper's arguments, then the
/// sentinel when one closed them, then the child's, are the arguments given.
pub proof fn law_split_keeps_every_argument(args: Seq<Seq<u8>>)
    ensures
        split_spec(args) matches Ok((w, c, s)) ==> w + (if s { seq![utf8("--"@)] } else { Seq::empty() }) + c == args,
{
    if args.len() > 0 {
        assert(seq![args[0]] =~= args.take(1));
        lemma_scan_keeps_order(args, 1, seq![args[0]], Seq::empty(), false, false);
        if let Ok((w, c, s)) = split_spec(args) {
            let j = match scan(args, 1, seq![args[0]], Seq::empty(), false, false) {
                Ok(r) => r.1,
                Err(_) => 0,
            };
            if s {
                assert(args.take(j - 1) + seq![utf8("--"@)] + args.skip(j) =~= args);
            } else {
                assert(args.take(j) + args.skip(j) =~= args);
            }
        }
    } else {
        if let Ok((w, c, s)) = split_spec(args) {
            assert(w + Seq::empty() + c =~= args);
        }
    }
}

} // verus!
