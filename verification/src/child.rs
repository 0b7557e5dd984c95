//! The child's version and the values describing one child invocation.

use vstd::prelude::*;

use crate::encoding::{is_utf8, utf8_valid};
use crate::text::{decimal, push_char, push_decimal};

verus! {

/// A validated three-component child version.
#[derive(Clone, Copy, Debug, PartialEq, Eq, PartialOrd, Ord, Structural)]
pub struct ChildVersion {
    pub major: u32,
    pub minor: u32,
    pub patch: u32,
}

/// The minimum child release whose refresh-lock behaviour is supported.
pub open spec fn minimum_version_spec() -> ChildVersion {
    ChildVersion { major: 2, minor: 1, patch: 211 }
}

/// The minimum child release whose refresh-lock behaviour is supported.
pub fn minimum_child_version() -> (r: ChildVersion)
    ensures
        r == minimum_version_spec(),
{
    ChildVersion { major: 2, minor: 1, patch: 211 }
}

/// A byte that belongs to a version run: an ASCII digit or a dot.
pub open spec fn is_run_byte(b: u8) -> bool {
    (0x30 <= b <= 0x39) || b == 0x2E
}

/// The pieces between separators, empty ones included, in order.
pub open spec fn runs(t: Seq<u8>) -> Seq<Seq<u8>>
    decreases t.len(),
{
    if t.len() == 0 {
        seq![Seq::empty()]
    } else {
        let p = runs(t.drop_last());
        let c = t.last();
        if is_run_byte(c) {
            p.drop_last().push(p.last().push(c))
        } else {
            p.push(Seq::empty())
        }
    }
}

/// The non-empty digit groups of a run, split at its dots, in order.
pub open spec fn groups(t: Seq<u8>) -> Seq<Seq<u8>>
    decreases t.len(),
{
    if t.len() == 0 {
        Seq::empty()
    } else {
        let g = groups(t.drop_last());
        let c = t.last();
        if c == 0x2E {
            g
        } else if t.len() >= 2 && t[t.len() - 2] != 0x2E {
            g.drop_last().push(g.last().push(c))
        } else {
            g.push(seq![c])
        }
    }
}

/// The decimal value of a digit group.
pub open spec fn digits_value(t: Seq<u8>) -> nat
    decreases t.len(),
{
    if t.len() == 0 {
        0
    } else {
        digits_value(t.drop_last()) * 10 + (t.last() - 0x30) as nat
    }
}

/// The version one run spells: its first three digit groups, each a `u32`.
pub open spec fn version_of_run(run: Seq<u8>) -> Option<ChildVersion> {
    let g = groups(run);
    if g.len() < 3 || digits_value(g[0]) > u32::MAX || digits_value(g[1]) > u32::MAX
        || digits_value(g[2]) > u32::MAX {
        None
    } else {
        Some(ChildVersion {
            major: digits_value(g[0]) as u32,
            minor: digits_value(g[1]) as u32,
            patch: digits_value(g[2]) as u32,
        })
    }
}

/// The version of the first run, in order, that spells one.
pub open spec fn first_version(rs: Seq<Seq<u8>>) -> Option<ChildVersion>
    decreases rs.len(),
{
    if rs.len() == 0 {
        None
    } else if version_of_run(rs[0]) is Some {
        version_of_run(rs[0])
    } else {
        first_version(rs.skip(1))
    }
}

/// The version a child's answer reports: the first version-shaped token
/// anywhere in it, when the answer is text at all.
pub open spec fn parse_version_spec(bytes: Seq<u8>) -> Option<ChildVersion> {
    if is_utf8(bytes) {
        first_version(runs(bytes))
    } else {
        None
    }
}

/// The views of a vector of byte vectors.
pub open spec fn byte_vecs(v: Seq<Vec<u8>>) -> Seq<Seq<u8>> {
    v.map_values(|x: Vec<u8>| x@)
}

fn split_runs(b: &[u8]) -> (r: Vec<Vec<u8>>)
    ensures
        byte_vecs(r@) == runs(b@),
{
    let mut out: Vec<Vec<u8>> = Vec::new();
    let mut cur: Vec<u8> = Vec::new();
    let mut i: usize = 0;
    proof {
        assert(b@.take(0) =~= Seq::<u8>::empty());
        assert(byte_vecs(out@).push(cur@) =~= seq![Seq::<u8>::empty()]);
    }
    while i < b.len()
        invariant
            i <= b@.len(),
            runs(b@.take(i as int)) == byte_vecs(out@).push(cur@),
        decreases b.len() - i,
    {
        let c = b[i];
        let ghost pre = b@.take(i as int);
        let ghost old_out = byte_vecs(out@);
        let ghost old_cur = cur@;
        proof {
            assert(b@.take(i + 1).drop_last() =~= pre);
            assert(b@.take(i + 1).last() == c);
        }
        if (0x30 <= c && c <= 0x39) || c == 0x2E {
            cur.push(c);
            proof {
                let p = old_out.push(old_cur);
                assert(p.drop_last() =~= old_out);
                assert(runs(b@.take(i + 1)) == p.drop_last().push(p.last().push(c)));
            }
        } else {
            let finished = cur;
            cur = Vec::new();
            out.push(finished);
            proof {
                assert(byte_vecs(out@) =~= old_out.push(old_cur));
                assert(runs(b@.take(i + 1)) == old_out.push(old_cur).push(Seq::<u8>::empty()));
            }
        }
        i = i + 1;
    }
    proof {
        assert(b@.take(b@.len() as int) =~= b@);
    }
    let ghost before = byte_vecs(out@);
    out.push(cur);
    proof {
        assert(byte_vecs(out@) =~= before.push(out@[out@.len() - 1]@));
    }
    out
}

fn split_groups(run: &Vec<u8>) -> (r: Vec<Vec<u8>>)
    ensures
        byte_vecs(r@) == groups(run@),
{
    let mut out: Vec<Vec<u8>> = Vec::new();
    let mut cur: Vec<u8> = Vec::new();
    let mut i: usize = 0;
    proof {
        assert(run@.take(0) =~= Seq::<u8>::empty());
        assert(byte_vecs(out@) =~= Seq::<Seq<u8>>::empty());
    }
    while i < run.len()
        invariant
            i <= run@.len(),
            groups(run@.take(i as int)) == (if cur@.len() > 0 {
                byte_vecs(out@).push(cur@)
            } else {
                byte_vecs(out@)
            }),
            cur@.len() > 0 <==> (i > 0 && run@[i - 1] != 0x2E),
        decreases run.len() - i,
    {
        let c = run[i];
        let ghost pre = run@.take(i as int);
        let ghost next = run@.take(i + 1);
        let ghost old_out = byte_vecs(out@);
        let ghost old_cur = cur@;
        proof {
            assert(next.drop_last() =~= pre);
            assert(next.last() == c);
            if i > 0 {
                assert(next[next.len() - 2] == run@[i - 1]);
            }
        }
        if c == 0x2E {
            proof {
                assert(groups(next) == groups(pre));
            }
            if cur.len() > 0 {
                let finished = cur;
                cur = Vec::new();
                out.push(finished);
                proof {
                    assert(byte_vecs(out@) =~= old_out.push(old_cur));
                }
            }
        } else {
            cur.push(c);
            proof {
                if old_cur.len() > 0 {
                    let w = old_out.push(old_cur);
                    assert(groups(next) == w.drop_last().push(w.last().push(c)));
                    assert(w.drop_last() =~= old_out);
                    assert(cur@ =~= old_cur.push(c));
                } else {
                    assert(groups(next) == old_out.push(seq![c]));
                    assert(cur@ =~= seq![c]);
                }
            }
        }
        i = i + 1;
    }
    proof {
        assert(run@.take(run@.len() as int) =~= run@);
    }
    if cur.len() > 0 {
        let ghost before = byte_vecs(out@);
        out.push(cur);
        proof {
            assert(byte_vecs(out@) =~= before.push(out@[out@.len() - 1]@));
        }
    }
    out
}

proof fn lemma_digits_value_grows(t: Seq<u8>, k: int)
    requires
        0 <= k <= t.len(),
        forall|i: int| 0 <= i < t.len() ==> 0x30 <= #[trigger] t[i] <= 0x39,
    ensures
        digits_value(t.take(k)) <= digits_value(t),
    decreases t.len() - k,
{
    if k < t.len() {
        lemma_digits_value_grows(t, k + 1);
        assert(t.take(k + 1).drop_last() =~= t.take(k));
    } else {
        assert(t.take(k) =~= t);
    }
}

proof fn lemma_groups_are_digits(t: Seq<u8>)
    requires
        forall|i: int| 0 <= i < t.len() ==> is_run_byte(#[trigger] t[i]),
    ensures
        forall|g: int, i: int| 0 <= g < groups(t).len() && 0 <= i < groups(t)[g].len() ==> 0x30
            <= #[trigger] groups(t)[g][i] <= 0x39,
        t.len() > 0 && t.last() != 0x2E ==> groups(t).len() > 0,
    decreases t.len(),
{
    if t.len() > 0 {
        let p = t.drop_last();
        assert(forall|i: int| 0 <= i < p.len() ==> p[i] == t[i]);
        lemma_groups_are_digits(p);
        let c = t.last();
        assert(is_run_byte(t[t.len() - 1]));
        let g0 = groups(p);
        if c == 0x2E {
            assert(groups(t) == g0);
        } else if t.len() >= 2 && t[t.len() - 2] != 0x2E {
            assert(p.last() == t[t.len() - 2]);
            assert(g0.len() > 0);
            let ng = g0.drop_last().push(g0.last().push(c));
            assert(groups(t) == ng);
            assert forall|g: int, i: int| 0 <= g < ng.len() && 0 <= i < ng[g].len() implies 0x30
                <= #[trigger] ng[g][i] <= 0x39 by {
                if g < g0.len() - 1 {
                    assert(ng[g] == g0[g]);
                } else if i < g0.last().len() {
                    assert(ng[g][i] == g0[g0.len() - 1][i]);
                }
            }
        } else {
            let ng = g0.push(seq![c]);
            assert(groups(t) == ng);
            assert forall|g: int, i: int| 0 <= g < ng.len() && 0 <= i < ng[g].len() implies 0x30
                <= #[trigger] ng[g][i] <= 0x39 by {
                if g < g0.len() {
                    assert(ng[g] == g0[g]);
                }
            }
        }
    }
}

/// Reads a digit group as a `u32`, or nothing when its value does not fit.
fn group_value(d: &Vec<u8>) -> (r: Option<u32>)
    requires
        forall|i: int| 0 <= i < d@.len() ==> 0x30 <= #[trigger] d@[i] <= 0x39,
    ensures
        digits_value(d@) <= u32::MAX ==> r == Some(digits_value(d@) as u32),
        digits_value(d@) > u32::MAX ==> r is None,
{
    let mut acc: u64 = 0;
    let mut i: usize = 0;
    proof {
        assert(d@.take(0) =~= Seq::<u8>::empty());
    }
    while i < d.len()
        invariant
            i <= d@.len(),
            forall|k: int| 0 <= k < d@.len() ==> 0x30 <= #[trigger] d@[k] <= 0x39,
            acc == digits_value(d@.take(i as int)),
            acc <= u32::MAX,
        decreases d.len() - i,
    {
        proof {
            assert(d@.take(i + 1).drop_last() =~= d@.take(i as int));
        }
        let next = acc * 10 + (d[i] - 0x30) as u64;
        if next > 0xFFFF_FFFF {
            proof {
                lemma_digits_value_grows(d@, i + 1);
            }
            return None;
        }
        acc = next;
        i = i + 1;
    }
    proof {
        assert(d@.take(d@.len() as int) =~= d@);
    }
    Some(acc as u32)
}

fn version_from_run(run: &Vec<u8>) -> (r: Option<ChildVersion>)
    requires
        forall|i: int| 0 <= i < run@.len() ==> is_run_byte(#[trigger] run@[i]),
    ensures
        r == version_of_run(run@),
{
    let g = split_groups(run);
    if g.len() < 3 {
        return None;
    }
    proof {
        lemma_groups_are_digits(run@);
        assert(g@[0]@ == groups(run@)[0]);
        assert(g@[1]@ == groups(run@)[1]);
        assert(g@[2]@ == groups(run@)[2]);
    }
    let major = group_value(&g[0]);
    let minor = group_value(&g[1]);
    let patch = group_value(&g[2]);
    match (major, minor, patch) {
        (Some(major), Some(minor), Some(patch)) => Some(ChildVersion { major, minor, patch }),
        _ => None,
    }
}

proof fn lemma_runs_are_run_bytes(t: Seq<u8>)
    ensures
        forall|r: int, i: int| 0 <= r < runs(t).len() && 0 <= i < runs(t)[r].len() ==> is_run_byte(
            #[trigger] runs(t)[r][i],
        ),
        runs(t).len() >= 1,
    decreases t.len(),
{
    if t.len() > 0 {
        lemma_runs_are_run_bytes(t.drop_last());
    }
}

impl ChildVersion {
    /// Reads the first version-shaped token anywhere in the child's answer:
    /// the first run of digits and dots holding three dotted `u32` values.
    ///
    /// Components past the third are discarded rather than ordered, which is
    /// also what happens to a prerelease suffix: the separator ends the run.
    pub fn parse(bytes: &[u8]) -> (r: Option<ChildVersion>)
        ensures
            r == parse_version_spec(bytes@),
    {
        if !utf8_valid(bytes) {
            return None;
        }
        let rs = split_runs(bytes);
        proof {
            lemma_runs_are_run_bytes(bytes@);
            assert(byte_vecs(rs@).skip(0) =~= byte_vecs(rs@));
        }
        let mut k: usize = 0;
        while k < rs.len()
            invariant
                k <= rs@.len(),
                is_utf8(bytes@),
                byte_vecs(rs@) == runs(bytes@),
                forall|r: int, i: int| 0 <= r < runs(bytes@).len() && 0 <= i < runs(bytes@)[r].len()
                    ==> is_run_byte(#[trigger] runs(bytes@)[r][i]),
                first_version(runs(bytes@)) == first_version(byte_vecs(rs@).skip(k as int)),
            decreases rs.len() - k,
        {
            proof {
                assert(rs@[k as int]@ == runs(bytes@)[k as int]);
                let rest = byte_vecs(rs@).skip(k as int);
                assert(rest[0] == rs@[k as int]@);
                assert(rest.skip(1) =~= byte_vecs(rs@).skip(k + 1));
            }
            let found = version_from_run(&rs[k]);
            if found.is_some() {
                return found;
            }
            k = k + 1;
        }
        None
    }

    /// Whether this version is older than `other`, component by component.
    pub fn is_below(&self, other: &ChildVersion) -> (r: bool)
        ensures
            r == (self.major < other.major || (self.major == other.major && (self.minor < other.minor
                || (self.minor == other.minor && self.patch < other.patch)))),
    {
        self.major < other.major || (self.major == other.major && (self.minor < other.minor
            || (self.minor == other.minor && self.patch < other.patch)))
    }

    /// Renders the version as `major.minor.patch`.
    pub fn render(&self) -> (r: String)
        ensures
            r@ == decimal(self.major as nat) + seq!['.'] + decimal(self.minor as nat) + seq!['.']
                + decimal(self.patch as nat),
    {
        let mut out = String::new();
        push_decimal(&mut out, self.major as u64);
        push_char(&mut out, '.');
        push_decimal(&mut out, self.minor as u64);
        push_char(&mut out, '.');
        push_decimal(&mut out, self.patch as u64);
        out
    }
}

/// A fully resolved child invocation: the program, its arguments excluding
/// `argv[0]`, and its exact environment, all as raw OS bytes.
#[derive(Clone)]
pub struct ChildInvocation {
    pub program: Vec<u8>,
    pub arguments: Vec<Vec<u8>>,
    pub environment: Vec<(Vec<u8>, Vec<u8>)>,
}

impl ChildInvocation {
    /// Builds an invocation without changing any argument byte.
    pub fn new(program: Vec<u8>, arguments: Vec<Vec<u8>>, environment: Vec<(Vec<u8>, Vec<u8>)>) -> (r: ChildInvocation)
        ensures
            r.program@ == program@,
            r.arguments@ == arguments@,
            r.environment@ == environment@,
    {
        ChildInvocation { program, arguments, environment }
    }

    /// Returns the absolute program path.
    pub fn program(&self) -> (r: &Vec<u8>)
        ensures
            r@ == self.program@,
    {
        &self.program
    }

    /// Returns the raw child arguments excluding `argv[0]`.
    pub fn arguments(&self) -> (r: &Vec<Vec<u8>>)
        ensures
            r@ == self.arguments@,
    {
        &self.arguments
    }

    /// Returns the exact child environment.
    pub fn environment(&self) -> (r: &Vec<(Vec<u8>, Vec<u8>)>)
        ensures
            r@ == self.environment@,
    {
        &self.environment
    }

    /// How many arguments the invocation carries; argument bytes are the
    /// user's and are never printed.
    pub fn argument_count(&self) -> (r: usize)
        ensures
            r == self.arguments@.len(),
    {
        self.arguments.len()
    }
}

/// The status observed after waiting for the child.
#[derive(Clone, Copy, Debug, PartialEq, Eq, Structural)]
pub enum ChildOutcome {
    /// The child exited normally with this code.
    Exited(u8),
    /// The child died from this signal.
    Signaled(i32),
}

/// Captured subroutine output and status; its bytes are never printed.
pub struct CapturedChild {
    /// Raw standard output bytes.
    pub stdout: Vec<u8>,
    /// Raw standard error bytes.
    pub stderr: Vec<u8>,
    /// The subroutine's status.
    pub outcome: ChildOutcome,
}

} // verus!
