//! Wrapper-owned credential material, and the one value derived from it.
//!
//! `Secret` has no rendering and no conversion to a string; the one function
//! that turns a secret into an emittable value is [`Fingerprint::of`].

use vstd::prelude::*;

use crate::digest::{sha256, sha256_spec};
use crate::text::{hex_of, hex_string};

verus! {

/// The largest credential the wrapper accepts or reads back, in bytes.
pub open spec fn maximum() -> nat {
    8192
}

/// A wrapper-owned credential value held in memory.
pub struct Secret {
    bytes: Vec<u8>,
}

impl View for Secret {
    type V = Seq<u8>;

    closed spec fn view(&self) -> Seq<u8> {
        self.bytes@
    }
}

/// Why one ingested line was refused.
#[derive(Clone, Copy, Debug, PartialEq, Eq, Structural)]
pub enum SecretError {
    /// Nothing, or only white space, was supplied.
    Empty,
    /// More than one line was supplied.
    MultipleLines,
    /// A control byte appeared inside the value.
    ControlByte,
    /// The value exceeded the accepted length.
    TooLong,
    /// The person entering it interrupted the prompt.
    Cancelled,
}

/// The diagnostic clause for each refusal; none quotes the input.
pub open spec fn reason_text(e: SecretError) -> Seq<char> {
    match e {
        SecretError::Empty => "no token was supplied"@,
        SecretError::MultipleLines => "a token is one line, and more than one arrived"@,
        SecretError::ControlByte => "the token contains a control character"@,
        SecretError::TooLong => "the token is longer than this wrapper accepts"@,
        SecretError::Cancelled => "entry was cancelled at the prompt"@,
    }
}

impl SecretError {
    /// Returns the diagnostic's `why` clause, which never quotes the input.
    pub fn reason(self) -> (r: &'static str)
        ensures
            r@ == reason_text(self),
    {
        match self {
            SecretError::Empty => "no token was supplied",
            SecretError::MultipleLines => "a token is one line, and more than one arrived",
            SecretError::ControlByte => "the token contains a control character",
            SecretError::TooLong => "the token is longer than this wrapper accepts",
            SecretError::Cancelled => "entry was cancelled at the prompt",
        }
    }
}

/// ASCII white space, as `u8::is_ascii_whitespace` defines it.
pub open spec fn is_ascii_space(b: u8) -> bool {
    b == 0x20 || b == 0x09 || b == 0x0A || b == 0x0C || b == 0x0D
}

/// A byte that ends a line.
pub open spec fn is_line_break(b: u8) -> bool {
    b == 0x0A || b == 0x0D
}

/// A control byte: below space, or delete.
pub open spec fn is_control(b: u8) -> bool {
    b < 0x20 || b == 0x7f
}

/// The index of the first byte of `t` at or after `k` that is not white space,
/// or the length of `t`.
pub open spec fn first_byte_kept(t: Seq<u8>, k: int) -> int
    decreases t.len() - k,
{
    if k >= t.len() {
        t.len() as int
    } else if is_ascii_space(t[k]) {
        first_byte_kept(t, k + 1)
    } else {
        k
    }
}

/// The end of `t.take(k)` once trailing white space is removed.
pub open spec fn last_byte_kept(t: Seq<u8>, k: int) -> int
    decreases k,
{
    if k <= 0 {
        0
    } else if is_ascii_space(t[k - 1]) {
        last_byte_kept(t, k - 1)
    } else {
        k
    }
}

proof fn lemma_byte_kept(t: Seq<u8>)
    requires
        first_byte_kept(t, 0) < t.len(),
    ensures
        first_byte_kept(t, 0) < last_byte_kept(t, t.len() as int) <= t.len(),
{
    lemma_first_byte_kept(t, 0);
    lemma_last_byte_kept(t, t.len() as int);
    let f = first_byte_kept(t, 0);
    let l = last_byte_kept(t, t.len() as int);
    if l <= f {
        assert(is_ascii_space(t[f]));
    }
}

proof fn lemma_first_byte_kept(t: Seq<u8>, k: int)
    requires
        0 <= k <= t.len(),
    ensures
        k <= first_byte_kept(t, k) <= t.len(),
        first_byte_kept(t, k) < t.len() ==> !is_ascii_space(t[first_byte_kept(t, k)]),
        forall|i: int| k <= i < first_byte_kept(t, k) ==> is_ascii_space(t[i]),
    decreases t.len() - k,
{
    if k < t.len() && is_ascii_space(t[k]) {
        lemma_first_byte_kept(t, k + 1);
    }
}

proof fn lemma_last_byte_kept(t: Seq<u8>, k: int)
    requires
        0 <= k <= t.len(),
    ensures
        0 <= last_byte_kept(t, k) <= k,
        last_byte_kept(t, k) > 0 ==> !is_ascii_space(t[last_byte_kept(t, k) - 1]),
        forall|i: int| last_byte_kept(t, k) <= i < k ==> is_ascii_space(t[i]),
    decreases k,
{
    if k > 0 && is_ascii_space(t[k - 1]) {
        lemma_last_byte_kept(t, k - 1);
    }
}

/// What one ingested line parses to: the trimmed bytes, or the reason it is refused.
pub open spec fn parse_line_spec(b: Seq<u8>) -> Result<Seq<u8>, SecretError> {
    if b.len() > maximum() {
        Err(SecretError::TooLong)
    } else if first_byte_kept(b, 0) >= b.len() {
        Err(SecretError::Empty)
    } else {
        let t = b.subrange(first_byte_kept(b, 0), last_byte_kept(b, b.len() as int));
        if exists|i: int| 0 <= i < t.len() && is_line_break(t[i]) {
            Err(SecretError::MultipleLines)
        } else if exists|i: int| 0 <= i < t.len() && is_control(t[i]) {
            Err(SecretError::ControlByte)
        } else {
            Ok(t)
        }
    }
}

fn is_ascii_space_byte(b: u8) -> (r: bool)
    ensures
        r == is_ascii_space(b),
{
    b == 0x20 || b == 0x09 || b == 0x0A || b == 0x0C || b == 0x0D
}

impl Secret {
    /// Parses one ingested line.
    ///
    /// Surrounding ASCII white space is trimmed, because a paste carries the
    /// terminal's newline. Nothing else is interpreted, so a change in the
    /// provider's token format cannot make this refuse a working credential.
    #[verifier::loop_isolation(false)]
    pub fn parse_line(bytes: &[u8]) -> (r: Result<Secret, SecretError>)
        ensures
            match parse_line_spec(bytes@) {
                Ok(t) => r matches Ok(s) && s@ == t,
                Err(e) => r matches Err(f) && f == e,
            },
    {
        let n = bytes.len();
        if n > 8192 {
            return Err(SecretError::TooLong);
        }
        let mut start: usize = 0;
        while start < n && is_ascii_space_byte(bytes[start])
            invariant
                n == bytes@.len(),
                start <= n,
                first_byte_kept(bytes@, 0) == first_byte_kept(bytes@, start as int),
            decreases n - start,
        {
            start = start + 1;
        }
        if start == n {
            return Err(SecretError::Empty);
        }
        let mut end: usize = n;
        while end > 0 && is_ascii_space_byte(bytes[end - 1])
            invariant
                n == bytes@.len(),
                end <= n,
                last_byte_kept(bytes@, n as int) == last_byte_kept(bytes@, end as int),
            decreases end,
        {
            end = end - 1;
        }
        proof {
            lemma_byte_kept(bytes@);
            assert(first_byte_kept(bytes@, 0) == start as int);
            assert(last_byte_kept(bytes@, n as int) == end as int);
        }
        let ghost t = bytes@.subrange(start as int, end as int);
        assert(parse_line_spec(bytes@) == if exists|x: int| 0 <= x < t.len() && is_line_break(t[x]) {
            Err(SecretError::MultipleLines)
        } else if exists|x: int| 0 <= x < t.len() && is_control(t[x]) {
            Err(SecretError::ControlByte)
        } else {
            Ok(t)
        });
        let mut i: usize = start;
        while i < end
            invariant
                start <= i <= end <= n,
                n == bytes@.len(),
                forall|j: int| start <= j < i ==> !is_line_break(bytes@[j]),
            decreases end - i,
        {
            if bytes[i] == 0x0A || bytes[i] == 0x0D {
                proof {
                    let t = bytes@.subrange(start as int, end as int);
                    assert(is_line_break(t[i - start]));
                }
                return Err(SecretError::MultipleLines);
            }
            i = i + 1;
        }
        let mut k: usize = start;
        while k < end
            invariant
                start <= k <= end <= n,
                n == bytes@.len(),
                forall|j: int| start <= j < end ==> !is_line_break(bytes@[j]),
                forall|j: int| start <= j < k ==> !is_control(bytes@[j]),
            decreases end - k,
        {
            if bytes[k] < 0x20 || bytes[k] == 0x7f {
                proof {
                    let t = bytes@.subrange(start as int, end as int);
                    assert(is_control(t[k - start]));
                    assert forall|x: int| 0 <= x < t.len() implies !is_line_break(t[x]) by {
                        assert(t[x] == bytes@[start + x]);
                    }
                }
                return Err(SecretError::ControlByte);
            }
            k = k + 1;
        }
        let mut kept: Vec<u8> = Vec::new();
        let mut m: usize = start;
        while m < end
            invariant
                start <= m <= end <= n,
                n == bytes@.len(),
                forall|j: int| start <= j < end ==> !is_line_break(bytes@[j]) && !is_control(bytes@[j]),
                kept@ == bytes@.subrange(start as int, m as int),
            decreases end - m,
        {
            kept.push(bytes[m]);
            proof {
                assert(bytes@.subrange(start as int, m + 1) =~= bytes@.subrange(start as int, m as int).push(bytes@[m as int]));
            }
            m = m + 1;
        }
        proof {
            let t = bytes@.subrange(start as int, end as int);
            assert forall|x: int| 0 <= x < t.len() implies !is_line_break(t[x]) && !is_control(t[x]) by {
                assert(t[x] == bytes@[start + x]);
            }
        }
        Ok(Secret { bytes: kept })
    }

    /// Wraps bytes read back from the wrapper's own token file, trimming nothing.
    pub fn from_stored(bytes: Vec<u8>) -> (r: Secret)
        ensures
            r@ == bytes@,
    {
        Secret { bytes }
    }

    /// How many bytes an ingest reader may take from its stream: one past the
    /// maximum, the least that tells a value at the limit from one over it.
    pub fn ingest_bound() -> (r: u64)
        ensures
            r == maximum() + 1,
    {
        8193
    }

    /// Returns the credential bytes, for the token file and the child's environment.
    pub fn expose(&self) -> (r: &[u8])
        ensures
            r@ == self@,
    {
        self.bytes.as_slice()
    }

    /// The placeholder a secret shows in diagnostics instead of its bytes.
    pub fn redacted(&self) -> (r: &'static str)
        ensures
            r@ == "Secret(<redacted>)"@,
    {
        "Secret(<redacted>)"
    }
}

/// Whether a character is a lowercase hexadecimal digit.
pub open spec fn is_lower_hex(c: char) -> bool {
    ('0' <= c && c <= '9') || ('a' <= c && c <= 'f')
}

/// The eight leading lowercase hexadecimal characters of a wrapper-owned
/// token's SHA-256 digest.
#[derive(Debug, PartialEq, Eq)]
pub struct Fingerprint {
    text: String,
}

impl View for Fingerprint {
    type V = Seq<char>;

    closed spec fn view(&self) -> Seq<char> {
        self.text@
    }
}

/// The fingerprint of a token: the first eight hexadecimal characters of its digest.
pub open spec fn fingerprint_of(token: Seq<u8>) -> Seq<char> {
    hex_of(sha256_spec(token)).take(8)
}

/// Whether a stored text is a well-formed fingerprint.
pub open spec fn is_fingerprint(t: Seq<char>) -> bool {
    t.len() == 8 && forall|i: int| 0 <= i < t.len() ==> is_lower_hex(t[i])
}

impl Fingerprint {
    /// Every fingerprint is eight lowercase hexadecimal characters.
    #[verifier::type_invariant]
    spec fn well_formed(self) -> bool {
        is_fingerprint(self.text@)
    }

    /// Computes the fingerprint of a wrapper-owned token.
    pub fn of(secret: &Secret) -> (r: Fingerprint)
        ensures
            r@ == fingerprint_of(secret@),
    {
        let digest = sha256(secret.expose());
        let rendered = hex_string(digest.as_slice());
        let chars = crate::text::chars_of(rendered.as_str());
        let mut out: Vec<char> = Vec::new();
        let mut i: usize = 0;
        proof {
            lemma_hex_of_is_lower_hex(digest@);
        }
        while i < 8
            invariant
                chars@ == hex_of(digest@),
                chars@.len() == 64,
                forall|k: int| 0 <= k < chars@.len() ==> is_lower_hex(chars@[k]),
                i <= 8,
                out@ == chars@.take(i as int),
            decreases 8 - i,
        {
            out.push(chars[i]);
            proof {
                assert(chars@.take(i + 1) =~= chars@.take(i as int).push(chars@[i as int]));
            }
            i = i + 1;
        }
        let text = crate::text::string_of(&out);
        Fingerprint { text }
    }

    /// Validates a fingerprint read back from metadata.
    pub fn parse(value: String) -> (r: Result<Fingerprint, String>)
        ensures
            is_fingerprint(value@) ==> (r matches Ok(f) && f@ == value@),
            !is_fingerprint(value@) ==> (r matches Err(m)
                && m@ == "fingerprint must be eight lowercase hexadecimal characters"@),
    {
        let chars = crate::text::chars_of(value.as_str());
        let mut ok = chars.len() == 8;
        let mut i: usize = 0;
        while ok && i < chars.len()
            invariant
                ok ==> chars@.len() == 8,
                i <= chars@.len(),
                chars@ == value@,
                ok ==> forall|k: int| 0 <= k < i ==> is_lower_hex(chars@[k]),
                !ok ==> !is_fingerprint(value@),
            decreases chars.len() - i,
        {
            let c = chars[i];
            if !(('0' <= c && c <= '9') || ('a' <= c && c <= 'f')) {
                ok = false;
            }
            i = i + 1;
        }
        if ok {
            Ok(Fingerprint { text: value })
        } else {
            Err(crate::error::owned("fingerprint must be eight lowercase hexadecimal characters"))
        }
    }

    /// Returns the eight characters.
    pub fn as_str(&self) -> (r: &str)
        ensures
            r@ == self@,
            is_fingerprint(r@),
    {
        proof { use_type_invariant(self); }
        self.text.as_str()
    }
}

proof fn lemma_hex_of_is_lower_hex(bytes: Seq<u8>)
    ensures
        hex_of(bytes).len() == 2 * bytes.len(),
        forall|k: int| 0 <= k < hex_of(bytes).len() ==> is_lower_hex(hex_of(bytes)[k]),
    decreases bytes.len(),
{
    if bytes.len() > 0 {
        lemma_hex_of_is_lower_hex(bytes.drop_last());
        let b = bytes.last();
        assert(0 <= b / 16 < 16 && 0 <= b % 16 < 16);
    }
}

/// A fingerprint is always eight lowercase hexadecimal characters, so whatever
/// was computed from a token is accepted when it is read back.
pub proof fn law_fingerprint_reads_back(token: Seq<u8>)
    requires
        sha256_spec(token).len() == 32,
    ensures
        is_fingerprint(fingerprint_of(token)),
{
    lemma_hex_of_is_lower_hex(sha256_spec(token));
}

} // verus!
