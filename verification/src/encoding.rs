//! Byte encodings: UTF-8 of text, and standard padded base64 of raw bytes.

use vstd::prelude::*;

use crate::text::{chars_of, push_char};

verus! {

/// The UTF-8 encoding of one character.
pub open spec fn utf8_char(c: char) -> Seq<u8> {
    let n = c as u32;
    if n < 0x80 {
        seq![n as u8]
    } else if n < 0x800 {
        seq![(0xC0 + n / 64) as u8, (0x80 + n % 64) as u8]
    } else if n < 0x10000 {
        seq![(0xE0 + n / 4096) as u8, (0x80 + n / 64 % 64) as u8, (0x80 + n % 64) as u8]
    } else {
        seq![
            (0xF0 + n / 262144) as u8,
            (0x80 + n / 4096 % 64) as u8,
            (0x80 + n / 64 % 64) as u8,
            (0x80 + n % 64) as u8,
        ]
    }
}

/// The UTF-8 encoding of a text.
pub open spec fn utf8(t: Seq<char>) -> Seq<u8>
    decreases t.len(),
{
    if t.len() == 0 {
        Seq::empty()
    } else {
        utf8(t.drop_last()) + utf8_char(t.last())
    }
}

fn push_utf8_char(out: &mut Vec<u8>, c: char)
    ensures
        final(out)@ == old(out)@ + utf8_char(c),
{
    let n = c as u32;
    proof {
        assert(n <= 0x10FFFF);
    }
    if n < 0x80 {
        out.push(n as u8);
    } else if n < 0x800 {
        out.push((0xC0 + n / 64) as u8);
        out.push((0x80 + n % 64) as u8);
    } else if n < 0x10000 {
        out.push((0xE0 + n / 4096) as u8);
        out.push((0x80 + n / 64 % 64) as u8);
        out.push((0x80 + n % 64) as u8);
    } else {
        out.push((0xF0 + n / 262144) as u8);
        out.push((0x80 + n / 4096 % 64) as u8);
        out.push((0x80 + n / 64 % 64) as u8);
        out.push((0x80 + n % 64) as u8);
    }
    proof {
        assert(final(out)@ =~= old(out)@ + utf8_char(c));
    }
}

/// The UTF-8 bytes of a text.
pub fn utf8_bytes(text: &str) -> (r: Vec<u8>)
    ensures
        r@ == utf8(text@),
{
    let chars = chars_of(text);
    let mut out: Vec<u8> = Vec::new();
    let mut i: usize = 0;
    proof {
        assert(chars@.subrange(0, 0) =~= Seq::<char>::empty());
    }
    while i < chars.len()
        invariant
            chars@ == text@,
            i <= chars@.len(),
            out@ == utf8(chars@.subrange(0, i as int)),
        decreases chars.len() - i,
    {
        push_utf8_char(&mut out, chars[i]);
        proof {
            assert(chars@.subrange(0, i + 1).drop_last() =~= chars@.subrange(0, i as int));
        }
        i = i + 1;
    }
    proof {
        assert(chars@.subrange(0, chars@.len() as int) =~= chars@);
    }
    out
}

/// The base64 alphabet character for a six-bit value.
pub open spec fn b64_char(v: int) -> char {
    if v < 26 {
        ('A' as int + v) as char
    } else if v < 52 {
        ('a' as int + (v - 26)) as char
    } else if v < 62 {
        ('0' as int + (v - 52)) as char
    } else if v == 62 {
        '+'
    } else {
        '/'
    }
}

/// One group of one to three bytes as four base64 characters, padded with `=`.
pub open spec fn b64_group(chunk: Seq<u8>) -> Seq<char> {
    let b0: int = chunk[0] as int;
    let b1: int = if chunk.len() > 1 { chunk[1] as int } else { 0 };
    let b2: int = if chunk.len() > 2 { chunk[2] as int } else { 0 };
    let packed = b0 * 65536 + b1 * 256 + b2;
    seq![
        b64_char(packed / 262144 % 64),
        b64_char(packed / 4096 % 64),
        if chunk.len() >= 2 { b64_char(packed / 64 % 64) } else { '=' },
        if chunk.len() >= 3 { b64_char(packed % 64) } else { '=' },
    ]
}

/// Standard, padded base64.
pub open spec fn base64_spec(bytes: Seq<u8>) -> Seq<char>
    decreases bytes.len(),
{
    if bytes.len() == 0 {
        Seq::empty()
    } else if bytes.len() <= 3 {
        b64_group(bytes)
    } else {
        b64_group(bytes.take(3)) + base64_spec(bytes.skip(3))
    }
}

fn b64_digit(v: u32) -> (c: char)
    requires
        v < 64,
    ensures
        c == b64_char(v as int),
{
    if v < 26 {
        ((65 + v) as u8) as char
    } else if v < 52 {
        ((97 + (v - 26)) as u8) as char
    } else if v < 62 {
        ((48 + (v - 52)) as u8) as char
    } else if v == 62 {
        '+'
    } else {
        '/'
    }
}

proof fn lemma_base64_prefix(bytes: Seq<u8>, i: int)
    requires
        0 <= i <= bytes.len(),
        i % 3 == 0,
    ensures
        base64_spec(bytes) == base64_spec(bytes.take(i)) + base64_spec(bytes.skip(i)),
    decreases i,
{
    if i == 0 {
        assert(bytes.take(0) =~= Seq::<u8>::empty());
        assert(bytes.skip(0) =~= bytes);
        assert(base64_spec(bytes.take(0)) =~= Seq::<char>::empty());
        assert(Seq::<char>::empty() + base64_spec(bytes) =~= base64_spec(bytes));
    } else {
        lemma_base64_prefix(bytes, i - 3);
        let head = bytes.take(i);
        let rest = bytes.skip(i - 3);
        // base64(take(i)) = base64(take(i - 3)) + group(bytes[i-3..i])
        lemma_base64_prefix(head, i - 3);
        assert(head.take(i - 3) =~= bytes.take(i - 3));
        assert(head.skip(i - 3) =~= bytes.subrange(i - 3, i));
        assert(base64_spec(bytes.subrange(i - 3, i)) == b64_group(bytes.subrange(i - 3, i)));
        if rest.len() > 3 {
            assert(rest.take(3) =~= bytes.subrange(i - 3, i));
            assert(rest.skip(3) =~= bytes.skip(i));
            assert(base64_spec(rest) == b64_group(rest.take(3)) + base64_spec(rest.skip(3)));
        } else {
            assert(rest =~= bytes.subrange(i - 3, i));
            assert(bytes.skip(i) =~= Seq::<u8>::empty());
            assert(base64_spec(bytes.skip(i)) =~= Seq::<char>::empty());
        }
        assert(base64_spec(bytes) =~= base64_spec(bytes.take(i)) + base64_spec(bytes.skip(i)));
    }
}

proof fn lemma_base64_step(bytes: Seq<u8>, i: int, len: int)
    requires
        0 <= i,
        i % 3 == 0,
        1 <= len <= 3,
        i + len <= bytes.len(),
        len < 3 ==> i + len == bytes.len(),
    ensures
        base64_spec(bytes.take(i + len)) == base64_spec(bytes.take(i)) + b64_group(bytes.subrange(i, i + len)),
{
    let whole = bytes.take(i + len);
    lemma_base64_prefix(whole, i);
    assert(whole.take(i) =~= bytes.take(i));
    assert(whole.skip(i) =~= bytes.subrange(i, i + len));
}

/// Appends the base64 group of `bytes[i..i + len]`.
fn push_group(out: &mut String, bytes: &[u8], i: usize, len: usize)
    requires
        1 <= len <= 3,
        i + len <= bytes@.len(),
    ensures
        final(out)@ == old(out)@ + b64_group(bytes@.subrange(i as int, i + len)),
{
    let b0 = bytes[i] as u32;
    let b1 = if len > 1 { bytes[i + 1] as u32 } else { 0 };
    let b2 = if len > 2 { bytes[i + 2] as u32 } else { 0 };
    let packed = b0 * 65536 + b1 * 256 + b2;
    push_char(out, b64_digit(packed / 262144 % 64));
    push_char(out, b64_digit(packed / 4096 % 64));
    if len >= 2 {
        push_char(out, b64_digit(packed / 64 % 64));
    } else {
        push_char(out, '=');
    }
    if len >= 3 {
        push_char(out, b64_digit(packed % 64));
    } else {
        push_char(out, '=');
    }
    proof {
        let chunk = bytes@.subrange(i as int, i + len);
        assert(chunk[0] == bytes@[i as int]);
        assert(final(out)@ =~= old(out)@ + b64_group(chunk));
    }
}

/// Encodes bytes as standard, padded base64.
#[verifier::spinoff_prover]
pub fn base64(bytes: &[u8]) -> (r: String)
    ensures
        r@ == base64_spec(bytes@),
{
    let n = bytes.len();
    let mut out = String::new();
    let mut i: usize = 0;
    proof {
        assert(bytes@.take(0) =~= Seq::<u8>::empty());
    }
    while i < n
        invariant
            n == bytes@.len(),
            i <= n,
            i % 3 == 0 || i == n,
            out@ == base64_spec(bytes@.take(i as int)),
        decreases n - i,
    {
        let len: usize = if n - i >= 3 { 3 } else { n - i };
        let ghost chunk = bytes@.subrange(i as int, i + len);
        push_group(&mut out, bytes, i, len);
        proof {
            lemma_base64_step(bytes@, i as int, len as int);
        }
        i = if len == 3 { i + 3 } else { n };
        proof {
            if len < 3 {
                assert(bytes@.take(i as int) =~= bytes@);
            }
        }
    }
    proof {
        assert(bytes@.take(n as int) =~= bytes@);
    }
    out
}

/// A UTF-8 continuation byte.
pub open spec fn is_cont(b: u8) -> bool {
    0x80 <= b <= 0xBF
}

/// The length of the well-formed UTF-8 sequence `t` opens with, or zero when
/// it opens with none (the Unicode standard's table of well-formed sequences).
pub open spec fn utf8_lead_len(t: Seq<u8>) -> nat {
    if t.len() == 0 {
        0
    } else {
        let b0 = t[0];
        if b0 <= 0x7F {
            1
        } else if 0xC2 <= b0 <= 0xDF {
            if t.len() >= 2 && is_cont(t[1]) { 2 } else { 0 }
        } else if 0xE0 <= b0 <= 0xEF {
            let lo: u8 = if b0 == 0xE0 { 0xA0 } else { 0x80 };
            let hi: u8 = if b0 == 0xED { 0x9F } else { 0xBF };
            if t.len() >= 3 && lo <= t[1] <= hi && is_cont(t[2]) { 3 } else { 0 }
        } else if 0xF0 <= b0 <= 0xF4 {
            let lo: u8 = if b0 == 0xF0 { 0x90 } else { 0x80 };
            let hi: u8 = if b0 == 0xF4 { 0x8F } else { 0xBF };
            if t.len() >= 4 && lo <= t[1] <= hi && is_cont(t[2]) && is_cont(t[3]) { 4 } else { 0 }
        } else {
            0
        }
    }
}

/// Whether bytes are well-formed UTF-8.
pub open spec fn is_utf8(t: Seq<u8>) -> bool
    decreases t.len(),
{
    if t.len() == 0 {
        true
    } else if utf8_lead_len(t) == 0 {
        false
    } else {
        is_utf8(t.skip(utf8_lead_len(t) as int))
    }
}

fn lead_len(b: &[u8], i: usize) -> (r: usize)
    requires
        i <= b@.len(),
    ensures
        r == utf8_lead_len(b@.skip(i as int)),
{
    let n = b.len();
    proof {
        let t = b@.skip(i as int);
        assert(t.len() == n - i);
        assert(forall|k: int| 0 <= k < t.len() ==> t[k] == b@[i + k]);
    }
    if i >= n {
        return 0;
    }
    let b0 = b[i];
    if b0 <= 0x7F {
        1
    } else if 0xC2 <= b0 && b0 <= 0xDF {
        if n - i >= 2 && 0x80 <= b[i + 1] && b[i + 1] <= 0xBF { 2 } else { 0 }
    } else if 0xE0 <= b0 && b0 <= 0xEF {
        let lo: u8 = if b0 == 0xE0 { 0xA0 } else { 0x80 };
        let hi: u8 = if b0 == 0xED { 0x9F } else { 0xBF };
        if n - i >= 3 && lo <= b[i + 1] && b[i + 1] <= hi && 0x80 <= b[i + 2] && b[i + 2] <= 0xBF {
            3
        } else {
            0
        }
    } else if 0xF0 <= b0 && b0 <= 0xF4 {
        let lo: u8 = if b0 == 0xF0 { 0x90 } else { 0x80 };
        let hi: u8 = if b0 == 0xF4 { 0x8F } else { 0xBF };
        if n - i >= 4 && lo <= b[i + 1] && b[i + 1] <= hi && 0x80 <= b[i + 2] && b[i + 2] <= 0xBF
            && 0x80 <= b[i + 3] && b[i + 3] <= 0xBF {
            4
        } else {
            0
        }
    } else {
        0
    }
}

/// Whether bytes are well-formed UTF-8.
pub fn utf8_valid(b: &[u8]) -> (r: bool)
    ensures
        r == is_utf8(b@),
{
    let n = b.len();
    let mut i: usize = 0;
    proof {
        assert(b@.skip(0) =~= b@);
    }
    while i < n
        invariant
            n == b@.len(),
            i <= n,
            is_utf8(b@) == is_utf8(b@.skip(i as int)),
        decreases n - i,
    {
        let k = lead_len(b, i);
        if k == 0 {
            return false;
        }
        proof {
            assert(b@.skip(i as int).skip(k as int) =~= b@.skip(i + k));
        }
        i = i + k;
    }
    proof {
        assert(b@.skip(i as int).len() == 0);
    }
    true
}

/// Whether bytes are exactly the UTF-8 encoding of a text.
pub fn bytes_are(b: &Vec<u8>, text: &str) -> (r: bool)
    ensures
        r == (b@ == utf8(text@)),
{
    let t = utf8_bytes(text);
    if b.len() != t.len() {
        return false;
    }
    let mut i: usize = 0;
    while i < b.len()
        invariant
            t@ == utf8(text@),
            b@.len() == t@.len(),
            i <= b@.len(),
            forall|k: int| 0 <= k < i ==> b@[k] == t@[k],
        decreases b.len() - i,
    {
        if b[i] != t[i] {
            return false;
        }
        i = i + 1;
    }
    proof {
        assert(b@ =~= t@);
    }
    true
}

/// A copy of a byte vector.
pub fn copy_bytes(v: &Vec<u8>) -> (r: Vec<u8>)
    ensures
        r@ == v@,
{
    let mut out: Vec<u8> = Vec::new();
    let mut i: usize = 0;
    while i < v.len()
        invariant
            i <= v@.len(),
            out@ == v@.take(i as int),
        decreases v.len() - i,
    {
        out.push(v[i]);
        proof {
            assert(v@.take(i + 1) =~= v@.take(i as int).push(v@[i as int]));
        }
        i = i + 1;
    }
    proof {
        assert(v@.take(v@.len() as int) =~= v@);
    }
    out
}

/// The text that reads each byte as the character with that code.
pub open spec fn ascii_text(v: Seq<u8>) -> Seq<char> {
    Seq::new(v.len(), |i: int| v[i] as char)
}

/// The text these bytes encode, when they are well-formed UTF-8.
///
/// Calls `std::str::from_utf8`, which is documented to accept exactly the
/// well-formed UTF-8 byte sequences and to view the same bytes as text.
#[verifier::external_body]
pub fn decode_utf8(bytes: &[u8]) -> (r: Option<String>)
    ensures
        r is Some <==> is_utf8(bytes@),
        r matches Some(s) ==> utf8(s@) == bytes@,
{
    match std::str::from_utf8(bytes) {
        Ok(text) => Some(text.to_string()),
        Err(_) => None,
    }
}

/// A character below `0x80` is encoded as the one byte with its code, and
/// that byte read as a character is the character again.
proof fn lemma_ascii_char(c: char)
    requires
        (c as u32) < 0x80,
    ensures
        utf8_char(c) == seq![(c as u32) as u8],
        ((c as u32) as u8) as char == c,
        ((c as u32) as u8) < 0x80,
{
    let n = c as u32;
    assert(n as u8 == n);
    assert((n as u8) as char as u32 == n);
}

/// A text of ASCII characters is encoded one byte per character.
pub proof fn lemma_utf8_of_ascii(s: Seq<char>)
    requires
        forall|i: int| 0 <= i < s.len() ==> (#[trigger] s[i] as u32) < 0x80,
    ensures
        utf8(s).len() == s.len(),
        forall|i: int| 0 <= i < s.len() ==> #[trigger] utf8(s)[i] == (s[i] as u32) as u8,
        ascii_text(utf8(s)) == s,
    decreases s.len(),
{
    if s.len() > 0 {
        let p = s.drop_last();
        assert forall|i: int| 0 <= i < p.len() implies (#[trigger] p[i] as u32) < 0x80 by {
            assert(p[i] == s[i]);
        }
        lemma_utf8_of_ascii(p);
        lemma_ascii_char(s.last());
        assert forall|i: int| 0 <= i < s.len() implies #[trigger] utf8(s)[i] == (s[i] as u32) as u8 by {
            if i < p.len() {
                assert(utf8(s)[i] == utf8(p)[i]);
                assert(p[i] == s[i]);
            }
        }
    }
    assert forall|i: int| 0 <= i < s.len() implies #[trigger] ascii_text(utf8(s))[i] == s[i] by {
        lemma_ascii_char(s[i]);
    }
    assert(ascii_text(utf8(s)) =~= s);
}

/// Bytes that are all below `0x80` encode exactly the text that reads each
/// byte as a character.
pub proof fn lemma_ascii_bytes_decode(s: Seq<char>)
    requires
        forall|i: int| 0 <= i < utf8(s).len() ==> #[trigger] utf8(s)[i] < 0x80,
    ensures
        forall|i: int| 0 <= i < s.len() ==> (#[trigger] s[i] as u32) < 0x80,
        s == ascii_text(utf8(s)),
    decreases s.len(),
{
    if s.len() > 0 {
        let p = s.drop_last();
        let c = s.last();
        let head = utf8(p);
        assert(utf8(s) == head + utf8_char(c));
        assert(utf8(s)[head.len() as int] == utf8_char(c)[0]);
        assert((c as u32) < 0x80) by {
            let n = c as u32;
            if n >= 0x80 {
                vstd::utf8::char_is_scalar(c);
                if n < 0x800 {
                    let b: u32 = (0xC0 + n / 64) as u32;
                    assert(0xC0 <= b < 0x100);
                    assert((b as u8) >= 0xC0);
                } else if n < 0x10000 {
                    let b: u32 = (0xE0 + n / 4096) as u32;
                    assert(0xE0 <= b < 0x100);
                    assert((b as u8) >= 0xC0);
                } else {
                    let b: u32 = (0xF0 + n / 262144) as u32;
                    assert(0xF0 <= b < 0x100);
                    assert((b as u8) >= 0xC0);
                }
                assert(utf8_char(c)[0] >= 0xC0);
            }
        }
        assert forall|i: int| 0 <= i < utf8(p).len() implies #[trigger] utf8(p)[i] < 0x80 by {
            assert(utf8(s)[i] == utf8(p)[i]);
        }
        lemma_ascii_bytes_decode(p);
        assert forall|i: int| 0 <= i < s.len() implies (#[trigger] s[i] as u32) < 0x80 by {
            if i < p.len() {
                assert(p[i] == s[i]);
            }
        }
    }
    lemma_utf8_of_ascii(s);
}

/// Bytes that are all below `0x80` are well-formed UTF-8.
pub proof fn lemma_ascii_is_utf8(v: Seq<u8>)
    requires
        forall|i: int| 0 <= i < v.len() ==> #[trigger] v[i] < 0x80,
    ensures
        is_utf8(v),
    decreases v.len(),
{
    if v.len() > 0 {
        let rest = v.skip(1);
        assert forall|i: int| 0 <= i < rest.len() implies #[trigger] rest[i] < 0x80 by {
            assert(rest[i] == v[i + 1]);
        }
        lemma_ascii_is_utf8(rest);
    }
}

/// The base64 of raw path bytes whose text form would lose bytes, or nothing
/// when they are well-formed UTF-8 and the text form is the whole answer.
pub fn lossy_bytes(raw: &[u8]) -> (r: Option<String>)
    ensures
        is_utf8(raw@) ==> r is None,
        !is_utf8(raw@) ==> (r matches Some(s) && s@ == base64_spec(raw@)),
{
    if utf8_valid(raw) {
        None
    } else {
        Some(base64(raw))
    }
}

/// The UTF-8 encoding of any text is well-formed UTF-8.
pub proof fn law_encoded_text_is_utf8(t: Seq<char>)
    ensures
        is_utf8(utf8(t)),
    decreases t.len(),
{
    if t.len() > 0 {
        lemma_utf8_front(t);
        law_encoded_text_is_utf8(t.skip(1));
        let c = t[0];
        let e = utf8_char(c);
        let whole = utf8(t);
        assert(whole =~= e + utf8(t.skip(1)));
        lemma_utf8_char_lead(c, utf8(t.skip(1)));
        assert(whole.skip(e.len() as int) =~= utf8(t.skip(1)));
    }
}

proof fn lemma_utf8_front(t: Seq<char>)
    requires
        t.len() > 0,
    ensures
        utf8(t) == utf8_char(t[0]) + utf8(t.skip(1)),
    decreases t.len(),
{
    if t.len() == 1 {
        assert(t.drop_last() =~= Seq::<char>::empty());
        assert(t.skip(1) =~= Seq::<char>::empty());
        assert(utf8(t) =~= utf8_char(t[0]) + utf8(t.skip(1)));
    } else {
        lemma_utf8_front(t.drop_last());
        assert(t.drop_last().skip(1) =~= t.skip(1).drop_last());
        assert(t.skip(1).last() == t.last());
        assert(utf8(t) =~= utf8_char(t[0]) + utf8(t.skip(1)));
    }
}

proof fn lemma_utf8_char_lead(c: char, rest: Seq<u8>)
    ensures
        utf8_lead_len(utf8_char(c) + rest) == utf8_char(c).len(),
{
    let n = c as u32;
    let t = utf8_char(c) + rest;
    assert(n <= 0x10FFFF);
    assert(n < 0xD800 || n > 0xDFFF);
    if n < 0x80 {
    } else if n < 0x800 {
        assert(t[0] == (0xC0 + n / 64) as u8 && t[1] == (0x80 + n % 64) as u8);
    } else if n < 0x10000 {
        assert(t[0] == (0xE0 + n / 4096) as u8 && t[1] == (0x80 + n / 64 % 64) as u8 && t[2] == (0x80 + n % 64) as u8);
    } else {
        assert(t[0] == (0xF0 + n / 262144) as u8 && t[1] == (0x80 + n / 4096 % 64) as u8
            && t[2] == (0x80 + n / 64 % 64) as u8 && t[3] == (0x80 + n % 64) as u8);
    }
}


/// The text `String::from_utf8_lossy` makes of bytes.
pub uninterp spec fn lossy_spec(bytes: Seq<u8>) -> Seq<char>;

/// Decodes bytes with `String::from_utf8_lossy`, which replaces each
/// ill-formed sequence with U+FFFD.
///
/// Trusted: the result is the named decoding of exactly these bytes, and for
/// well-formed UTF-8 it is the text the bytes encode. Which replacement
/// characters stand where in ill-formed input is not stated.
#[verifier::external_body]
pub fn lossy_text(bytes: &[u8]) -> (r: String)
    ensures
        r@ == lossy_spec(bytes@),
        is_utf8(bytes@) ==> utf8(r@) == bytes@,
{
    String::from_utf8_lossy(bytes).into_owned()
}
} // verus!
