//! Character-level text building blocks shared by every renderer.

use vstd::prelude::*;
use vstd::string::*;

verus! {

/// Appends one character to a string.
#[verifier::external_body]
pub(crate) fn push_char(out: &mut String, c: char)
    ensures
        final(out)@ == old(out)@.push(c),
{
    out.push(c);
}

/// Appends a string slice to a string.
pub(crate) fn push_str(out: &mut String, text: &str)
    ensures
        final(out)@ == old(out)@ + text@,
{
    out.append(text);
}

/// Copies the characters of a string slice into a vector.
pub fn chars_of(text: &str) -> (r: Vec<char>)
    ensures
        r@ == text@,
{
    let n = text.unicode_len();
    let mut out: Vec<char> = Vec::new();
    let mut i: usize = 0;
    while i < n
        invariant
            n == text@.len(),
            i <= n,
            out@ == text@.subrange(0, i as int),
        decreases n - i,
    {
        out.push(text.get_char(i));
        i = i + 1;
    }
    proof {
        assert(text@.subrange(0, n as int) =~= text@);
    }
    out
}

/// Builds a string from a vector of characters.
pub fn string_of(chars: &Vec<char>) -> (r: String)
    ensures
        r@ == chars@,
{
    let mut out = String::new();
    let mut i: usize = 0;
    while i < chars.len()
        invariant
            i <= chars.len(),
            out@ == chars@.subrange(0, i as int),
        decreases chars.len() - i,
    {
        push_char(&mut out, chars[i]);
        proof {
            assert(chars@.subrange(0, i + 1) =~= chars@.subrange(0, i as int).push(chars@[i as int]));
        }
        i = i + 1;
    }
    proof {
        assert(chars@.subrange(0, chars.len() as int) =~= chars@);
    }
    out
}


/// The decimal digit character for `d`, which must be below ten.
pub open spec fn digit_char(d: int) -> char {
    if d == 0 { '0' } else if d == 1 { '1' } else if d == 2 { '2' } else if d == 3 { '3' }
    else if d == 4 { '4' } else if d == 5 { '5' } else if d == 6 { '6' } else if d == 7 { '7' }
    else if d == 8 { '8' } else { '9' }
}

/// The lowercase hexadecimal digit character for `d`, which must be below sixteen.
pub open spec fn hex_char(d: int) -> char {
    if d < 10 { digit_char(d) } else if d == 10 { 'a' } else if d == 11 { 'b' } else if d == 12 { 'c' }
    else if d == 13 { 'd' } else if d == 14 { 'e' } else { 'f' }
}

/// The decimal spelling of a natural number, without leading zeros.
pub open spec fn decimal(n: nat) -> Seq<char>
    decreases n,
{
    if n < 10 {
        seq![digit_char(n as int)]
    } else {
        decimal(n / 10).push(digit_char((n % 10) as int))
    }
}

/// The lowercase hexadecimal spelling of a natural number, without leading zeros.
pub open spec fn lower_hex(n: nat) -> Seq<char>
    decreases n,
{
    if n < 16 {
        seq![hex_char(n as int)]
    } else {
        lower_hex(n / 16).push(hex_char((n % 16) as int))
    }
}

/// `text` left-padded with zeros to at least `width` characters.
pub open spec fn zero_padded(text: Seq<char>, width: nat) -> Seq<char> {
    if text.len() >= width {
        text
    } else {
        Seq::new((width - text.len()) as nat, |i: int| '0') + text
    }
}

/// The two lowercase hexadecimal characters of one byte.
pub open spec fn byte_hex(b: u8) -> Seq<char> {
    seq![hex_char((b / 16) as int), hex_char((b % 16) as int)]
}

/// The lowercase hexadecimal rendering of a byte sequence, two characters per byte.
pub open spec fn hex_of(bytes: Seq<u8>) -> Seq<char>
    decreases bytes.len(),
{
    if bytes.len() == 0 {
        Seq::empty()
    } else {
        hex_of(bytes.drop_last()) + byte_hex(bytes.last())
    }
}

/// Returns the decimal digit character for a value below ten.
pub fn digit(d: u64) -> (c: char)
    requires
        d < 10,
    ensures
        c == digit_char(d as int),
{
    if d == 0 { '0' } else if d == 1 { '1' } else if d == 2 { '2' } else if d == 3 { '3' }
    else if d == 4 { '4' } else if d == 5 { '5' } else if d == 6 { '6' } else if d == 7 { '7' }
    else if d == 8 { '8' } else { '9' }
}

/// Returns the lowercase hexadecimal digit character for a value below sixteen.
pub fn hex_digit(d: u64) -> (c: char)
    requires
        d < 16,
    ensures
        c == hex_char(d as int),
{
    if d < 10 { digit(d) } else if d == 10 { 'a' } else if d == 11 { 'b' } else if d == 12 { 'c' }
    else if d == 13 { 'd' } else if d == 14 { 'e' } else { 'f' }
}

/// Appends the decimal spelling of `n`.
pub fn push_decimal(out: &mut String, n: u64)
    ensures
        final(out)@ == old(out)@ + decimal(n as nat),
    decreases n,
{
    if n >= 10 {
        push_decimal(out, n / 10);
    }
    push_char(out, digit(n % 10));
}

/// Appends the lowercase hexadecimal spelling of `n`.
pub fn push_lower_hex(out: &mut String, n: u64)
    ensures
        final(out)@ == old(out)@ + lower_hex(n as nat),
    decreases n,
{
    if n >= 16 {
        push_lower_hex(out, n / 16);
    }
    push_char(out, hex_digit(n % 16));
}

/// The decimal spelling of `n` as a string.
pub fn decimal_string(n: u64) -> (r: String)
    ensures
        r@ == decimal(n as nat),
{
    let mut out = String::new();
    push_decimal(&mut out, n);
    out
}

/// The length of the decimal spelling of `n`.
pub proof fn lemma_decimal_len(n: nat)
    ensures
        decimal(n).len() >= 1,
        n < 10 ==> decimal(n).len() == 1,
        10 <= n < 100 ==> decimal(n).len() == 2,
        100 <= n < 1000 ==> decimal(n).len() == 3,
        1000 <= n < 10000 ==> decimal(n).len() == 4,
    decreases n,
{
    if n >= 10 {
        lemma_decimal_len(n / 10);
    }
}

/// Appends `n` in decimal, left-padded with zeros to `width` characters.
pub fn push_padded_decimal(out: &mut String, n: u64, width: u64)
    requires
        width <= 20,
    ensures
        final(out)@ == old(out)@ + zero_padded(decimal(n as nat), width as nat),
{
    let digits = decimal_string(n);
    let len = digits.unicode_len();
    let mut k: usize = len;
    let ghost before = out@;
    proof { lemma_decimal_len(n as nat); }
    while (k as u64) < width
        invariant
            len == decimal(n as nat).len(),
            len <= k,
            width <= 20,
            k <= (if len >= width { len as int } else { width as int }),
            out@ == before + Seq::new((k - len) as nat, |i: int| '0'),
        decreases width - k,
    {
        push_char(out, '0');
        proof {
            assert(before + Seq::new((k + 1 - len) as nat, |i: int| '0') =~= (before + Seq::new((k - len) as nat, |i: int| '0')).push('0'));
        }
        k = k + 1;
    }
    push_str(out, digits.as_str());
    proof {
        if len >= width {
            assert(Seq::new(0nat, |i: int| '0') + decimal(n as nat) =~= decimal(n as nat));
            assert(before + Seq::new((k - len) as nat, |i: int| '0') =~= before);
        }
        assert(before + Seq::new((k - len) as nat, |i: int| '0') + decimal(n as nat)
            =~= before + zero_padded(decimal(n as nat), width as nat));
    }
}

/// Appends the two lowercase hexadecimal characters of one byte.
pub fn push_byte_hex(out: &mut String, b: u8)
    ensures
        final(out)@ == old(out)@ + byte_hex(b),
{
    push_char(out, hex_digit((b / 16) as u64));
    push_char(out, hex_digit((b % 16) as u64));
    proof {
        assert(old(out)@.push(hex_char((b / 16) as int)).push(hex_char((b % 16) as int)) =~= old(out)@ + byte_hex(b));
    }
}

/// Renders bytes as lowercase hexadecimal, two characters per byte.
pub fn hex_string(bytes: &[u8]) -> (r: String)
    ensures
        r@ == hex_of(bytes@),
        r@.len() == 2 * bytes@.len(),
{
    let mut out = String::new();
    let mut i: usize = 0;
    while i < bytes.len()
        invariant
            i <= bytes.len(),
            out@ == hex_of(bytes@.subrange(0, i as int)),
            out@.len() == 2 * i,
        decreases bytes.len() - i,
    {
        push_byte_hex(&mut out, bytes[i]);
        proof {
            let prefix = bytes@.subrange(0, i + 1);
            assert(prefix.drop_last() =~= bytes@.subrange(0, i as int));
        }
        i = i + 1;
    }
    proof {
        assert(bytes@.subrange(0, bytes@.len() as int) =~= bytes@);
    }
    out
}

/// Whether `pattern` occurs in `text` starting at position `at`.
pub open spec fn occurs_at(text: Seq<char>, pattern: Seq<char>, at: int) -> bool {
    0 <= at && at + pattern.len() <= text.len() && text.subrange(at, at + pattern.len()) == pattern
}

/// Every non-overlapping occurrence of `pattern`, scanned left to right, replaced by `value`.
pub open spec fn replace_all_spec(text: Seq<char>, pattern: Seq<char>, value: Seq<char>) -> Seq<char>
    decreases text.len(),
{
    if text.len() == 0 || pattern.len() == 0 {
        text
    } else if occurs_at(text, pattern, 0) {
        value + replace_all_spec(text.skip(pattern.len() as int), pattern, value)
    } else {
        seq![text[0]] + replace_all_spec(text.skip(1), pattern, value)
    }
}

/// Whether `pattern` occurs anywhere in `text`.
pub open spec fn contains_seq(text: Seq<char>, pattern: Seq<char>) -> bool {
    exists|at: int| occurs_at(text, pattern, at)
}

/// Tests whether `pattern` occurs in `text` at `at`.
pub fn matches_at(text: &Vec<char>, pattern: &Vec<char>, at: usize) -> (r: bool)
    ensures
        r == occurs_at(text@, pattern@, at as int),
{
    if at > text.len() || pattern.len() > text.len() - at {
        return false;
    }
    let mut j: usize = 0;
    while j < pattern.len()
        invariant
            at + pattern.len() <= text.len(),
            j <= pattern.len(),
            forall|k: int| 0 <= k < j ==> text@[at + k] == pattern@[k],
        decreases pattern.len() - j,
    {
        if text[at + j] != pattern[j] {
            proof {
                assert(text@.subrange(at as int, at + pattern.len())[j as int] != pattern@[j as int]);
            }
            return false;
        }
        j = j + 1;
    }
    proof {
        assert(text@.subrange(at as int, at + pattern.len()) =~= pattern@);
    }
    true
}

/// Replaces every non-overlapping occurrence of `pattern` by `value`, left to right.
pub fn replace_all(text: &str, pattern: &str, value: &str) -> (r: String)
    ensures
        r@ == replace_all_spec(text@, pattern@, value@),
{
    let t = chars_of(text);
    let p = chars_of(pattern);
    let mut out = String::new();
    if p.len() == 0 {
        push_str(&mut out, text);
        return out;
    }
    let mut i: usize = 0;
    proof {
        assert(t@.skip(0) =~= t@);
        assert(out@ + replace_all_spec(t@, p@, value@) =~= replace_all_spec(t@, p@, value@));
    }
    while i < t.len()
        invariant
            p@.len() > 0,
            t@ == text@,
            p@ == pattern@,
            i <= t@.len(),
            out@ + replace_all_spec(t@.skip(i as int), p@, value@) == replace_all_spec(t@, p@, value@),
        decreases t.len() - i,
    {
        let ghost rest = t@.skip(i as int);
        if matches_at(&t, &p, i) {
            proof {
                assert(rest.subrange(0, p@.len() as int) =~= t@.subrange(i as int, i + p@.len()));
                assert(occurs_at(rest, p@, 0));
                assert(rest.skip(p@.len() as int) =~= t@.skip(i + p@.len()));
                assert(out@ + value@ + replace_all_spec(t@.skip(i + p@.len()), p@, value@)
                    =~= out@ + (value@ + replace_all_spec(rest.skip(p@.len() as int), p@, value@)));
            }
            push_str(&mut out, value);
            i = i + p.len();
        } else {
            proof {
                if occurs_at(rest, p@, 0) {
                    assert(rest.subrange(0, p@.len() as int) =~= t@.subrange(i as int, i + p@.len()));
                }
                assert(rest.skip(1) =~= t@.skip(i + 1));
                assert(out@.push(t@[i as int]) + replace_all_spec(t@.skip(i + 1), p@, value@)
                    =~= out@ + (seq![rest[0]] + replace_all_spec(rest.skip(1), p@, value@)));
            }
            push_char(&mut out, t[i]);
            i = i + 1;
        }
    }
    proof {
        assert(t@.skip(i as int).len() == 0);
        assert(out@ + t@.skip(i as int) =~= out@);
    }
    out
}


/// Appends the characters of a vector to a string.
pub fn push_chars(out: &mut String, v: &Vec<char>)
    ensures
        final(out)@ == old(out)@ + v@,
{
    let mut i: usize = 0;
    while i < v.len()
        invariant
            i <= v@.len(),
            out@ == old(out)@ + v@.subrange(0, i as int),
        decreases v.len() - i,
    {
        push_char(out, v[i]);
        proof { assert(v@.subrange(0, i + 1) =~= v@.subrange(0, i as int).push(v@[i as int])); }
        i = i + 1;
    }
    proof { assert(v@.subrange(0, v@.len() as int) =~= v@); }
}

/// Whether two character vectors hold the same characters.
pub fn same_chars(a: &Vec<char>, b: &Vec<char>) -> (r: bool)
    ensures
        r == (a@ == b@),
{
    if a.len() != b.len() {
        return false;
    }
    let mut i: usize = 0;
    while i < a.len()
        invariant
            a@.len() == b@.len(),
            i <= a@.len(),
            forall|k: int| 0 <= k < i ==> a@[k] == b@[k],
        decreases a.len() - i,
    {
        if a[i] != b[i] {
            return false;
        }
        i = i + 1;
    }
    proof { assert(a@ =~= b@); }
    true
}

/// Whether two string slices hold the same characters.
pub fn same_text(a: &str, b: &str) -> (r: bool)
    ensures
        r == (a@ == b@),
{
    let x = chars_of(a);
    let y = chars_of(b);
    same_chars(&x, &y)
}

/// Copies a character vector.
pub fn copy_chars(v: &Vec<char>) -> (r: Vec<char>)
    ensures
        r@ == v@,
{
    let mut out: Vec<char> = Vec::new();
    let mut i: usize = 0;
    while i < v.len()
        invariant
            i <= v@.len(),
            out@ == v@.subrange(0, i as int),
        decreases v.len() - i,
    {
        out.push(v[i]);
        i = i + 1;
    }
    proof { assert(v@.subrange(0, v@.len() as int) =~= v@); }
    out
}

/// Whether a character is Unicode white space, as `char::is_whitespace` defines it.
pub open spec fn is_space(c: char) -> bool {
    let n = c as u32;
    ||| 0x09 <= n <= 0x0D
    ||| n == 0x20
    ||| n == 0x85
    ||| n == 0xA0
    ||| n == 0x1680
    ||| 0x2000 <= n <= 0x200A
    ||| n == 0x2028
    ||| n == 0x2029
    ||| n == 0x202F
    ||| n == 0x205F
    ||| n == 0x3000
}

/// Whether a character is Unicode white space.
pub fn is_space_char(c: char) -> (r: bool)
    ensures
        r == is_space(c),
{
    let n = c as u32;
    (0x09 <= n && n <= 0x0D) || n == 0x20 || n == 0x85 || n == 0xA0 || n == 0x1680 || (0x2000
        <= n && n <= 0x200A) || n == 0x2028 || n == 0x2029 || n == 0x202F || n == 0x205F || n
        == 0x3000
}

/// The number of leading characters of `t` from `k` on that are white space.
pub open spec fn first_kept(t: Seq<char>, k: int) -> int
    decreases t.len() - k,
{
    if k >= t.len() {
        t.len() as int
    } else if is_space(t[k]) {
        first_kept(t, k + 1)
    } else {
        k
    }
}

/// The end of `t.take(k)` once trailing white space is removed.
pub open spec fn last_kept(t: Seq<char>, k: int) -> int
    decreases k,
{
    if k <= 0 {
        0
    } else if is_space(t[k - 1]) {
        last_kept(t, k - 1)
    } else {
        k
    }
}

/// `t` without leading and trailing white space, as `str::trim` leaves it.
pub open spec fn trim(t: Seq<char>) -> Seq<char> {
    let a = first_kept(t, 0);
    if a >= t.len() {
        Seq::empty()
    } else {
        t.subrange(a, last_kept(t, t.len() as int))
    }
}

proof fn lemma_first_kept(t: Seq<char>, k: int)
    requires
        0 <= k <= t.len(),
    ensures
        k <= first_kept(t, k) <= t.len(),
        first_kept(t, k) < t.len() ==> !is_space(t[first_kept(t, k)]),
        forall|i: int| k <= i < first_kept(t, k) ==> is_space(t[i]),
    decreases t.len() - k,
{
    if k < t.len() && is_space(t[k]) {
        lemma_first_kept(t, k + 1);
    }
}

proof fn lemma_last_kept(t: Seq<char>, k: int)
    requires
        0 <= k <= t.len(),
    ensures
        0 <= last_kept(t, k) <= k,
        last_kept(t, k) > 0 ==> !is_space(t[last_kept(t, k) - 1]),
        forall|i: int| last_kept(t, k) <= i < k ==> is_space(t[i]),
    decreases k,
{
    if k > 0 && is_space(t[k - 1]) {
        lemma_last_kept(t, k - 1);
    }
}

/// Removes leading and trailing white space.
pub fn trim_chars(t: &Vec<char>) -> (r: Vec<char>)
    ensures
        r@ == trim(t@),
{
    let n = t.len();
    let mut a: usize = 0;
    while a < n && is_space_char(t[a])
        invariant
            n == t@.len(),
            a <= n,
            first_kept(t@, 0) == first_kept(t@, a as int),
        decreases n - a,
    {
        a = a + 1;
    }
    if a >= n {
        return Vec::new();
    }
    let mut b: usize = n;
    while b > 0 && is_space_char(t[b - 1])
        invariant
            n == t@.len(),
            b <= n,
            last_kept(t@, n as int) == last_kept(t@, b as int),
        decreases b,
    {
        b = b - 1;
    }
    proof {
        lemma_first_kept(t@, 0);
        lemma_last_kept(t@, n as int);
        assert(a < n && !is_space(t@[a as int]));
        if b <= a {
            assert(is_space(t@[a as int]));
        }
    }
    let mut out: Vec<char> = Vec::new();
    let mut i: usize = a;
    while i < b
        invariant
            a <= i <= b <= n,
            n == t@.len(),
            out@ == t@.subrange(a as int, i as int),
        decreases b - i,
    {
        out.push(t[i]);
        proof {
            assert(t@.subrange(a as int, i + 1) =~= t@.subrange(a as int, i as int).push(t@[i as int]));
        }
        i = i + 1;
    }
    out
}

/// A character with ASCII upper case mapped to lower case.
pub open spec fn ascii_lower(c: char) -> char {
    if 'A' <= c && c <= 'Z' {
        ((c as u8) + 32) as char
    } else {
        c
    }
}

/// Whether two texts are equal once ASCII letters are compared without case.
pub open spec fn eq_ignore_ascii_case(a: Seq<char>, b: Seq<char>) -> bool {
    a.len() == b.len() && forall|i: int| 0 <= i < a.len() ==> ascii_lower(a[i]) == ascii_lower(b[i])
}

/// Lowers one ASCII letter, leaving every other character as it is.
pub fn lower_of(c: char) -> (r: char)
    ensures
        r == ascii_lower(c),
{
    if 'A' <= c && c <= 'Z' {
        ((c as u8) + 32u8) as char
    } else {
        c
    }
}

/// Compares two texts, ASCII letters without case.
pub fn same_ignoring_ascii_case(a: &Vec<char>, b: &Vec<char>) -> (r: bool)
    ensures
        r == eq_ignore_ascii_case(a@, b@),
{
    if a.len() != b.len() {
        return false;
    }
    let mut i: usize = 0;
    while i < a.len()
        invariant
            a@.len() == b@.len(),
            i <= a@.len(),
            forall|k: int| 0 <= k < i ==> ascii_lower(a@[k]) == ascii_lower(b@[k]),
        decreases a.len() - i,
    {
        if lower_of(a[i]) != lower_of(b[i]) {
            return false;
        }
        i = i + 1;
    }
    true
}

/// Tests whether `pattern` occurs anywhere in `text`.
pub fn contains_chars(text: &Vec<char>, pattern: &Vec<char>) -> (r: bool)
    ensures
        r == contains_seq(text@, pattern@),
{
    let n = text.len();
    let mut at: usize = 0;
    while at < n
        invariant
            n == text@.len(),
            at <= n,
            forall|k: int| 0 <= k < at ==> !occurs_at(text@, pattern@, k),
        decreases n - at,
    {
        if matches_at(text, pattern, at) {
            return true;
        }
        at = at + 1;
    }
    if matches_at(text, pattern, n) {
        return true;
    }
    proof {
        assert forall|k: int| !occurs_at(text@, pattern@, k) by {
            if 0 <= k && k < n {
            }
        }
    }
    false
}

/// Trimming a trimmed text changes nothing.
pub proof fn lemma_trim_idempotent(t: Seq<char>)
    ensures
        trim(trim(t)) == trim(t),
{
    let u = trim(t);
    lemma_first_kept(t, 0);
    lemma_last_kept(t, t.len() as int);
    if u.len() > 0 {
        let a = first_kept(t, 0);
        let b = last_kept(t, t.len() as int);
        if b <= a {
            assert(is_space(t[a]));
        }
        assert(!is_space(u[0]));
        assert(!is_space(u[u.len() - 1]));
        assert(first_kept(u, 0) == 0);
        assert(last_kept(u, u.len() as int) == u.len());
        assert(u.subrange(0, u.len() as int) =~= u);
    }
}

/// Whether a character is an ASCII decimal digit.
pub open spec fn is_decimal_digit(c: char) -> bool {
    '0' <= c && c <= '9'
}

/// Whether a character is a lowercase hexadecimal digit.
pub open spec fn is_hex_digit(c: char) -> bool {
    ('0' <= c && c <= '9') || ('a' <= c && c <= 'f')
}

/// Every character of a decimal spelling is a digit, and the spelling is not empty.
pub proof fn lemma_decimal_digits(n: nat)
    ensures
        decimal(n).len() >= 1,
        forall|i: int| 0 <= i < decimal(n).len() ==> is_decimal_digit(#[trigger] decimal(n)[i]),
        n >= 10 ==> decimal(n).len() >= 2,
    decreases n,
{
    if n >= 10 {
        lemma_decimal_digits(n / 10);
    }
}

/// Every character of a hexadecimal spelling is a hexadecimal digit.
pub proof fn lemma_lower_hex_digits(n: nat)
    ensures
        lower_hex(n).len() >= 1,
        forall|i: int| 0 <= i < lower_hex(n).len() ==> is_hex_digit(#[trigger] lower_hex(n)[i]),
        n >= 16 ==> lower_hex(n).len() >= 2,
    decreases n,
{
    if n >= 16 {
        lemma_lower_hex_digits(n / 16);
    }
}

/// Distinct numbers have distinct decimal spellings.
pub proof fn lemma_decimal_injective(a: nat, b: nat)
    ensures
        decimal(a) == decimal(b) ==> a == b,
    decreases a,
{
    if decimal(a) == decimal(b) {
        lemma_decimal_digits(a);
        lemma_decimal_digits(b);
        let da = decimal(a);
        assert(da.last() == decimal(b).last());
        assert(digit_char((a % 10) as int) == digit_char((b % 10) as int));
        assert(a % 10 == b % 10);
        if a >= 10 && b >= 10 {
            assert(decimal(a / 10) == decimal(a).drop_last());
            assert(decimal(b / 10) == decimal(b).drop_last());
            lemma_decimal_injective(a / 10, b / 10);
        }
    }
}

/// Distinct numbers have distinct hexadecimal spellings.
pub proof fn lemma_lower_hex_injective(a: nat, b: nat)
    ensures
        lower_hex(a) == lower_hex(b) ==> a == b,
    decreases a,
{
    if lower_hex(a) == lower_hex(b) {
        lemma_lower_hex_digits(a);
        lemma_lower_hex_digits(b);
        assert(lower_hex(a).last() == lower_hex(b).last());
        assert(hex_char((a % 16) as int) == hex_char((b % 16) as int));
        assert(a % 16 == b % 16);
        if a >= 16 && b >= 16 {
            assert(lower_hex(a / 16) == lower_hex(a).drop_last());
            assert(lower_hex(b / 16) == lower_hex(b).drop_last());
            lemma_lower_hex_injective(a / 16, b / 16);
        }
    }
}

/// The octal spelling of a natural number, without leading zeros.
pub open spec fn octal(n: nat) -> Seq<char>
    decreases n,
{
    if n < 8 {
        seq![digit_char(n as int)]
    } else {
        octal(n / 8).push(digit_char((n % 8) as int))
    }
}

/// Appends the octal spelling of `n`.
pub fn push_octal(out: &mut String, n: u64)
    ensures
        final(out)@ == old(out)@ + octal(n as nat),
    decreases n,
{
    if n >= 8 {
        push_octal(out, n / 8);
    }
    push_char(out, digit(n % 8));
}

/// The octal spelling of `n`, left-padded with zeros to `width` characters.
pub fn padded_octal(n: u64, width: usize) -> (r: String)
    ensures
        r@ == zero_padded(octal(n as nat), width as nat),
{
    let mut digits = String::new();
    push_octal(&mut digits, n);
    let len = digits.unicode_len();
    let mut out = String::new();
    let mut k: usize = len;
    while k < width
        invariant
            len == octal(n as nat).len(),
            len <= k,
            k <= (if len >= width { len as int } else { width as int }),
            out@ == Seq::new((k - len) as nat, |i: int| '0'),
        decreases width - k,
    {
        push_char(&mut out, '0');
        proof {
            assert(Seq::new((k + 1 - len) as nat, |i: int| '0') =~= Seq::new((k - len) as nat, |i: int| '0').push('0'));
        }
        k = k + 1;
    }
    push_str(&mut out, digits.as_str());
    proof {
        if len >= width {
            assert(Seq::new((k - len) as nat, |i: int| '0') =~= Seq::<char>::empty());
        }
        assert(out@ =~= zero_padded(octal(n as nat), width as nat));
    }
    out
}

/// Whether a character is a control character (Unicode category Cc), as
/// `char::is_control` defines it.
pub open spec fn is_control(c: char) -> bool {
    let n = c as u32;
    n <= 0x1F || (0x7F <= n && n <= 0x9F)
}

/// Whether a character is a control character.
pub fn is_control_char(c: char) -> (r: bool)
    ensures
        r == is_control(c),
{
    let n = c as u32;
    n <= 0x1F || (0x7F <= n && n <= 0x9F)
}

/// Whether a text holds a control character.
pub open spec fn has_control(t: Seq<char>) -> bool {
    exists|i: int| 0 <= i < t.len() && is_control(#[trigger] t[i])
}

/// Whether a text holds a control character.
pub fn holds_control(t: &Vec<char>) -> (r: bool)
    ensures
        r == has_control(t@),
{
    let mut i: usize = 0;
    while i < t.len()
        invariant
            i <= t@.len(),
            forall|k: int| 0 <= k < i ==> !is_control(#[trigger] t@[k]),
        decreases t.len() - i,
    {
        if is_control_char(t[i]) {
            return true;
        }
        i = i + 1;
    }
    false
}

/// The value of a spelling made of decimal digits.
pub open spec fn decimal_value(t: Seq<char>) -> nat
    decreases t.len(),
{
    if t.len() == 0 {
        0
    } else {
        decimal_value(t.drop_last()) * 10 + (t.last() as int - '0' as int) as nat
    }
}

/// A decimal spelling reads back as the number it spells.
pub proof fn lemma_decimal_value(n: nat)
    ensures
        decimal_value(decimal(n)) == n,
    decreases n,
{
    let t = decimal(n);
    let d = (n % 10) as int;
    assert(digit_char(d) as int - '0' as int == d);
    if n < 10 {
        assert(t.drop_last() =~= Seq::<char>::empty());
        assert(t.last() == digit_char(d));
        assert(decimal_value(t) == decimal_value(t.drop_last()) * 10 + (t.last() as int - '0' as int) as nat);
    } else {
        lemma_decimal_value(n / 10);
        assert(t.drop_last() =~= decimal(n / 10));
        assert(t.last() == digit_char(d));
        assert(decimal_value(t) == decimal_value(t.drop_last()) * 10 + (t.last() as int - '0' as int) as nat);
        assert(n == (n / 10) * 10 + n % 10);
    }
}

/// Whether every character of a text is a decimal digit.
pub open spec fn all_decimal(t: Seq<char>) -> bool {
    forall|i: int| 0 <= i < t.len() ==> is_decimal_digit(#[trigger] t[i])
}

/// What `u64::from_str` reads: an optional `+`, then one or more digits whose
/// value fits in 64 bits.
pub open spec fn u64_text(t: Seq<char>) -> Option<u64> {
    let d = if t.len() > 0 && t[0] == '+' { t.skip(1) } else { t };
    if d.len() > 0 && all_decimal(d) && decimal_value(d) <= u64::MAX {
        Some(decimal_value(d) as u64)
    } else {
        None
    }
}

/// The value of the digits of `t` from `from` on, when they are one or more
/// digits and fit in 64 bits.
pub fn digits_from(t: &Vec<char>, from: usize) -> (r: Option<u64>)
    requires
        from <= t@.len(),
    ensures
        ({
            let d = t@.skip(from as int);
            r == (if d.len() > 0 && all_decimal(d) && decimal_value(d) <= u64::MAX {
                Some(decimal_value(d) as u64)
            } else {
                None
            })
        }),
{
    let ghost d = t@.skip(from as int);
    if from >= t.len() {
        return None;
    }
    let mut acc: u64 = 0;
    let mut over = false;
    let mut i: usize = from;
    while i < t.len()
        invariant
            d == t@.skip(from as int),
            from <= i <= t@.len(),
            all_decimal(t@.subrange(from as int, i as int)),
            !over ==> acc == decimal_value(t@.subrange(from as int, i as int)),
            over ==> decimal_value(t@.subrange(from as int, i as int)) > u64::MAX,
        decreases t.len() - i,
    {
        let c = t[i];
        if !('0' <= c && c <= '9') {
            proof {
                assert(d[i - from] == c);
            }
            return None;
        }
        let ghost p = t@.subrange(from as int, i as int);
        proof {
            assert(t@.subrange(from as int, i + 1).drop_last() =~= p);
        }
        let digit: u64 = (c as u64) - ('0' as u64);
        if !over {
            let next: u128 = (acc as u128) * 10 + (digit as u128);
            if next > u64::MAX as u128 {
                over = true;
            } else {
                acc = next as u64;
            }
        }
        i = i + 1;
    }
    proof {
        assert(t@.subrange(from as int, t@.len() as int) =~= d);
    }
    if over {
        None
    } else {
        Some(acc)
    }
}

/// Reads a `u64` the way `u64::from_str` does.
pub fn parse_u64(text: &str) -> (r: Option<u64>)
    ensures
        r == u64_text(text@),
{
    let t = chars_of(text);
    if t.len() > 0 && t[0] == '+' {
        digits_from(&t, 1)
    } else {
        proof {
            assert(t@.skip(0) =~= t@);
        }
        digits_from(&t, 0)
    }
}

} // verus!
