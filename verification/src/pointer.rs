//! RFC 6901 JSON Pointers in canonical form.

use vstd::prelude::*;

use crate::error::DomainError;
use crate::text::{chars_of, push_char, push_str, string_of};

verus! {

/// The index of the first `/` at or after `from`, or the length when none follows.
pub open spec fn next_slash(t: Seq<char>, from: int) -> int
    decreases t.len() - from,
{
    if from >= t.len() {
        t.len() as int
    } else if t[from] == '/' {
        from
    } else {
        next_slash(t, from + 1)
    }
}

/// Puts one character in front of a decoding result.
pub open spec fn prepend(c: char, r: Result<Seq<char>, Option<char>>) -> Result<Seq<char>, Option<char>> {
    match r {
        Ok(s) => Ok(seq![c] + s),
        Err(e) => Err(e),
    }
}

/// Decodes one raw reference token: `~0` is `~`, `~1` is `/`.
///
/// `Err(Some(c))` is an unknown escape `~c`; `Err(None)` is a dangling tilde.
pub open spec fn unescape(raw: Seq<char>) -> Result<Seq<char>, Option<char>>
    decreases raw.len(),
{
    if raw.len() == 0 {
        Ok(Seq::empty())
    } else if raw[0] == '~' {
        if raw.len() == 1 {
            Err(None)
        } else if raw[1] == '0' {
            prepend('~', unescape(raw.skip(2)))
        } else if raw[1] == '1' {
            prepend('/', unescape(raw.skip(2)))
        } else {
            Err(Some(raw[1]))
        }
    } else {
        prepend(raw[0], unescape(raw.skip(1)))
    }
}

/// Decodes the tokens of `t` from the `/` at `start` to the end.
pub open spec fn decode_at(t: Seq<char>, start: int) -> Result<Seq<Seq<char>>, Option<char>>
    decreases t.len() - start,
{
    if start < 0 || start >= t.len() {
        Ok(Seq::empty())
    } else {
        let end = next_slash(t, start + 1);
        match unescape(t.subrange(start + 1, end)) {
            Err(e) => Err(e),
            Ok(token) => if end >= t.len() || end <= start {
                Ok(seq![token])
            } else {
                match decode_at(t, end) {
                    Ok(rest) => Ok(seq![token] + rest),
                    Err(e) => Err(e),
                }
            },
        }
    }
}

/// The decoded tokens of a pointer text that is empty or opens with `/`.
pub open spec fn decode_spec(t: Seq<char>) -> Result<Seq<Seq<char>>, Option<char>> {
    if t.len() == 0 {
        Ok(Seq::empty())
    } else {
        decode_at(t, 0)
    }
}

/// The escaped spelling of one character.
pub open spec fn escape_char(c: char) -> Seq<char> {
    if c == '~' {
        seq!['~', '0']
    } else if c == '/' {
        seq!['~', '1']
    } else {
        seq![c]
    }
}

/// The escaped spelling of one token.
pub open spec fn escape(token: Seq<char>) -> Seq<char>
    decreases token.len(),
{
    if token.len() == 0 {
        Seq::empty()
    } else {
        escape(token.drop_last()) + escape_char(token.last())
    }
}

/// The canonical pointer text of a token sequence.
pub open spec fn encode(tokens: Seq<Seq<char>>) -> Seq<char>
    decreases tokens.len(),
{
    if tokens.len() == 0 {
        Seq::empty()
    } else {
        encode(tokens.drop_last()) + seq!['/'] + escape(tokens.last())
    }
}

/// Whether a text is a canonical pointer: empty, or a slash-led text that decodes.
pub open spec fn is_canonical(t: Seq<char>) -> bool {
    t.len() == 0 || (t[0] == '/' && decode_spec(t) is Ok)
}

/// The views of a vector of strings.
pub open spec fn texts(v: Seq<String>) -> Seq<Seq<char>> {
    v.map_values(|s: String| s@)
}

// ---------------------------------------------------------------- lemmas

proof fn lemma_next_slash_bounds(t: Seq<char>, from: int)
    requires
        0 <= from <= t.len(),
    ensures
        from <= next_slash(t, from) <= t.len(),
        next_slash(t, from) < t.len() ==> t[next_slash(t, from)] == '/',
        forall|k: int| from <= k < next_slash(t, from) ==> t[k] != '/',
    decreases t.len() - from,
{
    if from < t.len() && t[from] != '/' {
        lemma_next_slash_bounds(t, from + 1);
    }
}

proof fn lemma_escape_head(c: char, rest: Seq<char>)
    ensures
        escape(seq![c] + rest) == escape_char(c) + escape(rest),
    decreases rest.len(),
{
    let whole = seq![c] + rest;
    assert(whole.len() > 0);
    assert(escape(whole) == escape(whole.drop_last()) + escape_char(whole.last()));
    if rest.len() == 0 {
        assert(whole.drop_last() =~= Seq::<char>::empty());
        assert(escape(Seq::<char>::empty()) == Seq::<char>::empty());
        assert(whole.last() == c);
        assert(escape_char(c) + escape(rest) =~= escape_char(c));
        assert(escape(whole) =~= escape_char(c));
    } else {
        assert(whole.drop_last() =~= seq![c] + rest.drop_last());
        assert(whole.last() == rest.last());
        lemma_escape_head(c, rest.drop_last());
        assert(escape(rest) == escape(rest.drop_last()) + escape_char(rest.last()));
        assert(escape(whole) =~= escape_char(c) + escape(rest.drop_last()) + escape_char(rest.last()));
        assert(escape_char(c) + escape(rest) =~= escape_char(c) + escape(rest.drop_last()) + escape_char(rest.last()));
    }
}

proof fn lemma_escape_no_slash(token: Seq<char>)
    ensures
        forall|k: int| 0 <= k < escape(token).len() ==> escape(token)[k] != '/',
    decreases token.len(),
{
    if token.len() > 0 {
        lemma_escape_no_slash(token.drop_last());
        let e = escape(token);
        let a = escape(token.drop_last());
        assert forall|k: int| 0 <= k < e.len() implies e[k] != '/' by {
            if k >= a.len() {
                assert(e[k] == escape_char(token.last())[k - a.len()]);
            }
        }
    }
}

proof fn lemma_unescape_escape(token: Seq<char>)
    ensures
        unescape(escape(token)) == Ok::<Seq<char>, Option<char>>(token),
    decreases token.len(),
{
    if token.len() == 0 {
        assert(escape(token) == Seq::<char>::empty());
        assert(token =~= Seq::<char>::empty());
    } else {
        let c = token[0];
        let rest = token.skip(1);
        assert(token =~= seq![c] + rest);
        lemma_escape_head(c, rest);
        lemma_unescape_escape(rest);
        let e = escape(token);
        let er = escape(rest);
        assert(e == escape_char(c) + er);
        if c == '~' {
            assert(e =~= seq!['~', '0'] + er);
            assert(e[0] == '~' && e[1] == '0');
            assert(e.skip(2) =~= er);
            assert(unescape(e) == prepend('~', unescape(e.skip(2))));
        } else if c == '/' {
            assert(e =~= seq!['~', '1'] + er);
            assert(e[0] == '~' && e[1] == '1');
            assert(e.skip(2) =~= er);
            assert(unescape(e) == prepend('/', unescape(e.skip(2))));
        } else {
            assert(e =~= seq![c] + er);
            assert(e[0] == c);
            assert(e.skip(1) =~= er);
            assert(unescape(e) == prepend(c, unescape(e.skip(1))));
        }
        assert(unescape(e) == Ok::<Seq<char>, Option<char>>(seq![c] + rest));
        assert(seq![c] + rest =~= token);
    }
}

proof fn lemma_escape_unescape(raw: Seq<char>)
    requires
        unescape(raw) is Ok,
        forall|k: int| 0 <= k < raw.len() ==> raw[k] != '/',
    ensures
        escape(unescape(raw)->Ok_0) == raw,
    decreases raw.len(),
{
    if raw.len() == 0 {
        assert(unescape(raw)->Ok_0 == Seq::<char>::empty());
        assert(escape(Seq::<char>::empty()) == Seq::<char>::empty());
    } else if raw[0] == '~' {
        let rest = raw.skip(2);
        let c = if raw[1] == '0' { '~' } else { '/' };
        assert(unescape(raw) == prepend(c, unescape(rest)));
        assert forall|k: int| 0 <= k < rest.len() implies rest[k] != '/' by {
            assert(rest[k] == raw[k + 2]);
        }
        lemma_escape_unescape(rest);
        let inner = unescape(rest)->Ok_0;
        assert(unescape(raw)->Ok_0 == seq![c] + inner);
        lemma_escape_head(c, inner);
        assert(escape_char(c) =~= seq!['~', raw[1]]);
        assert(raw =~= seq!['~', raw[1]] + rest);
    } else {
        let rest = raw.skip(1);
        assert(unescape(raw) == prepend(raw[0], unescape(rest)));
        assert forall|k: int| 0 <= k < rest.len() implies rest[k] != '/' by {
            assert(rest[k] == raw[k + 1]);
        }
        lemma_escape_unescape(rest);
        let inner = unescape(rest)->Ok_0;
        lemma_escape_head(raw[0], inner);
        assert(escape_char(raw[0]) =~= seq![raw[0]]);
        assert(raw =~= seq![raw[0]] + rest);
    }
}

proof fn lemma_encode_head(token: Seq<char>, rest: Seq<Seq<char>>)
    ensures
        encode(seq![token] + rest) == seq!['/'] + escape(token) + encode(rest),
    decreases rest.len(),
{
    let whole = seq![token] + rest;
    if rest.len() == 0 {
        assert(whole.drop_last() =~= Seq::<Seq<char>>::empty());
        assert(seq!['/'] + escape(token) + encode(rest) =~= encode(Seq::<Seq<char>>::empty()) + seq!['/'] + escape(token));
    } else {
        assert(whole.drop_last() =~= seq![token] + rest.drop_last());
        lemma_encode_head(token, rest.drop_last());
        assert(seq!['/'] + escape(token) + encode(rest) =~= seq!['/'] + escape(token) + encode(rest.drop_last()) + seq!['/'] + escape(rest.last()));
    }
}

proof fn lemma_next_slash_shift(p: Seq<char>, s: Seq<char>, k: int)
    requires
        0 <= k <= s.len(),
    ensures
        next_slash(p + s, p.len() + k) == p.len() + next_slash(s, k),
    decreases s.len() - k,
{
    if k < s.len() && s[k] != '/' {
        lemma_next_slash_shift(p, s, k + 1);
    }
}

proof fn lemma_decode_shift(p: Seq<char>, s: Seq<char>, k: int)
    requires
        0 <= k <= s.len(),
    ensures
        decode_at(p + s, p.len() + k) == decode_at(s, k),
    decreases s.len() - k,
{
    let t = p + s;
    if k < s.len() {
        lemma_next_slash_shift(p, s, k + 1);
        lemma_next_slash_bounds(s, k + 1);
        let end = next_slash(s, k + 1);
        assert(t.subrange(p.len() + k + 1, p.len() + end) =~= s.subrange(k + 1, end));
        if end < s.len() {
            lemma_decode_shift(p, s, end);
        }
    }
}

/// Decoding the canonical text of any token sequence gives back those tokens.
pub proof fn lemma_decode_encode(tokens: Seq<Seq<char>>)
    ensures
        decode_spec(encode(tokens)) == Ok::<Seq<Seq<char>>, Option<char>>(tokens),
    decreases tokens.len(),
{
    if tokens.len() == 0 {
        assert(tokens =~= Seq::<Seq<char>>::empty());
    } else {
        let a = tokens[0];
        let rest = tokens.skip(1);
        assert(tokens =~= seq![a] + rest);
        lemma_encode_head(a, rest);
        let head = seq!['/'] + escape(a);
        let e = encode(tokens);
        assert(e =~= head + encode(rest));
        lemma_escape_no_slash(a);
        lemma_unescape_escape(a);
        lemma_decode_encode(rest);
        // The first token ends where the head ends.
        if rest.len() == 0 {
            assert(encode(rest) =~= Seq::<char>::empty());
            assert(e =~= head);
            lemma_next_slash_bounds(e, 1);
            assert(next_slash(e, 1) == e.len()) by {
                if next_slash(e, 1) < e.len() {
                    assert(e[next_slash(e, 1)] == escape(a)[next_slash(e, 1) - 1]);
                }
            }
            assert(e.subrange(1, e.len() as int) =~= escape(a));
        } else {
            lemma_encode_head(rest[0], rest.skip(1));
            assert(rest =~= seq![rest[0]] + rest.skip(1));
            let tail = encode(rest);
            assert(tail[0] == '/');
            lemma_next_slash_bounds(e, 1);
            assert(next_slash(e, 1) == head.len()) by {
                lemma_next_slash_shift(head, tail, 0);
                assert(next_slash(tail, 0) == 0);
                let n = next_slash(e, 1);
                if n < head.len() {
                    assert(e[n] == escape(a)[n - 1]);
                }
                assert(e[head.len() as int] == '/');
                if n > head.len() {
                    assert(e[head.len() as int] != '/');
                }
            }
            assert(e.subrange(1, head.len() as int) =~= escape(a));
            lemma_decode_shift(head, tail, 0);
            assert(decode_at(tail, 0) == decode_spec(tail));
            assert(seq![a] + rest =~= tokens);
        }
    }
}

proof fn lemma_encode_decode_at(t: Seq<char>, start: int)
    requires
        0 <= start < t.len(),
        t[start] == '/',
        decode_at(t, start) is Ok,
    ensures
        encode(decode_at(t, start)->Ok_0) == t.subrange(start, t.len() as int),
    decreases t.len() - start,
{
    lemma_next_slash_bounds(t, start + 1);
    let end = next_slash(t, start + 1);
    let raw = t.subrange(start + 1, end);
    let token = unescape(raw)->Ok_0;
    assert forall|k: int| 0 <= k < raw.len() implies raw[k] != '/' by {
        assert(raw[k] == t[start + 1 + k]);
    }
    lemma_escape_unescape(raw);
    if end >= t.len() {
        lemma_encode_head(token, Seq::empty());
        assert(seq![token] + Seq::<Seq<char>>::empty() =~= seq![token]);
        assert(encode(Seq::<Seq<char>>::empty()) =~= Seq::<char>::empty());
        assert(t.subrange(start, t.len() as int) =~= seq!['/'] + raw);
    } else {
        lemma_encode_decode_at(t, end);
        let rest = decode_at(t, end)->Ok_0;
        lemma_encode_head(token, rest);
        assert(t.subrange(start, t.len() as int) =~= seq!['/'] + raw + t.subrange(end, t.len() as int));
    }
}

/// Re-encoding the tokens of a text that decodes gives back that text.
pub proof fn lemma_encode_decode(t: Seq<char>)
    requires
        t.len() == 0 || t[0] == '/',
        decode_spec(t) is Ok,
    ensures
        encode(decode_spec(t)->Ok_0) == t,
{
    if t.len() > 0 {
        lemma_encode_decode_at(t, 0);
        assert(t.subrange(0, t.len() as int) =~= t);
    }
}

// ---------------------------------------------------------------- exec

/// Finds the next `/` at or after `from`.
fn find_slash(t: &Vec<char>, from: usize) -> (r: usize)
    requires
        from <= t@.len(),
    ensures
        r == next_slash(t@, from as int),
{
    let mut i = from;
    while i < t.len() && t[i] != '/'
        invariant
            from <= i <= t@.len(),
            next_slash(t@, from as int) == next_slash(t@, i as int),
        decreases t.len() - i,
    {
        i = i + 1;
    }
    i
}

/// Decodes the raw token `t[from..to]`.
fn unescape_range(t: &Vec<char>, from: usize, to: usize) -> (r: Result<Vec<char>, Option<char>>)
    requires
        from <= to <= t@.len(),
    ensures
        match unescape(t@.subrange(from as int, to as int)) {
            Ok(s) => r matches Ok(v) && v@ == s,
            Err(e) => r == Err::<Vec<char>, Option<char>>(e),
        },
{
    let mut out: Vec<char> = Vec::new();
    let mut i = from;
    proof { assert(out@ + Seq::<char>::empty() =~= out@); }
    while i < to
        invariant
            from <= i <= to <= t@.len(),
            unescape(t@.subrange(from as int, to as int)) == match unescape(t@.subrange(i as int, to as int)) {
                Ok(s) => Ok(out@ + s),
                Err(e) => Err(e),
            },
        decreases to - i,
    {
        let ghost raw = t@.subrange(i as int, to as int);
        let ghost prev = out@;
        let c = t[i];
        let mut ch: char = c;
        let mut step: usize = 1;
        if c == '~' {
            if i + 1 == to {
                return Err(None);
            }
            let next = t[i + 1];
            if next == '0' {
                ch = '~';
            } else if next == '1' {
                ch = '/';
            } else {
                return Err(Some(next));
            }
            step = 2;
        }
        proof {
            assert(raw.skip(step as int) =~= t@.subrange(i + step, to as int));
            assert(unescape(raw) == prepend(ch, unescape(raw.skip(step as int))));
        }
        out.push(ch);
        proof {
            match unescape(t@.subrange(i + step, to as int)) {
                Ok(s) => {
                    assert(prev + (seq![ch] + s) =~= out@ + s);
                },
                Err(_) => {},
            }
        }
        i = i + step;
    }
    proof {
        assert(t@.subrange(i as int, to as int) =~= Seq::<char>::empty());
    }
    Ok(out)
}

/// Splits pointer text into decoded tokens.
fn decode(t: &Vec<char>) -> (r: Result<Vec<String>, Option<char>>)
    requires
        t@.len() > 0,
    ensures
        match decode_at(t@, 0) {
            Ok(tokens) => r matches Ok(v) && texts(v@) == tokens,
            Err(e) => r == Err::<Vec<String>, Option<char>>(e),
        },
{
    let mut tokens: Vec<String> = Vec::new();
    let mut start: usize = 0;
    let n = t.len();
    loop
        invariant
            n == t@.len(),
            start < n,
            decode_at(t@, 0) == match decode_at(t@, start as int) {
                Ok(rest) => Ok(texts(tokens@) + rest),
                Err(e) => Err(e),
            },
        decreases t@.len() - start,
    {
        proof { lemma_next_slash_bounds(t@, start + 1); }
        let end = find_slash(t, start + 1);
        match unescape_range(t, start + 1, end) {
            Err(e) => {
                return Err(e);
            },
            Ok(token) => {
                let s = string_of(&token);
                let ghost before = tokens@;
                tokens.push(s);
                proof {
                    assert(texts(tokens@) =~= texts(before) + seq![token@]);
                }
                if end >= t.len() {
                    proof {
                        assert(texts(tokens@) + Seq::<Seq<char>>::empty() =~= texts(tokens@));
                    }
                    return Ok(tokens);
                }
                proof {
                    assert forall|rest: Seq<Seq<char>>| texts(before) + (seq![token@] + rest) =~= texts(tokens@) + rest by {}
                }
                start = end;
            },
        }
    }
}

/// Escapes one token onto the end of `out`.
fn push_escaped(out: &mut String, token: &str)
    ensures
        final(out)@ == old(out)@ + escape(token@),
{
    let chars = chars_of(token);
    let mut i: usize = 0;
    proof { assert(chars@.subrange(0, 0) =~= Seq::<char>::empty()); }
    while i < chars.len()
        invariant
            chars@ == token@,
            i <= chars@.len(),
            out@ == old(out)@ + escape(chars@.subrange(0, i as int)),
        decreases chars.len() - i,
    {
        let c = chars[i];
        if c == '~' {
            push_char(out, '~');
            push_char(out, '0');
        } else if c == '/' {
            push_char(out, '~');
            push_char(out, '1');
        } else {
            push_char(out, c);
        }
        proof {
            let pre = chars@.subrange(0, i + 1);
            assert(pre.drop_last() =~= chars@.subrange(0, i as int));
            assert(out@ =~= old(out)@ + escape(pre));
        }
        i = i + 1;
    }
    proof { assert(chars@.subrange(0, chars@.len() as int) =~= chars@); }
}

/// Encodes decoded tokens as canonical pointer text.
fn encode_tokens(tokens: &Vec<String>) -> (r: String)
    ensures
        r@ == encode(texts(tokens@)),
{
    let mut out = String::new();
    let mut i: usize = 0;
    proof { assert(texts(tokens@.subrange(0, 0)) =~= Seq::<Seq<char>>::empty()); }
    while i < tokens.len()
        invariant
            i <= tokens@.len(),
            out@ == encode(texts(tokens@.subrange(0, i as int))),
        decreases tokens.len() - i,
    {
        push_char(&mut out, '/');
        push_escaped(&mut out, tokens[i].as_str());
        proof {
            let pre = texts(tokens@.subrange(0, i + 1));
            assert(pre.drop_last() =~= texts(tokens@.subrange(0, i as int)));
            assert(pre.last() == tokens@[i as int]@);
        }
        i = i + 1;
    }
    proof { assert(tokens@.subrange(0, tokens@.len() as int) =~= tokens@); }
    out
}

/// One RFC 6901 JSON Pointer, in canonical form.
#[derive(Debug, PartialEq, Eq)]
pub struct Pointer {
    text: String,
}

impl View for Pointer {
    type V = Seq<char>;

    closed spec fn view(&self) -> Seq<char> {
        self.text@
    }
}

/// The message for a pointer that neither is empty nor opens with a slash.
pub open spec fn no_slash_message(t: Seq<char>) -> Seq<char> {
    "the JSON pointer "@ + t + " must be empty or begin with a slash"@
}

/// The message for a pointer whose escapes do not decode.
pub open spec fn escape_message(t: Seq<char>, e: Option<char>) -> Seq<char> {
    match e {
        Some(c) => "the JSON pointer "@ + t + " contains the unknown escape ~"@ + seq![c],
        None => "the JSON pointer "@ + t + " ends with a dangling tilde"@,
    }
}

impl Pointer {
    /// Every stored pointer text is canonical.
    #[verifier::type_invariant]
    spec fn canonical(self) -> bool {
        is_canonical(self.text@)
    }

    /// Parses a pointer and rejects any non-canonical spelling.
    pub fn parse(text: &str) -> (r: Result<Pointer, DomainError>)
        ensures
            text@.len() == 0 ==> (r matches Ok(p) && p@ == text@),
            text@.len() > 0 && text@[0] != '/' ==>
                (r matches Err(DomainError::Semantic(m)) && m@ == no_slash_message(text@)),
            text@.len() > 0 && text@[0] == '/' ==> match decode_spec(text@) {
                Ok(_) => r matches Ok(p) && p@ == text@,
                Err(e) => r matches Err(DomainError::Semantic(m)) && m@ == escape_message(text@, e),
            },
    {
        let chars = chars_of(text);
        if chars.len() == 0 {
            return Ok(Pointer { text: String::new() });
        }
        if chars[0] != '/' {
            let mut m = String::new();
            push_str(&mut m, "the JSON pointer ");
            push_str(&mut m, text);
            push_str(&mut m, " must be empty or begin with a slash");
            return Err(DomainError::Semantic(m));
        }
        match decode(&chars) {
            Err(e) => {
                let mut m = String::new();
                push_str(&mut m, "the JSON pointer ");
                push_str(&mut m, text);
                match e {
                    Some(c) => {
                        push_str(&mut m, " contains the unknown escape ~");
                        push_char(&mut m, c);
                    },
                    None => {
                        push_str(&mut m, " ends with a dangling tilde");
                    },
                }
                Err(DomainError::Semantic(m))
            },
            Ok(tokens) => {
                let reencoded = encode_tokens(&tokens);
                proof {
                    lemma_encode_decode(text@);
                }
                let owned = string_of(&chars);
                if reencoded == owned {
                    Ok(Pointer { text: owned })
                } else {
                    let mut m = String::new();
                    push_str(&mut m, "the JSON pointer ");
                    push_str(&mut m, text);
                    push_str(&mut m, " is not canonical; write it as ");
                    push_str(&mut m, reencoded.as_str());
                    Err(DomainError::Semantic(m))
                }
            },
        }
    }

    /// Returns the decoded reference tokens, in order.
    pub fn tokens(&self) -> (r: Vec<String>)
        ensures
            texts(r@) == decode_spec(self@)->Ok_0,
            encode(texts(r@)) == self@,
    {
        proof {
            use_type_invariant(self);
            lemma_encode_decode(self.text@);
        }
        let chars = chars_of(self.text.as_str());
        if chars.len() == 0 {
            return Vec::new();
        }
        match decode(&chars) {
            Ok(tokens) => tokens,
            Err(_) => Vec::new(),
        }
    }

    /// Returns the canonical text.
    pub fn as_str(&self) -> (r: &str)
        ensures
            r@ == self@,
            is_canonical(r@),
    {
        proof { use_type_invariant(self); }
        self.text.as_str()
    }

    /// Builds a pointer from already-decoded tokens.
    pub fn from_tokens(tokens: &Vec<String>) -> (r: Pointer)
        ensures
            r@ == encode(texts(tokens@)),
    {
        let text = encode_tokens(tokens);
        proof {
            lemma_decode_encode(texts(tokens@));
            lemma_encode_starts_with_slash(texts(tokens@));
        }
        Pointer { text }
    }

    /// Returns a pointer with the same text.
    pub fn duplicate(&self) -> (r: Pointer)
        ensures
            r@ == self@,
    {
        proof { use_type_invariant(self); }
        Pointer { text: self.text.clone() }
    }
}

proof fn lemma_encode_starts_with_slash(tokens: Seq<Seq<char>>)
    ensures
        encode(tokens).len() == 0 <==> tokens.len() == 0,
        tokens.len() > 0 ==> encode(tokens)[0] == '/',
{
    if tokens.len() > 0 {
        lemma_encode_head(tokens[0], tokens.skip(1));
        assert(tokens =~= seq![tokens[0]] + tokens.skip(1));
    }
}

impl Clone for Pointer {
    fn clone(&self) -> (r: Self)
        ensures
            r@ == self@,
    {
        self.duplicate()
    }
}

/// A pointer's text is the canonical encoding of its own tokens, and the tokens
/// of the encoding of any token list are that list: parsing and rendering
/// undo each other.
pub proof fn law_pointer_round_trip(tokens: Seq<Seq<char>>, text: Seq<char>)
    ensures
        decode_spec(encode(tokens)) == Ok::<Seq<Seq<char>>, Option<char>>(tokens),
        is_canonical(text) ==> encode(decode_spec(text)->Ok_0) == text,
{
    lemma_decode_encode(tokens);
    if is_canonical(text) {
        lemma_encode_decode(text);
    }
}

} // verus!
