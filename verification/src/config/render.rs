//! Renderers for the generated configuration artifacts.
//!
//! Every artifact is LF-normalized and ends with exactly one newline. Rendering
//! is deterministic, so identical descriptors produce identical text and
//! freshness is a plain comparison.

use vstd::prelude::*;

use crate::config::schema::{
    field_views, key_view, key_views, ConfigKey, keys, keys_spec, profile_fields, profile_fields_spec, str_views,
};
use crate::text::{chars_of, copy_chars, is_space, is_space_char, push_char, push_chars, push_str, same_text};

verus! {

// ---------------------------------------------------------------- words

/// The number of bytes a character takes in UTF-8.
pub open spec fn utf8_len(c: char) -> nat {
    let n = c as u32;
    if n < 0x80 {
        1
    } else if n < 0x800 {
        2
    } else if n < 0x10000 {
        3
    } else {
        4
    }
}

/// The number of bytes a text takes in UTF-8.
pub open spec fn width(s: Seq<char>) -> nat
    decreases s.len(),
{
    if s.len() == 0 {
        0
    } else {
        width(s.drop_last()) + utf8_len(s.last())
    }
}

/// The maximal runs of non-space characters of a text, in order.
pub open spec fn words(t: Seq<char>) -> Seq<Seq<char>>
    decreases t.len(),
{
    if t.len() == 0 {
        Seq::empty()
    } else {
        let w = words(t.drop_last());
        let c = t.last();
        if is_space(c) {
            w
        } else if t.len() >= 2 && !is_space(t[t.len() - 2]) {
            w.drop_last().push(w.last().push(c))
        } else {
            w.push(seq![c])
        }
    }
}

/// The widest comment line a description is wrapped to, in bytes.
pub open spec fn wrap_width() -> nat {
    74
}

/// Greedy filling of words onto lines: the finished lines and the open one.
pub open spec fn fill(ws: Seq<Seq<char>>) -> (Seq<Seq<char>>, Seq<char>)
    decreases ws.len(),
{
    if ws.len() == 0 {
        (Seq::empty(), Seq::empty())
    } else {
        let prev = fill(ws.drop_last());
        let w = ws.last();
        if prev.1.len() > 0 && width(prev.1) + 1 + width(w) > wrap_width() {
            (prev.0.push(prev.1), w)
        } else if prev.1.len() > 0 {
            (prev.0, prev.1 + seq![' '] + w)
        } else {
            (prev.0, w)
        }
    }
}

/// A description wrapped onto lines of at most the wrap width, words kept whole.
pub open spec fn wrap(text: Seq<char>) -> Seq<Seq<char>> {
    let f = fill(words(text));
    if f.1.len() > 0 {
        f.0.push(f.1)
    } else {
        f.0
    }
}

/// The views of a vector of character vectors.
pub open spec fn char_vecs(v: Seq<Vec<char>>) -> Seq<Seq<char>> {
    v.map_values(|x: Vec<char>| x@)
}

fn utf8_len_of(c: char) -> (r: u128)
    ensures
        r == utf8_len(c),
        1 <= r <= 4,
{
    let n = c as u32;
    if n < 0x80 {
        1
    } else if n < 0x800 {
        2
    } else if n < 0x10000 {
        3
    } else {
        4
    }
}

fn width_of(w: &Vec<char>) -> (r: u128)
    ensures
        r == width(w@),
        r <= 4 * w@.len(),
{
    let mut acc: u128 = 0;
    let mut i: usize = 0;
    while i < w.len()
        invariant
            i <= w@.len(),
            acc == width(w@.subrange(0, i as int)),
            acc <= 4 * i,
        decreases w.len() - i,
    {
        let n = utf8_len_of(w[i]);
        proof {
            assert(w@.subrange(0, i + 1).drop_last() =~= w@.subrange(0, i as int));
        }
        acc = acc + n;
        i = i + 1;
    }
    proof {
        assert(w@.subrange(0, w@.len() as int) =~= w@);
    }
    acc
}

fn split_words(chars: &Vec<char>) -> (r: Vec<Vec<char>>)
    ensures
        char_vecs(r@) == words(chars@),
        forall|k: int| 0 <= k < r@.len() ==> r@[k]@.len() > 0,
{
    let mut out: Vec<Vec<char>> = Vec::new();
    let mut cur: Vec<char> = Vec::new();
    let mut i: usize = 0;
    proof {
        assert(chars@.subrange(0, 0) =~= Seq::<char>::empty());
        assert(char_vecs(out@) =~= Seq::<Seq<char>>::empty());
    }
    while i < chars.len()
        invariant
            i <= chars@.len(),
            words(chars@.subrange(0, i as int)) == (if cur@.len() > 0 {
                char_vecs(out@).push(cur@)
            } else {
                char_vecs(out@)
            }),
            cur@.len() > 0 <==> (i > 0 && !is_space(chars@[i - 1])),
            forall|k: int| 0 <= k < out@.len() ==> out@[k]@.len() > 0,
        decreases chars.len() - i,
    {
        let c = chars[i];
        let ghost pre = chars@.subrange(0, i as int);
        let ghost next = chars@.subrange(0, i + 1);
        let ghost old_out = char_vecs(out@);
        let ghost old_cur = cur@;
        proof {
            assert(next.drop_last() =~= pre);
            assert(next.last() == c);
            if i > 0 {
                assert(next[next.len() - 2] == chars@[i - 1]);
            }
        }
        if is_space_char(c) {
            proof {
                assert(words(next) == words(pre));
            }
            if cur.len() > 0 {
                let finished = cur;
                cur = Vec::new();
                out.push(finished);
                proof {
                    assert(char_vecs(out@) =~= old_out.push(old_cur));
                }
            }
        } else {
            cur.push(c);
            proof {
                if old_cur.len() > 0 {
                    let w = old_out.push(old_cur);
                    assert(words(pre) == w);
                    assert(words(next) == w.drop_last().push(w.last().push(c)));
                    assert(w.drop_last() =~= old_out);
                    assert(w.last() == old_cur);
                    assert(cur@ =~= old_cur.push(c));
                } else {
                    assert(words(pre) == old_out);
                    assert(words(next) == old_out.push(seq![c]));
                    assert(cur@ =~= seq![c]);
                }
                assert(char_vecs(out@) == old_out);
            }
        }
        i = i + 1;
    }
    proof {
        assert(chars@.subrange(0, chars@.len() as int) =~= chars@);
    }
    if cur.len() > 0 {
        let ghost before = char_vecs(out@);
        out.push(cur);
        proof {
            assert(char_vecs(out@) =~= before.push(out@[out@.len() - 1]@));
        }
    }
    out
}

/// Wraps a description onto comment lines at a fixed width.
fn wrapped(text: &str) -> (r: Vec<Vec<char>>)
    ensures
        char_vecs(r@) == wrap(text@),
{
    let chars = chars_of(text);
    let ws = split_words(&chars);
    let mut lines: Vec<Vec<char>> = Vec::new();
    let mut cur: Vec<char> = Vec::new();
    let mut cur_w: u128 = 0;
    let mut i: usize = 0;
    proof {
        assert(char_vecs(ws@).subrange(0, 0) =~= Seq::<Seq<char>>::empty());
        assert(char_vecs(lines@) =~= Seq::<Seq<char>>::empty());
        assert(cur@ =~= Seq::<char>::empty());
    }
    while i < ws.len()
        invariant
            i <= ws@.len(),
            char_vecs(ws@) == words(chars@),
            fill(char_vecs(ws@).subrange(0, i as int)) == (char_vecs(lines@), cur@),
            cur_w == width(cur@),
            cur_w <= 4 * (usize::MAX as int),
        decreases ws.len() - i,
    {
        let ghost pre = char_vecs(ws@).subrange(0, i as int);
        let ghost next = char_vecs(ws@).subrange(0, i + 1);
        let ghost old_lines = char_vecs(lines@);
        let ghost old_cur = cur@;
        proof {
            assert(next.drop_last() =~= pre);
            assert(next.last() == ws@[i as int]@);
        }
        let ww = width_of(&ws[i]);
        let wl = ws[i].len();
        assert(ww <= 4 * (usize::MAX as int)) by {
            assert(wl <= usize::MAX);
        }
        if cur.len() > 0 && cur_w + 1 + ww > 74 {
            let finished = cur;
            lines.push(finished);
            cur = copy_chars(&ws[i]);
            cur_w = ww;
            proof {
                assert(char_vecs(lines@) =~= old_lines.push(old_cur));
                assert(fill(next) == (old_lines.push(old_cur), ws@[i as int]@));
            }
        } else if cur.len() > 0 {
            cur.push(' ');
            let ghost spaced = cur@;
            let mut k: usize = 0;
            while k < ws[i].len()
                invariant
                    k <= ws@[i as int]@.len(),
                    i < ws@.len(),
                    cur@ == spaced + ws@[i as int]@.subrange(0, k as int),
                decreases ws@[i as int]@.len() - k,
            {
                cur.push(ws[i][k]);
                proof {
                    assert(ws@[i as int]@.subrange(0, k + 1) =~= ws@[i as int]@.subrange(0, k as int).push(ws@[i as int]@[k as int]));
                }
                k = k + 1;
            }
            proof {
                assert(ws@[i as int]@.subrange(0, ws@[i as int]@.len() as int) =~= ws@[i as int]@);
                assert(cur@ =~= old_cur + seq![' '] + ws@[i as int]@);
                lemma_width_concat(old_cur + seq![' '], ws@[i as int]@);
                lemma_width_concat(old_cur, seq![' ']);
                assert(seq![' '].drop_last() =~= Seq::<char>::empty());
                assert(width(Seq::<char>::empty()) == 0);
                assert((' ' as u32) == 0x20);
                assert(utf8_len(' ') == 1);
                assert(width(seq![' ']) == 1);
                assert(width(cur@) == width(old_cur) + 1 + width(ws@[i as int]@));
                assert(fill(next) == (old_lines, old_cur + seq![' '] + ws@[i as int]@));
            }
            cur_w = cur_w + 1 + ww;
        } else {
            cur = copy_chars(&ws[i]);
            cur_w = ww;
        }
        i = i + 1;
    }
    proof {
        assert(char_vecs(ws@).subrange(0, ws@.len() as int) =~= char_vecs(ws@));
    }
    if cur.len() > 0 {
        let ghost before = char_vecs(lines@);
        lines.push(cur);
        proof {
            assert(char_vecs(lines@) =~= before.push(lines@[lines@.len() - 1]@));
        }
    }
    lines
}

proof fn lemma_width_concat(a: Seq<char>, b: Seq<char>)
    ensures
        width(a + b) == width(a) + width(b),
    decreases b.len(),
{
    if b.len() == 0 {
        assert(a + b =~= a);
    } else {
        lemma_width_concat(a, b.drop_last());
        assert((a + b).drop_last() =~= a + b.drop_last());
        assert((a + b).last() == b.last());
    }
}


// ---------------------------------------------------------------- artifacts

/// Comment lines, each `# ` + line + newline.
pub open spec fn comment_block(lines: Seq<Seq<char>>) -> Seq<char>
    decreases lines.len(),
{
    if lines.len() == 0 {
        Seq::empty()
    } else {
        comment_block(lines.drop_last()) + "# "@ + lines.last() + seq!['\n']
    }
}

/// The copy steps of a header, each indented under a comment mark.
pub open spec fn steps_block(steps: Seq<Seq<char>>) -> Seq<char>
    decreases steps.len(),
{
    if steps.len() == 0 {
        Seq::empty()
    } else {
        steps_block(steps.drop_last()) + "#     "@ + steps.last() + seq!['\n']
    }
}

/// The lines every generated artifact opens with, before its own body.
pub open spec fn header_spec(kind: Seq<char>, source: Seq<char>, steps: Seq<Seq<char>>) -> Seq<char> {
    "# Example "@ + kind + " for session-wrapper.\n"@ + "#\n"@ + "# GENERATED from "@ + source
        + ". Do not edit in place; edit the\n"@
        + "# type and regenerate with `cargo xtask gen-config`.\n"@ + "#\n"@
        + "# Copy it where it belongs and edit it there:\n"@ + steps_block(steps) + "#\n"@
        + "# The wrapper never writes your configuration. A missing file is not an error.\n"@
        + "#\n"@ + "# Every value below is an obviously fake placeholder. Replace before use.\n"@
}

/// Where the configuration example is copied to.
pub open spec fn config_steps() -> Seq<Seq<char>> {
    seq![
        "cp docs/reference/examples/config.example.toml \\"@,
        "   \"${XDG_CONFIG_HOME:-$HOME/.config}/session-wrapper/config.toml\""@,
    ]
}

/// Where the profile example is copied to.
pub open spec fn profile_steps() -> Seq<Seq<char>> {
    seq![
        "cp docs/reference/examples/profile.example.yaml \\"@,
        "   \"${XDG_CONFIG_HOME:-$HOME/.config}/session-wrapper/profiles/dev.yaml\""@,
    ]
}

/// A key's example value: a boolean literal bare, anything else quoted.
pub open spec fn toml_value(k: (Seq<char>, Seq<char>, bool, Seq<char>, Seq<char>)) -> Seq<char> {
    if k.1 == "boolean"@ {
        k.4
    } else {
        seq!['"'] + k.4 + seq!['"']
    }
}

/// One key of the configuration example: its wrapped description, then the
/// key itself, commented out unless it is required.
pub open spec fn toml_key_block(k: (Seq<char>, Seq<char>, bool, Seq<char>, Seq<char>)) -> Seq<char> {
    seq!['\n'] + comment_block(wrap(k.3)) + (if k.2 {
        Seq::empty()
    } else {
        "# "@
    }) + k.0 + " = "@ + toml_value(k) + seq!['\n']
}

/// The key blocks of a key list, in order.
pub open spec fn toml_blocks(ks: Seq<(Seq<char>, Seq<char>, bool, Seq<char>, Seq<char>)>) -> Seq<char>
    decreases ks.len(),
{
    if ks.len() == 0 {
        Seq::empty()
    } else {
        toml_blocks(ks.drop_last()) + toml_key_block(ks.last())
    }
}

/// The configuration example.
pub open spec fn config_example_spec() -> Seq<char> {
    header_spec("configuration"@, "the wrapper's configuration type"@, config_steps())
        + toml_blocks(keys_spec())
}

/// The JSON string escape of one character.
pub open spec fn escape_one(c: char) -> Seq<char> {
    if c == '\\' {
        seq!['\\', '\\']
    } else if c == '"' {
        seq!['\\', '"']
    } else {
        seq![c]
    }
}

/// A description escaped for a JSON string literal.
pub open spec fn json_escape(t: Seq<char>) -> Seq<char>
    decreases t.len(),
{
    if t.len() == 0 {
        Seq::empty()
    } else {
        json_escape(t.drop_last()) + escape_one(t.last())
    }
}

/// One member of the schema's `properties` object.
pub open spec fn property_spec(k: (Seq<char>, Seq<char>, bool, Seq<char>, Seq<char>)) -> Seq<char> {
    "    \""@ + k.0 + "\": {\n      \"type\": \""@ + k.1 + "\",\n      \"description\": \""@
        + json_escape(k.3) + "\"\n    }"@
}

/// The members of the schema's `properties` object, one per line.
pub open spec fn properties_spec(ks: Seq<(Seq<char>, Seq<char>, bool, Seq<char>, Seq<char>)>) -> Seq<char>
    decreases ks.len(),
{
    if ks.len() == 0 {
        Seq::empty()
    } else {
        let p = properties_spec(ks.drop_last());
        (if ks.len() > 1 {
            p + ",\n"@
        } else {
            p
        }) + property_spec(ks.last())
    }
}

/// The names of the required keys, in order.
pub open spec fn required_names(ks: Seq<(Seq<char>, Seq<char>, bool, Seq<char>, Seq<char>)>) -> Seq<Seq<char>>
    decreases ks.len(),
{
    if ks.len() == 0 {
        Seq::empty()
    } else {
        let r = required_names(ks.drop_last());
        if ks.last().2 {
            r.push(ks.last().0)
        } else {
            r
        }
    }
}

/// Names, each quoted, joined by a comma and a space.
pub open spec fn quoted_list(ns: Seq<Seq<char>>) -> Seq<char>
    decreases ns.len(),
{
    if ns.len() == 0 {
        Seq::empty()
    } else {
        let q = quoted_list(ns.drop_last());
        (if ns.len() > 1 {
            q + ", "@
        } else {
            q
        }) + seq!['"'] + ns.last() + seq!['"']
    }
}

/// The schema's `required` line, absent when no key is required.
pub open spec fn required_line(ks: Seq<(Seq<char>, Seq<char>, bool, Seq<char>, Seq<char>)>) -> Seq<char> {
    if required_names(ks).len() == 0 {
        Seq::empty()
    } else {
        "  \"required\": ["@ + quoted_list(required_names(ks)) + "],\n"@
    }
}

/// The JSON Schema of the configuration file.
pub open spec fn schema_spec() -> Seq<char> {
    "{\n"@ + "  \"$schema\": \"https://json-schema.org/draft/2020-12/schema\",\n"@
        + "  \"title\": \"session-wrapper configuration\",\n"@ + "  \"type\": \"object\",\n"@
        + "  \"additionalProperties\": false,\n"@ + required_line(keys_spec())
        + "  \"properties\": {\n"@ + properties_spec(keys_spec()) + "\n  }\n"@ + "}\n"@
}

/// Body lines, each followed by a newline.
pub open spec fn body_block(lines: Seq<Seq<char>>) -> Seq<char>
    decreases lines.len(),
{
    if lines.len() == 0 {
        Seq::empty()
    } else {
        body_block(lines.drop_last()) + lines.last() + seq!['\n']
    }
}

/// One field of the profile example.
pub open spec fn field_block(f: (Seq<char>, Seq<char>, Seq<Seq<char>>)) -> Seq<char> {
    seq!['\n'] + comment_block(wrap(f.1)) + f.0 + ":\n"@ + body_block(f.2)
}

/// The field blocks of a field list, in order.
pub open spec fn field_blocks(fs: Seq<(Seq<char>, Seq<char>, Seq<Seq<char>>)>) -> Seq<char>
    decreases fs.len(),
{
    if fs.len() == 0 {
        Seq::empty()
    } else {
        field_blocks(fs.drop_last()) + field_block(fs.last())
    }
}

/// The profile example.
pub open spec fn profile_example_spec() -> Seq<char> {
    header_spec("profile"@, "the profile type"@, profile_steps()) + field_blocks(profile_fields_spec())
}

/// Appends comment lines to `out`.
fn push_comment_lines(out: &mut String, lines: &Vec<Vec<char>>)
    ensures
        final(out)@ == old(out)@ + comment_block(char_vecs(lines@)),
{
    let mut i: usize = 0;
    proof {
        assert(char_vecs(lines@).subrange(0, 0) =~= Seq::<Seq<char>>::empty());
    }
    while i < lines.len()
        invariant
            i <= lines@.len(),
            out@ == old(out)@ + comment_block(char_vecs(lines@).subrange(0, i as int)),
        decreases lines.len() - i,
    {
        push_str(out, "# ");
        push_chars(out, &lines[i]);
        push_char(out, '\n');
        proof {
            let next = char_vecs(lines@).subrange(0, i + 1);
            assert(next.drop_last() =~= char_vecs(lines@).subrange(0, i as int));
            assert(next.last() == lines@[i as int]@);
        }
        i = i + 1;
    }
    proof {
        assert(char_vecs(lines@).subrange(0, lines@.len() as int) =~= char_vecs(lines@));
    }
}

/// The lines every generated artifact opens with, before its own body.
///
/// A header names the copy destination and states that the wrapper never
/// writes configuration, because a reader who finds the file in a repository
/// has to know it is a template rather than the live file.
fn header(kind: &str, source: &str, destination: &Vec<&'static str>) -> (r: String)
    ensures
        r@ == header_spec(kind@, source@, str_views(destination@)),
{
    let mut out = String::new();
    push_str(&mut out, "# Example ");
    push_str(&mut out, kind);
    push_str(&mut out, " for session-wrapper.\n");
    push_str(&mut out, "#\n");
    push_str(&mut out, "# GENERATED from ");
    push_str(&mut out, source);
    push_str(&mut out, ". Do not edit in place; edit the\n");
    push_str(&mut out, "# type and regenerate with `cargo xtask gen-config`.\n");
    push_str(&mut out, "#\n");
    push_str(&mut out, "# Copy it where it belongs and edit it there:\n");
    let ghost opening = out@;
    let mut i: usize = 0;
    proof {
        assert(str_views(destination@).subrange(0, 0) =~= Seq::<Seq<char>>::empty());
        assert(out@ =~= opening + steps_block(Seq::<Seq<char>>::empty()));
    }
    while i < destination.len()
        invariant
            i <= destination@.len(),
            out@ == opening + steps_block(str_views(destination@).subrange(0, i as int)),
        decreases destination.len() - i,
    {
        push_str(&mut out, "#     ");
        push_str(&mut out, destination[i]);
        push_char(&mut out, '\n');
        proof {
            let next = str_views(destination@).subrange(0, i + 1);
            assert(next.drop_last() =~= str_views(destination@).subrange(0, i as int));
            assert(next.last() == destination@[i as int]@);
        }
        i = i + 1;
    }
    proof {
        assert(str_views(destination@).subrange(0, destination@.len() as int) =~= str_views(destination@));
    }
    push_str(&mut out, "#\n");
    push_str(&mut out, "# The wrapper never writes your configuration. A missing file is not an error.\n");
    push_str(&mut out, "#\n");
    push_str(&mut out, "# Every value below is an obviously fake placeholder. Replace before use.\n");
    proof {
        assert(out@ =~= header_spec(kind@, source@, str_views(destination@)));
    }
    out
}

/// Escapes a description for a JSON string literal.
fn escape(text: &str) -> (r: String)
    ensures
        r@ == json_escape(text@),
{
    let chars = chars_of(text);
    let mut out = String::new();
    let mut i: usize = 0;
    proof {
        assert(chars@.subrange(0, 0) =~= Seq::<char>::empty());
    }
    while i < chars.len()
        invariant
            i <= chars@.len(),
            out@ == json_escape(chars@.subrange(0, i as int)),
        decreases chars.len() - i,
    {
        let c = chars[i];
        if c == '\\' {
            push_char(&mut out, '\\');
            push_char(&mut out, '\\');
        } else if c == '"' {
            push_char(&mut out, '\\');
            push_char(&mut out, '"');
        } else {
            push_char(&mut out, c);
        }
        proof {
            let next = chars@.subrange(0, i + 1);
            assert(next.drop_last() =~= chars@.subrange(0, i as int));
            assert(out@ =~= json_escape(next));
        }
        i = i + 1;
    }
    proof {
        assert(chars@.subrange(0, chars@.len() as int) =~= chars@);
    }
    out
}

/// Appends one key of the configuration example.
fn push_key_block(out: &mut String, key: &ConfigKey)
    ensures
        final(out)@ == old(out)@ + toml_key_block(key_view(*key)),
{
    let ghost before = out@;
    push_char(out, '\n');
    let lines = wrapped(key.description);
    push_comment_lines(out, &lines);
    if !key.required {
        push_str(out, "# ");
    }
    push_str(out, key.name);
    push_str(out, " = ");
    if same_text(key.value_type, "boolean") {
        push_str(out, key.placeholder);
    } else {
        push_char(out, '"');
        push_str(out, key.placeholder);
        push_char(out, '"');
    }
    push_char(out, '\n');
    proof {
        assert(out@ =~= before + toml_key_block(key_view(*key)));
    }
}

/// Renders the copyable configuration example.
///
/// Every key is optional, so the uncommented body is already a minimal valid
/// configuration and each commented key is independently usable.
pub fn config_example_toml() -> (r: String)
    ensures
        r@ == config_example_spec(),
{
    let mut steps: Vec<&'static str> = Vec::new();
    steps.push("cp docs/reference/examples/config.example.toml \\");
    steps.push("   \"${XDG_CONFIG_HOME:-$HOME/.config}/session-wrapper/config.toml\"");
    proof {
        assert(str_views(steps@) =~= config_steps());
    }
    let mut out = header("configuration", "the wrapper's configuration type", &steps);
    let ks = keys();
    let ghost opening = out@;
    let mut i: usize = 0;
    proof {
        assert(key_views(ks@).subrange(0, 0) =~= Seq::<(Seq<char>, Seq<char>, bool, Seq<char>, Seq<char>)>::empty());
        assert(out@ =~= opening + toml_blocks(key_views(ks@).subrange(0, 0)));
    }
    while i < ks.len()
        invariant
            i <= ks@.len(),
            key_views(ks@) == keys_spec(),
            out@ == opening + toml_blocks(key_views(ks@).subrange(0, i as int)),
        decreases ks.len() - i,
    {
        let key = &ks[i];
        let ghost k = key_views(ks@)[i as int];
        push_key_block(&mut out, key);
        proof {
            assert(k == key_view(*key));
            let next = key_views(ks@).subrange(0, i + 1);
            assert(next.drop_last() =~= key_views(ks@).subrange(0, i as int));
            assert(next.last() == k);
        }
        i = i + 1;
    }
    proof {
        assert(key_views(ks@).subrange(0, ks@.len() as int) =~= key_views(ks@));
    }
    out
}


/// Appends one member of the schema's `properties` object, after a separator
/// unless it is the first.
fn push_property(out: &mut String, key: &ConfigKey, separated: bool)
    ensures
        final(out)@ == old(out)@ + (if separated {
            ",\n"@
        } else {
            Seq::empty()
        }) + property_spec(key_view(*key)),
{
    let ghost before = out@;
    if separated {
        push_str(out, ",\n");
    }
    let ghost mid = out@;
    push_str(out, "    \"");
    push_str(out, key.name);
    push_str(out, "\": {\n      \"type\": \"");
    push_str(out, key.value_type);
    push_str(out, "\",\n      \"description\": \"");
    let escaped = escape(key.description);
    push_str(out, escaped.as_str());
    push_str(out, "\"\n    }");
    proof {
        assert(out@ =~= mid + property_spec(key_view(*key)));
        if separated {
            assert(mid =~= before + ",\n"@);
        } else {
            assert(mid =~= before + Seq::<char>::empty());
        }
    }
}

/// Renders the JSON Schema for the configuration file.
///
/// `additionalProperties` is `false`, matching the strict decoding of the
/// file, so the schema and the program agree about what a valid file is.
pub fn config_schema_json() -> (r: String)
    ensures
        r@ == schema_spec(),
{
    let ks = keys();
    let mut properties = String::new();
    let mut required: Vec<&'static str> = Vec::new();
    let mut i: usize = 0;
    proof {
        assert(key_views(ks@).subrange(0, 0) =~= Seq::<(Seq<char>, Seq<char>, bool, Seq<char>, Seq<char>)>::empty());
        assert(str_views(required@) =~= Seq::<Seq<char>>::empty());
    }
    while i < ks.len()
        invariant
            i <= ks@.len(),
            key_views(ks@) == keys_spec(),
            properties@ == properties_spec(key_views(ks@).subrange(0, i as int)),
            str_views(required@) == required_names(key_views(ks@).subrange(0, i as int)),
        decreases ks.len() - i,
    {
        let key = &ks[i];
        let ghost k = key_views(ks@)[i as int];
        let ghost before = properties@;
        let ghost before_required = str_views(required@);
        push_property(&mut properties, key, i > 0);
        if key.required {
            required.push(key.name);
        }
        proof {
            assert(k == (key.name@, key.value_type@, key.required, key.description@, key.placeholder@));
            let next = key_views(ks@).subrange(0, i + 1);
            assert(next.drop_last() =~= key_views(ks@).subrange(0, i as int));
            assert(next.last() == k);
            assert(k == key_view(*key));
            assert(properties@ =~= properties_spec(next));
            if key.required {
                assert(str_views(required@) =~= before_required.push(key.name@));
            }
        }
        i = i + 1;
    }
    proof {
        assert(key_views(ks@).subrange(0, ks@.len() as int) =~= key_views(ks@));
    }
    let mut out = String::new();
    push_str(&mut out, "{\n");
    push_str(&mut out, "  \"$schema\": \"https://json-schema.org/draft/2020-12/schema\",\n");
    push_str(&mut out, "  \"title\": \"session-wrapper configuration\",\n");
    push_str(&mut out, "  \"type\": \"object\",\n");
    push_str(&mut out, "  \"additionalProperties\": false,\n");
    if required.len() > 0 {
        push_str(&mut out, "  \"required\": [");
        let ghost opening = out@;
        let mut j: usize = 0;
        proof {
            assert(str_views(required@).subrange(0, 0) =~= Seq::<Seq<char>>::empty());
            assert(out@ =~= opening + quoted_list(Seq::<Seq<char>>::empty()));
        }
        while j < required.len()
            invariant
                j <= required@.len(),
                out@ == opening + quoted_list(str_views(required@).subrange(0, j as int)),
            decreases required.len() - j,
        {
            let ghost before = out@;
            if j > 0 {
                push_str(&mut out, ", ");
            }
            push_char(&mut out, '"');
            push_str(&mut out, required[j]);
            push_char(&mut out, '"');
            proof {
                let next = str_views(required@).subrange(0, j + 1);
                assert(next.drop_last() =~= str_views(required@).subrange(0, j as int));
                assert(next.last() == required@[j as int]@);
                assert(out@ =~= opening + quoted_list(next));
            }
            j = j + 1;
        }
        proof {
            assert(str_views(required@).subrange(0, required@.len() as int) =~= str_views(required@));
        }
        push_str(&mut out, "],\n");
    }
    push_str(&mut out, "  \"properties\": {\n");
    push_str(&mut out, properties.as_str());
    push_str(&mut out, "\n  }\n");
    push_str(&mut out, "}\n");
    proof {
        assert(out@ =~= schema_spec());
    }
    out
}

/// Renders the profile example from the profile type's field descriptor.
pub fn profile_example_yaml() -> (r: String)
    ensures
        r@ == profile_example_spec(),
{
    let mut steps: Vec<&'static str> = Vec::new();
    steps.push("cp docs/reference/examples/profile.example.yaml \\");
    steps.push("   \"${XDG_CONFIG_HOME:-$HOME/.config}/session-wrapper/profiles/dev.yaml\"");
    proof {
        assert(str_views(steps@) =~= profile_steps());
    }
    let mut out = header("profile", "the profile type", &steps);
    let fs = profile_fields();
    let ghost opening = out@;
    let mut i: usize = 0;
    proof {
        assert(field_views(fs@).subrange(0, 0) =~= Seq::<(Seq<char>, Seq<char>, Seq<Seq<char>>)>::empty());
        assert(out@ =~= opening + field_blocks(field_views(fs@).subrange(0, 0)));
    }
    while i < fs.len()
        invariant
            i <= fs@.len(),
            field_views(fs@) == profile_fields_spec(),
            out@ == opening + field_blocks(field_views(fs@).subrange(0, i as int)),
        decreases fs.len() - i,
    {
        let field = &fs[i];
        let ghost f = field_views(fs@)[i as int];
        let ghost before = out@;
        push_char(&mut out, '\n');
        let lines = wrapped(field.description);
        push_comment_lines(&mut out, &lines);
        push_str(&mut out, field.name);
        push_str(&mut out, ":\n");
        let ghost mid = out@;
        let mut j: usize = 0;
        proof {
            assert(str_views(field.body@).subrange(0, 0) =~= Seq::<Seq<char>>::empty());
            assert(out@ =~= mid + body_block(Seq::<Seq<char>>::empty()));
        }
        while j < field.body.len()
            invariant
                i < fs@.len(),
                field == &fs@[i as int],
                j <= field.body@.len(),
                out@ == mid + body_block(str_views(field.body@).subrange(0, j as int)),
            decreases field.body.len() - j,
        {
            push_str(&mut out, field.body[j]);
            push_char(&mut out, '\n');
            proof {
                let next = str_views(field.body@).subrange(0, j + 1);
                assert(next.drop_last() =~= str_views(field.body@).subrange(0, j as int));
                assert(next.last() == field.body@[j as int]@);
            }
            j = j + 1;
        }
        proof {
            assert(str_views(field.body@).subrange(0, field.body@.len() as int) =~= str_views(field.body@));
            assert(f == (field.name@, field.description@, str_views(field.body@)));
            assert(out@ =~= before + field_block(f));
            let next = field_views(fs@).subrange(0, i + 1);
            assert(next.drop_last() =~= field_views(fs@).subrange(0, i as int));
            assert(next.last() == f);
        }
        i = i + 1;
    }
    proof {
        assert(field_views(fs@).subrange(0, fs@.len() as int) =~= field_views(fs@));
    }
    out
}

/// Returns every generated artifact as `(repository-relative path, contents)`.
///
/// One list, so the generator, the freshness check and the tests cannot
/// disagree about which files are generated.
pub fn artifacts() -> (r: Vec<(&'static str, String)>)
    ensures
        r@.len() == 3,
        r@[0].0@ == "docs/reference/examples/config.example.toml"@,
        r@[0].1@ == config_example_spec(),
        r@[1].0@ == "docs/reference/examples/config.schema.json"@,
        r@[1].1@ == schema_spec(),
        r@[2].0@ == "docs/reference/examples/profile.example.yaml"@,
        r@[2].1@ == profile_example_spec(),
{
    let mut r: Vec<(&'static str, String)> = Vec::new();
    r.push(("docs/reference/examples/config.example.toml", config_example_toml()));
    r.push(("docs/reference/examples/config.schema.json", config_schema_json()));
    r.push(("docs/reference/examples/profile.example.yaml", profile_example_yaml()));
    r
}

/// Whether a text ends in a line break that is not preceded by another.
pub open spec fn ends_in_one_newline(t: Seq<char>) -> bool {
    t.len() >= 2 && t.last() == '\n' && t[t.len() - 2] != '\n'
}

proof fn lemma_tail(a: Seq<char>, b: Seq<char>)
    requires
        ends_in_one_newline(b),
    ensures
        ends_in_one_newline(a + b),
{
    let t = a + b;
    assert(t[t.len() - 1] == b[b.len() - 1]);
    assert(t[t.len() - 2] == b[b.len() - 2]);
}

/// Every generated artifact ends in exactly one line break: the last line
/// is terminated and no blank line trails it.
pub proof fn law_artifacts_end_in_one_newline()
    ensures
        ends_in_one_newline(config_example_spec()),
        ends_in_one_newline(schema_spec()),
        ends_in_one_newline(profile_example_spec()),
{
    reveal_strlit("}\n");
    lemma_tail(
        "{\n"@ + "  \"$schema\": \"https://json-schema.org/draft/2020-12/schema\",\n"@
            + "  \"title\": \"session-wrapper configuration\",\n"@ + "  \"type\": \"object\",\n"@
            + "  \"additionalProperties\": false,\n"@ + required_line(keys_spec()) + "  \"properties\": {\n"@
            + properties_spec(keys_spec()) + "\n  }\n"@,
        "}\n"@,
    );
    let ks = keys_spec();
    let k = ks.last();
    reveal_strlit("string");
    reveal_strlit("boolean");
    assert(k.1 == "string"@);
    assert(k.1 != "boolean"@);
    let tail = seq!['"'] + k.4 + seq!['"'] + seq!['\n'];
    assert(ends_in_one_newline(tail));
    let block = toml_key_block(k);
    assert(block =~= (seq!['\n'] + comment_block(wrap(k.3)) + "# "@ + k.0 + " = "@) + tail);
    lemma_tail(seq!['\n'] + comment_block(wrap(k.3)) + "# "@ + k.0 + " = "@, tail);
    assert(toml_blocks(ks) == toml_blocks(ks.drop_last()) + block);
    lemma_tail(toml_blocks(ks.drop_last()), block);
    lemma_tail(header_spec("configuration"@, "the wrapper's configuration type"@, config_steps()), toml_blocks(ks));
    let fs = profile_fields_spec();
    let f = fs.last();
    let lines = f.2;
    let last_line = lines.last();
    reveal_strlit("  \"/hooks/PreToolUse\": { strategy: merge-by-key, key: matcher }");
    assert(last_line.len() > 0 && last_line.last() == '}');
    let ending = last_line + seq!['\n'];
    assert(ending[ending.len() - 2] == '}');
    assert(ends_in_one_newline(ending));
    assert(body_block(lines) =~= body_block(lines.drop_last()) + ending);
    lemma_tail(body_block(lines.drop_last()), ending);
    let fb = field_block(f);
    assert(fb =~= (seq!['\n'] + comment_block(wrap(f.1)) + f.0 + ":\n"@) + body_block(lines));
    lemma_tail(seq!['\n'] + comment_block(wrap(f.1)) + f.0 + ":\n"@, body_block(lines));
    assert(field_blocks(fs) == field_blocks(fs.drop_last()) + fb);
    lemma_tail(field_blocks(fs.drop_last()), fb);
    lemma_tail(header_spec("profile"@, "the profile type"@, profile_steps()), field_blocks(fs));
}

/// Whether a text holds no carriage return.
pub open spec fn no_cr(t: Seq<char>) -> bool {
    forall|i: int| 0 <= i < t.len() ==> t[i] != '\r'
}

/// Whether no text of a list holds a carriage return.
pub open spec fn none_cr(ts: Seq<Seq<char>>) -> bool {
    forall|i: int| 0 <= i < ts.len() ==> no_cr(#[trigger] ts[i])
}

proof fn lemma_cat(a: Seq<char>, b: Seq<char>)
    requires
        no_cr(a),
        no_cr(b),
    ensures
        no_cr(a + b),
{
    assert forall|i: int| 0 <= i < (a + b).len() implies (a + b)[i] != '\r' by {
        if i < a.len() {
            assert((a + b)[i] == a[i]);
        } else {
            assert((a + b)[i] == b[i - a.len()]);
        }
    }
}

proof fn lemma_words(t: Seq<char>)
    ensures
        none_cr(words(t)),
        t.len() > 0 && !is_space(t.last()) ==> words(t).len() > 0,
    decreases t.len(),
{
    if t.len() > 0 {
        lemma_words(t.drop_last());
        let w = words(t.drop_last());
        let c = t.last();
        if !is_space(c) {
            assert(c != '\r');
            if t.len() >= 2 && !is_space(t[t.len() - 2]) {
                assert(t.drop_last().last() == t[t.len() - 2]);
                assert(w.len() > 0);
                assert(no_cr(w.last()));
                assert(no_cr(w.last().push(c)));
                let r = w.drop_last().push(w.last().push(c));
                assert forall|i: int| 0 <= i < r.len() implies no_cr(#[trigger] r[i]) by {
                    if i < r.len() - 1 {
                        assert(r[i] == w[i]);
                    }
                }
            } else {
                let r = w.push(seq![c]);
                assert forall|i: int| 0 <= i < r.len() implies no_cr(#[trigger] r[i]) by {
                    if i < r.len() - 1 {
                        assert(r[i] == w[i]);
                    }
                }
            }
        }
    }
}

proof fn lemma_fill(ws: Seq<Seq<char>>)
    requires
        none_cr(ws),
    ensures
        none_cr(fill(ws).0),
        no_cr(fill(ws).1),
    decreases ws.len(),
{
    if ws.len() > 0 {
        assert(none_cr(ws.drop_last())) by {
            assert forall|i: int| 0 <= i < ws.drop_last().len() implies no_cr(#[trigger] ws.drop_last()[i]) by {
                assert(ws.drop_last()[i] == ws[i]);
            }
        }
        lemma_fill(ws.drop_last());
        let prev = fill(ws.drop_last());
        let w = ws.last();
        assert(no_cr(w));
        assert(no_cr(seq![' ']));
        lemma_cat(prev.1, seq![' ']);
        lemma_cat(prev.1 + seq![' '], w);
        let pushed = prev.0.push(prev.1);
        assert forall|i: int| 0 <= i < pushed.len() implies no_cr(#[trigger] pushed[i]) by {
            if i < prev.0.len() {
                assert(pushed[i] == prev.0[i]);
            }
        }
    }
}

proof fn lemma_wrap(t: Seq<char>)
    ensures
        none_cr(wrap(t)),
{
    lemma_words(t);
    lemma_fill(words(t));
    let f = fill(words(t));
    let pushed = f.0.push(f.1);
    assert forall|i: int| 0 <= i < pushed.len() implies no_cr(#[trigger] pushed[i]) by {
        if i < f.0.len() {
            assert(pushed[i] == f.0[i]);
        }
    }
}

proof fn lemma_comment_block(lines: Seq<Seq<char>>)
    requires
        none_cr(lines),
    ensures
        no_cr(comment_block(lines)),
    decreases lines.len(),
{
    if lines.len() > 0 {
        reveal_strlit("# ");
        assert(none_cr(lines.drop_last())) by {
            assert forall|i: int| 0 <= i < lines.drop_last().len() implies no_cr(#[trigger] lines.drop_last()[i]) by {
                assert(lines.drop_last()[i] == lines[i]);
            }
        }
        lemma_comment_block(lines.drop_last());
        assert(no_cr(lines.last()));
        lemma_cat(comment_block(lines.drop_last()), "# "@);
        lemma_cat(comment_block(lines.drop_last()) + "# "@, lines.last());
        lemma_cat(comment_block(lines.drop_last()) + "# "@ + lines.last(), seq!['\n']);
    }
}

proof fn lemma_steps_block(steps: Seq<Seq<char>>)
    requires
        none_cr(steps),
    ensures
        no_cr(steps_block(steps)),
    decreases steps.len(),
{
    if steps.len() > 0 {
        reveal_strlit("#     ");
        assert(none_cr(steps.drop_last())) by {
            assert forall|i: int| 0 <= i < steps.drop_last().len() implies no_cr(#[trigger] steps.drop_last()[i]) by {
                assert(steps.drop_last()[i] == steps[i]);
            }
        }
        lemma_steps_block(steps.drop_last());
        assert(no_cr(steps.last()));
        lemma_cat(steps_block(steps.drop_last()), "#     "@);
        lemma_cat(steps_block(steps.drop_last()) + "#     "@, steps.last());
        lemma_cat(steps_block(steps.drop_last()) + "#     "@ + steps.last(), seq!['\n']);
    }
}

proof fn lemma_body_block(lines: Seq<Seq<char>>)
    requires
        none_cr(lines),
    ensures
        no_cr(body_block(lines)),
    decreases lines.len(),
{
    if lines.len() > 0 {
        assert(none_cr(lines.drop_last())) by {
            assert forall|i: int| 0 <= i < lines.drop_last().len() implies no_cr(#[trigger] lines.drop_last()[i]) by {
                assert(lines.drop_last()[i] == lines[i]);
            }
        }
        lemma_body_block(lines.drop_last());
        assert(no_cr(lines.last()));
        lemma_cat(body_block(lines.drop_last()), lines.last());
        lemma_cat(body_block(lines.drop_last()) + lines.last(), seq!['\n']);
    }
}

proof fn lemma_json_escape(t: Seq<char>)
    requires
        no_cr(t),
    ensures
        no_cr(json_escape(t)),
    decreases t.len(),
{
    if t.len() > 0 {
        lemma_json_escape(t.drop_last());
        assert(t.last() != '\r');
        assert(no_cr(escape_one(t.last())));
        lemma_cat(json_escape(t.drop_last()), escape_one(t.last()));
    }
}

proof fn lemma_header(kind: Seq<char>, source: Seq<char>, steps: Seq<Seq<char>>)
    requires
        no_cr(kind),
        no_cr(source),
        none_cr(steps),
    ensures
        no_cr(header_spec(kind, source, steps)),
{
    reveal_strlit("# Example ");
    reveal_strlit(" for session-wrapper.\n");
    reveal_strlit("#\n");
    reveal_strlit("# GENERATED from ");
    reveal_strlit(". Do not edit in place; edit the\n");
    reveal_strlit("# type and regenerate with `cargo xtask gen-config`.\n");
    reveal_strlit("# Copy it where it belongs and edit it there:\n");
    reveal_strlit("# The wrapper never writes your configuration. A missing file is not an error.\n");
    reveal_strlit("# Every value below is an obviously fake placeholder. Replace before use.\n");
    lemma_steps_block(steps);
    lemma_cat("# Example "@, kind);
    let prefix1 = "# Example "@ + kind;
    lemma_cat(prefix1, " for session-wrapper.\n"@);
    let prefix2 = prefix1 + " for session-wrapper.\n"@;
    lemma_cat(prefix2, "#\n"@);
    let prefix3 = prefix2 + "#\n"@;
    lemma_cat(prefix3, "# GENERATED from "@);
    let prefix4 = prefix3 + "# GENERATED from "@;
    lemma_cat(prefix4, source);
    let prefix5 = prefix4 + source;
    lemma_cat(prefix5, ". Do not edit in place; edit the\n"@);
    let prefix6 = prefix5 + ". Do not edit in place; edit the\n"@;
    lemma_cat(prefix6, "# type and regenerate with `cargo xtask gen-config`.\n"@);
    let prefix7 = prefix6 + "# type and regenerate with `cargo xtask gen-config`.\n"@;
    lemma_cat(prefix7, "#\n"@);
    let prefix8 = prefix7 + "#\n"@;
    lemma_cat(prefix8, "# Copy it where it belongs and edit it there:\n"@);
    let prefix9 = prefix8 + "# Copy it where it belongs and edit it there:\n"@;
    lemma_cat(prefix9, steps_block(steps));
    let prefix10 = prefix9 + steps_block(steps);
    lemma_cat(prefix10, "#\n"@);
    let prefix11 = prefix10 + "#\n"@;
    lemma_cat(prefix11, "# The wrapper never writes your configuration. A missing file is not an error.\n"@);
    let prefix12 = prefix11 + "# The wrapper never writes your configuration. A missing file is not an error.\n"@;
    lemma_cat(prefix12, "#\n"@);
    let prefix13 = prefix12 + "#\n"@;
    lemma_cat(prefix13, "# Every value below is an obviously fake placeholder. Replace before use.\n"@);
}


/// Whether no shown field of a key list holds a carriage return.
pub open spec fn keys_no_cr(ks: Seq<(Seq<char>, Seq<char>, bool, Seq<char>, Seq<char>)>) -> bool {
    forall|i: int| 0 <= i < ks.len() ==> no_cr((#[trigger] ks[i]).0) && no_cr(ks[i].1) && no_cr(ks[i].3) && no_cr(ks[i].4)
}

proof fn lemma_keys_drop(ks: Seq<(Seq<char>, Seq<char>, bool, Seq<char>, Seq<char>)>)
    requires
        ks.len() > 0,
        keys_no_cr(ks),
    ensures
        keys_no_cr(ks.drop_last()),
        no_cr(ks.last().0) && no_cr(ks.last().1) && no_cr(ks.last().3) && no_cr(ks.last().4),
{
    assert forall|i: int| 0 <= i < ks.drop_last().len() implies no_cr((#[trigger] ks.drop_last()[i]).0) && no_cr(
        ks.drop_last()[i].1,
    ) && no_cr(ks.drop_last()[i].3) && no_cr(ks.drop_last()[i].4) by {
        assert(ks.drop_last()[i] == ks[i]);
    }
    assert(ks.last() == ks[ks.len() - 1]);
}

proof fn lemma_toml_blocks(ks: Seq<(Seq<char>, Seq<char>, bool, Seq<char>, Seq<char>)>)
    requires
        keys_no_cr(ks),
    ensures
        no_cr(toml_blocks(ks)),
    decreases ks.len(),
{
    if ks.len() > 0 {
        lemma_keys_drop(ks);
        lemma_toml_blocks(ks.drop_last());
        let k = ks.last();
        reveal_strlit("# ");
        reveal_strlit(" = ");
        lemma_wrap(k.3);
        lemma_comment_block(wrap(k.3));
        let mark = if k.2 { Seq::<char>::empty() } else { "# "@ };
        assert(no_cr(mark));
        assert(no_cr(toml_value(k))) by {
            lemma_cat(seq!['"'], k.4);
            lemma_cat(seq!['"'] + k.4, seq!['"']);
        }
        lemma_cat(seq!['\n'], comment_block(wrap(k.3)));
        lemma_cat(seq!['\n'] + comment_block(wrap(k.3)), mark);
        lemma_cat(seq!['\n'] + comment_block(wrap(k.3)) + mark, k.0);
        lemma_cat(seq!['\n'] + comment_block(wrap(k.3)) + mark + k.0, " = "@);
        lemma_cat(seq!['\n'] + comment_block(wrap(k.3)) + mark + k.0 + " = "@, toml_value(k));
        lemma_cat(seq!['\n'] + comment_block(wrap(k.3)) + mark + k.0 + " = "@ + toml_value(k), seq!['\n']);
        assert(toml_key_block(k) == seq!['\n'] + comment_block(wrap(k.3)) + mark + k.0 + " = "@ + toml_value(k)
            + seq!['\n']);
        lemma_cat(toml_blocks(ks.drop_last()), toml_key_block(k));
    }
}

proof fn lemma_properties(ks: Seq<(Seq<char>, Seq<char>, bool, Seq<char>, Seq<char>)>)
    requires
        keys_no_cr(ks),
    ensures
        no_cr(properties_spec(ks)),
    decreases ks.len(),
{
    if ks.len() > 0 {
        lemma_keys_drop(ks);
        lemma_properties(ks.drop_last());
        let k = ks.last();
        reveal_strlit(",\n");
        reveal_strlit("    \"");
        reveal_strlit("\": {\n      \"type\": \"");
        reveal_strlit("\",\n      \"description\": \"");
        reveal_strlit("\"\n    }");
        lemma_json_escape(k.3);
        lemma_cat("    \""@, k.0);
        lemma_cat("    \""@ + k.0, "\": {\n      \"type\": \""@);
        lemma_cat("    \""@ + k.0 + "\": {\n      \"type\": \""@, k.1);
        lemma_cat("    \""@ + k.0 + "\": {\n      \"type\": \""@ + k.1, "\",\n      \"description\": \""@);
        lemma_cat(
            "    \""@ + k.0 + "\": {\n      \"type\": \""@ + k.1 + "\",\n      \"description\": \""@,
            json_escape(k.3),
        );
        lemma_cat(
            "    \""@ + k.0 + "\": {\n      \"type\": \""@ + k.1 + "\",\n      \"description\": \""@ + json_escape(k.3),
            "\"\n    }"@,
        );
        let p = properties_spec(ks.drop_last());
        lemma_cat(p, ",\n"@);
        let lead = if ks.len() > 1 { p + ",\n"@ } else { p };
        lemma_cat(lead, property_spec(k));
    }
}

proof fn lemma_required(ks: Seq<(Seq<char>, Seq<char>, bool, Seq<char>, Seq<char>)>)
    requires
        keys_no_cr(ks),
    ensures
        none_cr(required_names(ks)),
    decreases ks.len(),
{
    if ks.len() > 0 {
        lemma_keys_drop(ks);
        lemma_required(ks.drop_last());
        let r = required_names(ks.drop_last());
        let pushed = r.push(ks.last().0);
        assert forall|i: int| 0 <= i < pushed.len() implies no_cr(#[trigger] pushed[i]) by {
            if i < r.len() {
                assert(pushed[i] == r[i]);
            }
        }
    }
}

proof fn lemma_quoted(ns: Seq<Seq<char>>)
    requires
        none_cr(ns),
    ensures
        no_cr(quoted_list(ns)),
    decreases ns.len(),
{
    if ns.len() > 0 {
        assert(none_cr(ns.drop_last())) by {
            assert forall|i: int| 0 <= i < ns.drop_last().len() implies no_cr(#[trigger] ns.drop_last()[i]) by {
                assert(ns.drop_last()[i] == ns[i]);
            }
        }
        lemma_quoted(ns.drop_last());
        reveal_strlit(", ");
        let q = quoted_list(ns.drop_last());
        lemma_cat(q, ", "@);
        let lead = if ns.len() > 1 { q + ", "@ } else { q };
        assert(no_cr(ns.last()));
        lemma_cat(lead, seq!['"']);
        lemma_cat(lead + seq!['"'], ns.last());
        lemma_cat(lead + seq!['"'] + ns.last(), seq!['"']);
    }
}

/// Whether no shown field of a field list holds a carriage return.
pub open spec fn fields_no_cr(fs: Seq<(Seq<char>, Seq<char>, Seq<Seq<char>>)>) -> bool {
    forall|i: int| 0 <= i < fs.len() ==> no_cr((#[trigger] fs[i]).0) && none_cr(fs[i].2)
}

proof fn lemma_field_blocks(fs: Seq<(Seq<char>, Seq<char>, Seq<Seq<char>>)>)
    requires
        fields_no_cr(fs),
    ensures
        no_cr(field_blocks(fs)),
    decreases fs.len(),
{
    if fs.len() > 0 {
        assert(fields_no_cr(fs.drop_last())) by {
            assert forall|i: int| 0 <= i < fs.drop_last().len() implies no_cr((#[trigger] fs.drop_last()[i]).0) && none_cr(
                fs.drop_last()[i].2,
            ) by {
                assert(fs.drop_last()[i] == fs[i]);
            }
        }
        lemma_field_blocks(fs.drop_last());
        let f = fs.last();
        assert(f == fs[fs.len() - 1]);
        reveal_strlit(":\n");
        lemma_wrap(f.1);
        lemma_comment_block(wrap(f.1));
        lemma_body_block(f.2);
        lemma_cat(seq!['\n'], comment_block(wrap(f.1)));
        lemma_cat(seq!['\n'] + comment_block(wrap(f.1)), f.0);
        lemma_cat(seq!['\n'] + comment_block(wrap(f.1)) + f.0, ":\n"@);
        lemma_cat(seq!['\n'] + comment_block(wrap(f.1)) + f.0 + ":\n"@, body_block(f.2));
        lemma_cat(field_blocks(fs.drop_last()), field_block(f));
    }
}

/// No generated artifact holds a carriage return.
pub proof fn law_artifacts_hold_no_carriage_return()
    ensures
        no_cr(config_example_spec()),
        no_cr(schema_spec()),
        no_cr(profile_example_spec()),
{
    reveal_strlit("child_bin");
    reveal_strlit("string");
    reveal_strlit("Absolute path to the agent binary to run. Unset searches PATH.");
    reveal_strlit("/path/to/agent");
    reveal_strlit("default_account");
    reveal_strlit("Account to select when --account is absent. Unset falls through to the last-used marker.");
    reveal_strlit("replace-me");
    reveal_strlit("default_profile");
    reveal_strlit("Profile to compose when --profile is absent. Unset composes nothing.");
    reveal_strlit("configuration");
    reveal_strlit("the wrapper's configuration type");
    reveal_strlit("profile");
    reveal_strlit("the profile type");
    reveal_strlit("cp docs/reference/examples/config.example.toml \\");
    reveal_strlit("   \"${XDG_CONFIG_HOME:-$HOME/.config}/session-wrapper/config.toml\"");
    reveal_strlit("cp docs/reference/examples/profile.example.yaml \\");
    reveal_strlit("   \"${XDG_CONFIG_HOME:-$HOME/.config}/session-wrapper/profiles/dev.yaml\"");
    let ks = keys_spec();
    assert(keys_no_cr(ks));
    assert(none_cr(config_steps()));
    assert(none_cr(profile_steps()));
    lemma_header("configuration"@, "the wrapper's configuration type"@, config_steps());
    lemma_toml_blocks(ks);
    lemma_cat(header_spec("configuration"@, "the wrapper's configuration type"@, config_steps()), toml_blocks(ks));
    reveal_strlit("layers");
    reveal_strlit("  - replace-me");
    reveal_strlit("  - replace-me-too");
    reveal_strlit("array_strategies");
    reveal_strlit("  # Elements appended in layer order.");
    reveal_strlit("  \"/permissions/allow\": { strategy: concat }");
    reveal_strlit("  # Elements matched on the named field and merged; unmatched ones appended.");
    reveal_strlit("  \"/hooks/PreToolUse\": { strategy: merge-by-key, key: matcher }");
    reveal_strlit("Per-key exceptions to the default array rule, which is replace. Keyed by RFC 6901 JSON Pointer, so a settings key containing a dot stays addressable. Omit this table entirely to take replace everywhere.");
    reveal_strlit("The ordered piece names, resolved under the settings directory. Later wins.");
    let fs = profile_fields_spec();
    assert(none_cr(fs[0].2));
    assert(none_cr(fs[1].2));
    assert(fields_no_cr(fs));
    lemma_field_blocks(fs);
    lemma_header("profile"@, "the profile type"@, profile_steps());
    lemma_cat(header_spec("profile"@, "the profile type"@, profile_steps()), field_blocks(fs));
    reveal_strlit("{\n");
    reveal_strlit("  \"$schema\": \"https://json-schema.org/draft/2020-12/schema\",\n");
    reveal_strlit("  \"title\": \"session-wrapper configuration\",\n");
    reveal_strlit("  \"type\": \"object\",\n");
    reveal_strlit("  \"additionalProperties\": false,\n");
    reveal_strlit("  \"properties\": {\n");
    reveal_strlit("\n  }\n");
    reveal_strlit("  \"required\": [");
    reveal_strlit("],\n");
    reveal_strlit("}\n");
    lemma_required(ks);
    lemma_quoted(required_names(ks));
    lemma_cat("  \"required\": ["@, quoted_list(required_names(ks)));
    lemma_cat("  \"required\": ["@ + quoted_list(required_names(ks)), "],\n"@);
    assert(no_cr(required_line(ks)));
    lemma_properties(ks);
    let schema = "{\n"@ + "  \"$schema\": \"https://json-schema.org/draft/2020-12/schema\",\n"@;
    lemma_cat("{\n"@, "  \"$schema\": \"https://json-schema.org/draft/2020-12/schema\",\n"@);
    let titled = schema + "  \"title\": \"session-wrapper configuration\",\n"@;
    lemma_cat(schema, "  \"title\": \"session-wrapper configuration\",\n"@);
    let typed = titled + "  \"type\": \"object\",\n"@;
    lemma_cat(titled, "  \"type\": \"object\",\n"@);
    let closed = typed + "  \"additionalProperties\": false,\n"@;
    lemma_cat(typed, "  \"additionalProperties\": false,\n"@);
    let required = closed + required_line(keys_spec());
    lemma_cat(closed, required_line(keys_spec()));
    let opened = required + "  \"properties\": {\n"@;
    lemma_cat(required, "  \"properties\": {\n"@);
    let listed = opened + properties_spec(keys_spec());
    lemma_cat(opened, properties_spec(keys_spec()));
    let shut = listed + "\n  }\n"@;
    lemma_cat(listed, "\n  }\n"@);
    lemma_cat(shut, "}\n"@);
}

} // verus!
