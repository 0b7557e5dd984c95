//! The wrapper's one-line `key=value` log records and the terminal mirror level.

use vstd::prelude::*;

use crate::invocation::{verbosity_of, OutputMode, Verbosity};
use crate::text::{chars_of, contains_seq, push_char, push_str, ascii_lower};

verus! {

/// A record severity, most verbose first.
#[derive(Clone, Copy, Debug, PartialEq, Eq, Structural)]
pub enum LogLevel {
    Trace,
    Debug,
    Info,
    Warn,
    Error,
}

/// A character that would break a `key=value` record unless quoted.
pub open spec fn is_separator(c: char) -> bool {
    c == ' ' || c == '\n' || c == '\r' || c == '\t' || c == '"' || c == '\\'
}

/// The quoted spelling of one character.
pub open spec fn quoted_char(c: char) -> Seq<char> {
    if c == '"' {
        seq!['\\', '"']
    } else if c == '\\' {
        seq!['\\', '\\']
    } else if c == '\n' {
        seq!['\\', 'n']
    } else if c == '\r' {
        seq!['\\', 'r']
    } else if c == '\t' {
        seq!['\\', 't']
    } else {
        seq![c]
    }
}

/// The characters of a value, each in its quoted spelling.
pub open spec fn quoted_body(t: Seq<char>) -> Seq<char>
    decreases t.len(),
{
    if t.len() == 0 {
        Seq::empty()
    } else {
        quoted_body(t.drop_last()) + quoted_char(t.last())
    }
}

/// A record value: left alone unless it holds a separator, else quoted with
/// every separator escaped.
pub open spec fn log_escape(t: Seq<char>) -> Seq<char> {
    if exists|i: int| 0 <= i < t.len() && is_separator(t[i]) {
        seq!['"'] + quoted_body(t) + seq!['"']
    } else {
        t
    }
}

fn separator(c: char) -> (r: bool)
    ensures
        r == is_separator(c),
{
    c == ' ' || c == '\n' || c == '\r' || c == '\t' || c == '"' || c == '\\'
}

/// Keeps one record on one line with parsable `key=value` pairs.
pub fn escape(value: &str) -> (r: String)
    ensures
        r@ == log_escape(value@),
{
    let chars = chars_of(value);
    let mut i: usize = 0;
    while i < chars.len() && !separator(chars[i])
        invariant
            chars@ == value@,
            i <= chars@.len(),
            forall|k: int| 0 <= k < i ==> !is_separator(chars@[k]),
        decreases chars.len() - i,
    {
        i = i + 1;
    }
    if i == chars.len() {
        return crate::text::string_of(&chars);
    }
    proof {
        assert(is_separator(chars@[i as int]));
    }
    let mut out = String::new();
    push_char(&mut out, '"');
    let mut j: usize = 0;
    proof {
        assert(chars@.subrange(0, 0) =~= Seq::<char>::empty());
    }
    while j < chars.len()
        invariant
            chars@ == value@,
            j <= chars@.len(),
            out@ == seq!['"'] + quoted_body(chars@.subrange(0, j as int)),
        decreases chars.len() - j,
    {
        let c = chars[j];
        if c == '"' {
            push_str(&mut out, "\\\"");
        } else if c == '\\' {
            push_str(&mut out, "\\\\");
        } else if c == '\n' {
            push_str(&mut out, "\\n");
        } else if c == '\r' {
            push_str(&mut out, "\\r");
        } else if c == '\t' {
            push_str(&mut out, "\\t");
        } else {
            push_char(&mut out, c);
        }
        proof {
            reveal_strlit("\\\"");
            reveal_strlit("\\\\");
            reveal_strlit("\\n");
            reveal_strlit("\\r");
            reveal_strlit("\\t");
            let next = chars@.subrange(0, j + 1);
            assert(next.drop_last() =~= chars@.subrange(0, j as int));
            assert(out@ =~= seq!['"'] + quoted_body(next));
        }
        j = j + 1;
    }
    push_char(&mut out, '"');
    proof {
        assert(chars@.subrange(0, chars@.len() as int) =~= chars@);
    }
    out
}

/// Appends ` key=value` to a record, or nothing when the value is empty.
pub fn append_optional(line: &mut String, key: &str, value: &str)
    ensures
        value@.len() == 0 ==> final(line)@ == old(line)@,
        value@.len() > 0 ==> final(line)@ == old(line)@ + seq![' '] + key@ + seq!['='] + value@,
{
    let chars = chars_of(value);
    if chars.len() > 0 {
        push_char(line, ' ');
        push_str(line, key);
        push_char(line, '=');
        push_str(line, value);
    }
}

/// A text with its ASCII letters in lower case.
pub open spec fn lowered(t: Seq<char>) -> Seq<char> {
    t.map_values(|c: char| ascii_lower(c))
}

/// The level the terminal mirror shows, or none in JSON mode.
///
/// A `RUST_LOG` value naming a level, most verbose first, wins over the flags;
/// otherwise warnings and above are mirrored by default.
pub open spec fn terminal_level_spec(verbosity: Verbosity, mode: OutputMode, rust_log: Option<Seq<char>>) -> Option<LogLevel> {
    if mode == OutputMode::Json {
        None
    } else if rust_log is Some && contains_seq(lowered(rust_log->0), "trace"@) {
        Some(LogLevel::Trace)
    } else if rust_log is Some && contains_seq(lowered(rust_log->0), "debug"@) {
        Some(LogLevel::Debug)
    } else if rust_log is Some && contains_seq(lowered(rust_log->0), "info"@) {
        Some(LogLevel::Info)
    } else if rust_log is Some && contains_seq(lowered(rust_log->0), "warn"@) {
        Some(LogLevel::Warn)
    } else if rust_log is Some && contains_seq(lowered(rust_log->0), "error"@) {
        Some(LogLevel::Error)
    } else {
        Some(match verbosity {
            Verbosity::Quiet => LogLevel::Error,
            Verbosity::Default => LogLevel::Warn,
            Verbosity::Info => LogLevel::Info,
            Verbosity::Debug => LogLevel::Debug,
            Verbosity::Trace => LogLevel::Trace,
        })
    }
}

fn lowered_chars(t: &str) -> (r: Vec<char>)
    ensures
        r@ == lowered(t@),
{
    let chars = chars_of(t);
    let mut out: Vec<char> = Vec::new();
    let mut i: usize = 0;
    while i < chars.len()
        invariant
            chars@ == t@,
            i <= chars@.len(),
            out@ == lowered(chars@.subrange(0, i as int)),
        decreases chars.len() - i,
    {
        let c = chars[i];
        let l = if 'A' <= c && c <= 'Z' { ((c as u8) + 32u8) as char } else { c };
        out.push(l);
        proof {
            assert(lowered(chars@.subrange(0, i + 1)) =~= lowered(chars@.subrange(0, i as int)).push(l));
        }
        i = i + 1;
    }
    proof {
        assert(chars@.subrange(0, chars@.len() as int) =~= chars@);
    }
    out
}

fn contains_text(haystack: &Vec<char>, needle: &str) -> (r: bool)
    ensures
        r == contains_seq(haystack@, needle@),
{
    let pattern = chars_of(needle);
    crate::text::contains_chars(haystack, &pattern)
}

/// Decides the terminal mirror level for one invocation.
pub fn terminal_level(verbosity: Verbosity, mode: OutputMode, rust_log: Option<&str>) -> (r: Option<LogLevel>)
    ensures
        r == terminal_level_spec(verbosity, mode, match rust_log {
            Some(v) => Some(v@),
            None => None,
        }),
{
    if mode == OutputMode::Json {
        return None;
    }
    if let Some(value) = rust_log {
        let lower = lowered_chars(value);
        if contains_text(&lower, "trace") {
            return Some(LogLevel::Trace);
        }
        if contains_text(&lower, "debug") {
            return Some(LogLevel::Debug);
        }
        if contains_text(&lower, "info") {
            return Some(LogLevel::Info);
        }
        if contains_text(&lower, "warn") {
            return Some(LogLevel::Warn);
        }
        if contains_text(&lower, "error") {
            return Some(LogLevel::Error);
        }
    }
    Some(match verbosity {
        Verbosity::Quiet => LogLevel::Error,
        Verbosity::Default => LogLevel::Warn,
        Verbosity::Info => LogLevel::Info,
        Verbosity::Debug => LogLevel::Debug,
        Verbosity::Trace => LogLevel::Trace,
    })
}


/// How verbose a level is, the most verbose highest.
pub open spec fn rank(l: LogLevel) -> int {
    match l {
        LogLevel::Trace => 4,
        LogLevel::Debug => 3,
        LogLevel::Info => 2,
        LogLevel::Warn => 1,
        LogLevel::Error => 0,
    }
}

/// With `RUST_LOG` unset, human output mirrors errors only under `--quiet`,
/// warnings and errors by default, and each `--verbose` adds the next more
/// verbose level up to trace: one adds info, two debug, three or more
/// trace. Output for machines mirrors nothing.
pub proof fn law_each_verbose_mirrors_one_more_level(quiet: bool, verbose: u8)
    ensures
        terminal_level_spec(verbosity_of(quiet, verbose), OutputMode::Human, None) matches Some(l) && rank(l) == if quiet {
            0
        } else if verbose >= 3 {
            4
        } else {
            1 + verbose
        },
        terminal_level_spec(verbosity_of(quiet, verbose), OutputMode::Json, None) is None,
{
}

/// A `RUST_LOG` value that names a level, in any letter case, decides the
/// terminal level whatever the flags: the most verbose level it names. One
/// that names none leaves the decision to the flags. Output for machines
/// mirrors nothing either way.
pub proof fn law_rust_log_names_the_level(verbosity: Verbosity, value: Seq<char>)
    ensures
        (exists|l: LogLevel| contains_seq(lowered(value), #[trigger] level_text(l))) ==> (terminal_level_spec(
            verbosity,
            OutputMode::Human,
            Some(value),
        ) matches Some(t) && contains_seq(lowered(value), level_text(t)) && forall|l: LogLevel|
            contains_seq(lowered(value), #[trigger] level_text(l)) ==> rank(l) <= rank(t)),
        !(exists|l: LogLevel| contains_seq(lowered(value), #[trigger] level_text(l))) ==> terminal_level_spec(
            verbosity,
            OutputMode::Human,
            Some(value),
        ) == terminal_level_spec(verbosity, OutputMode::Human, None),
        terminal_level_spec(verbosity, OutputMode::Json, Some(value)) is None,
{
    let low = lowered(value);
    if !(exists|l: LogLevel| contains_seq(low, #[trigger] level_text(l))) {
        assert(!contains_seq(low, level_text(LogLevel::Trace)));
        assert(!contains_seq(low, level_text(LogLevel::Debug)));
        assert(!contains_seq(low, level_text(LogLevel::Info)));
        assert(!contains_seq(low, level_text(LogLevel::Warn)));
        assert(!contains_seq(low, level_text(LogLevel::Error)));
    }
}

/// The word a record and the mirror use for a level.
pub open spec fn level_text(l: LogLevel) -> Seq<char> {
    match l {
        LogLevel::Trace => "trace"@,
        LogLevel::Debug => "debug"@,
        LogLevel::Info => "info"@,
        LogLevel::Warn => "warn"@,
        LogLevel::Error => "error"@,
    }
}

impl LogLevel {
    /// Returns the lowercase word for this level.
    pub fn word(self) -> (r: &'static str)
        ensures
            r@ == level_text(self),
    {
        match self {
            LogLevel::Trace => "trace",
            LogLevel::Debug => "debug",
            LogLevel::Info => "info",
            LogLevel::Warn => "warn",
            LogLevel::Error => "error",
        }
    }

    fn rank_of(self) -> (r: u8)
        ensures
            r == rank(self),
    {
        match self {
            LogLevel::Trace => 4,
            LogLevel::Debug => 3,
            LogLevel::Info => 2,
            LogLevel::Warn => 1,
            LogLevel::Error => 0,
        }
    }
}

/// Whether a record of this level goes to the log file: everything but trace.
pub fn to_file(level: LogLevel) -> (r: bool)
    ensures
        r == (rank(level) <= rank(LogLevel::Debug)),
{
    level.rank_of() <= 3
}

/// Whether a record of this level is mirrored to the terminal.
pub fn to_terminal(level: LogLevel, terminal: Option<LogLevel>) -> (r: bool)
    ensures
        r == (terminal matches Some(t) && rank(level) <= rank(t)),
{
    match terminal {
        Some(t) => level.rank_of() <= t.rank_of(),
        None => false,
    }
}

/// Whether a record of this level is wanted at all.
pub fn enabled(level: LogLevel, terminal: Option<LogLevel>) -> (r: bool)
    ensures
        r == (rank(level) <= rank(LogLevel::Debug) || (terminal matches Some(t) && rank(level) <= rank(t))),
{
    to_file(level) || to_terminal(level, terminal)
}

/// The text `Debug` rendered, without the quotes it adds around a string.
pub open spec fn unquoted(t: Seq<char>) -> Seq<char> {
    if t.len() >= 2 && t[0] == '"' && t.last() == '"' {
        t.subrange(1, t.len() - 1)
    } else {
        t
    }
}

/// Removes only the delimiters `Debug` added for a string, not every quote
/// the value itself carries.
pub fn unquote(rendered: &str) -> (r: String)
    ensures
        r@ == unquoted(rendered@),
{
    let t = chars_of(rendered);
    let n = t.len();
    if n >= 2 && t[0] == '"' && t[n - 1] == '"' {
        let mut inner: Vec<char> = Vec::new();
        let mut i: usize = 1;
        while i < n - 1
            invariant
                1 <= i <= n - 1,
                n == t@.len(),
                inner@ == t@.subrange(1, i as int),
            decreases n - 1 - i,
        {
            inner.push(t[i]);
            proof {
                assert(t@.subrange(1, i + 1) =~= t@.subrange(1, i as int).push(t@[i as int]));
            }
            i = i + 1;
        }
        crate::text::string_of(&inner)
    } else {
        crate::text::string_of(&t)
    }
}

/// Whether an event is mirrored: unless it asked not to be, because a
/// renderer is already saying it in full.
pub fn mirrored(mirror: Option<&str>) -> (r: bool)
    ensures
        r == !(mirror matches Some(m) && m@ == "false"@),
{
    match mirror {
        Some(m) => !crate::text::same_text(m, "false"),
        None => true,
    }
}

/// The trailing ` key=value` fields, in the order given.
pub open spec fn pairs_text(pairs: Seq<(Seq<char>, Seq<char>)>) -> Seq<char>
    decreases pairs.len(),
{
    if pairs.len() == 0 {
        Seq::empty()
    } else {
        pairs_text(pairs.drop_last()) + seq![' '] + pairs.last().0 + seq!['='] + pairs.last().1
    }
}

/// ` key=value` when the value is not empty.
pub open spec fn optional_text(key: Seq<char>, value: Seq<char>) -> Seq<char> {
    if value.len() == 0 {
        Seq::empty()
    } else {
        seq![' '] + key + seq!['='] + value
    }
}

/// The pairs as texts.
pub open spec fn pair_views(pairs: Seq<(String, String)>) -> Seq<(Seq<char>, Seq<char>)> {
    pairs.map_values(|p: (String, String)| (p.0@, p.1@))
}

/// One record line: the fixed fields, the three optional ones when set, then
/// every other field, and a newline.
pub open spec fn record_line(
    ts: Seq<char>,
    level: LogLevel,
    target: Seq<char>,
    op: Seq<char>,
    message: Seq<char>,
    status: Seq<char>,
    duration: Seq<char>,
    error_kind: Seq<char>,
    rest: Seq<(Seq<char>, Seq<char>)>,
) -> Seq<char> {
    "ts="@ + ts + " level="@ + level_text(level) + " target="@ + target + " op="@ + op + " msg="@ + message
        + optional_text("status"@, status) + optional_text("dur_ms"@, duration) + optional_text(
        "err.kind"@,
        error_kind,
    ) + pairs_text(rest) + seq!['\n']
}

/// Writes one record line.
#[verifier::rlimit(40)]
#[verifier::spinoff_prover]
pub fn event_line(
    ts: &str,
    level: LogLevel,
    target: &str,
    op: &str,
    message: &str,
    status: &str,
    duration: &str,
    error_kind: &str,
    rest: &Vec<(String, String)>,
) -> (r: String)
    ensures
        r@ == record_line(ts@, level, target@, op@, message@, status@, duration@, error_kind@, pair_views(rest@)),
{
    let mut line = String::new();
    push_str(&mut line, "ts=");
    push_str(&mut line, ts);
    push_str(&mut line, " level=");
    push_str(&mut line, level.word());
    push_str(&mut line, " target=");
    push_str(&mut line, target);
    push_str(&mut line, " op=");
    push_str(&mut line, op);
    push_str(&mut line, " msg=");
    push_str(&mut line, message);
    proof {
        reveal_strlit("");
    }
    append_optional(&mut line, "status", status);
    append_optional(&mut line, "dur_ms", duration);
    append_optional(&mut line, "err.kind", error_kind);
    let ghost head = line@;
    let mut i: usize = 0;
    while i < rest.len()
        invariant
            i <= rest@.len(),
            line@ == head + pairs_text(pair_views(rest@).take(i as int)),
        decreases rest.len() - i,
    {
        push_char(&mut line, ' ');
        push_str(&mut line, rest[i].0.as_str());
        push_char(&mut line, '=');
        push_str(&mut line, rest[i].1.as_str());
        proof {
            let t = pair_views(rest@).take(i + 1);
            assert(t.drop_last() =~= pair_views(rest@).take(i as int));
        }
        i = i + 1;
    }
    push_char(&mut line, '\n');
    proof {
        assert(pair_views(rest@).take(rest@.len() as int) =~= pair_views(rest@));
    }
    line
}
} // verus!
