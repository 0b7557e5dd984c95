use session_wrapper::invocation::{OutputMode, Verbosity};
use session_wrapper::logging::{append_optional, escape, terminal_level, LogLevel};

#[test]
fn a_value_without_separators_is_left_alone() {
    assert_eq!(escape("resolve_child"), "resolve_child");
    assert_eq!(escape("/usr/bin/agent"), "/usr/bin/agent");
    assert_eq!(escape(""), "");
}

#[test]
fn a_separator_forces_quoting_so_fields_stay_parsable() {
    assert_eq!(escape("two words"), "\"two words\"");
    assert_eq!(escape("/a path/agent"), "\"/a path/agent\"");
}

#[test]
fn a_newline_never_reaches_the_record() {
    assert_eq!(escape("a\nb"), "\"a\\nb\"");
    assert_eq!(escape("a\r\nb"), "\"a\\r\\nb\"");
    assert!(!escape("a\nb").contains('\n'));
}

#[test]
fn a_quote_or_backslash_is_escaped_rather_than_dropped() {
    assert_eq!(escape("say \"hi\""), "\"say \\\"hi\\\"\"");
    assert_eq!(escape("a\\b c"), "\"a\\\\b c\"");
}

#[test]
fn an_empty_value_adds_no_field() {
    let mut line = String::from("level=info");
    append_optional(&mut line, "path", "");
    assert_eq!(line, "level=info");
    append_optional(&mut line, "path", "/x");
    assert_eq!(line, "level=info path=/x");
}

#[test]
fn rust_log_overrides_the_flags_and_json_mirrors_nothing() {
    assert_eq!(
        terminal_level(Verbosity::Default, OutputMode::Json, Some("trace")),
        None
    );
    assert_eq!(
        terminal_level(Verbosity::Quiet, OutputMode::Human, Some("My_Crate=DEBUG")),
        Some(LogLevel::Debug)
    );
    assert_eq!(
        terminal_level(Verbosity::Default, OutputMode::Human, None),
        Some(LogLevel::Warn)
    );
    assert_eq!(
        terminal_level(Verbosity::Trace, OutputMode::Human, Some("off")),
        Some(LogLevel::Trace)
    );
}
