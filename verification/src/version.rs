//! What `version` reports about the child it wraps.

use vstd::prelude::*;

use crate::child::{parse_version_spec, CapturedChild, ChildOutcome, ChildVersion};
use crate::doctor::version_text;
use crate::encoding::{lossy_spec, lossy_text};
use crate::error::{exit_code_of, kind_of, owned, AppError, ErrorKind};
use crate::text::push_str;

verus! {

/// The child half of the version document.
#[derive(Debug)]
pub struct ChildVersionReport {
    pub status: &'static str,
    pub path: Option<String>,
    pub version: Option<String>,
}

/// The status a failed resolution or run reports.
pub open spec fn resolution_word(e: AppError) -> Seq<char> {
    match kind_of(e) {
        ErrorKind::ChildNotFound => "not-found"@,
        ErrorKind::ChildNotExecutable | ErrorKind::ChildRecursion => "not-executable"@,
        _ => "unparsable"@,
    }
}

/// A failed resolution names its status by what the failure was: a child
/// that is not there (the failure that exits 127) is `not-found`; a child
/// that cannot be run, because it lacks permission to execute (the failure
/// that exits 126) or because it is this wrapper itself, is `not-executable`;
/// every other failure is `unparsable`.
pub proof fn law_resolution_status_follows_the_failure(e: AppError)
    ensures
        (resolution_word(e) == "not-found"@) <==> exit_code_of(kind_of(e)) == 127,
        (resolution_word(e) == "not-executable"@) <==> (exit_code_of(kind_of(e)) == 126 || kind_of(e)
            == ErrorKind::ChildRecursion),
        (resolution_word(e) == "unparsable"@) <==> !(exit_code_of(kind_of(e)) == 127 || exit_code_of(kind_of(e)) == 126
            || kind_of(e) == ErrorKind::ChildRecursion),
{
    reveal_strlit("not-found");
    reveal_strlit("not-executable");
    reveal_strlit("unparsable");
    assert("not-found"@[1] != "not-executable"@[1] || "not-found"@.len() != "not-executable"@.len());
    assert("not-found"@[0] != "unparsable"@[0]);
    assert("not-executable"@[0] != "unparsable"@[0]);
}

/// Names why no version could be had from the child.
pub fn resolution_status(error: &AppError) -> (r: &'static str)
    ensures
        r@ == resolution_word(*error),
{
    match error.kind() {
        ErrorKind::ChildNotFound => "not-found",
        ErrorKind::ChildNotExecutable | ErrorKind::ChildRecursion => "not-executable",
        _ => "unparsable",
    }
}

/// What the child's `--version` run reports: `ok` only for a clean exit
/// whose answer carries a version, with the program's path either way.
pub fn captured_report(program: &Vec<u8>, captured: &CapturedChild) -> (r: ChildVersionReport)
    ensures
        (r.path matches Some(p) && p@ == lossy_spec(program@)),
        match parse_version_spec(captured.stdout@) {
            Some(v) => (r.version matches Some(t) && t@ == version_text(v))
                && r.status@ == (if captured.outcome == ChildOutcome::Exited(0) { "ok"@ } else { "unparsable"@ }),
            None => r.version is None && r.status@ == "unparsable"@,
        },
{
    let successful = match captured.outcome {
        ChildOutcome::Exited(0) => true,
        _ => false,
    };
    let version = match ChildVersion::parse(captured.stdout.as_slice()) {
        Some(v) => Some(v.render()),
        None => None,
    };
    let status = if successful && version.is_some() { "ok" } else { "unparsable" };
    ChildVersionReport { status, path: Some(lossy_text(program.as_slice())), version }
}

/// What a failed resolution or run reports: the reason's status, and the
/// program's path when one was resolved.
pub fn failed_report(program: Option<&Vec<u8>>, error: &AppError) -> (r: ChildVersionReport)
    ensures
        r.status@ == resolution_word(*error),
        r.version is None,
        match program {
            Some(p) => r.path matches Some(t) && t@ == lossy_spec(p@),
            None => r.path is None,
        },
{
    ChildVersionReport {
        status: resolution_status(error),
        path: match program {
            Some(p) => Some(lossy_text(p.as_slice())),
            None => None,
        },
        version: None,
    }
}

/// The human report's sentence about the child: where it is, or that there
/// is none.
pub fn wrapped_sentence(program: Option<&Vec<u8>>) -> (r: String)
    ensures
        r@ == match program {
            Some(p) => "It wraps the agent at "@ + lossy_spec(p@) + ", whose own version follows."@,
            None => "No agent could be resolved, so there is nothing below to wrap."@,
        },
{
    match program {
        Some(p) => {
            let mut text = owned("It wraps the agent at ");
            push_str(&mut text, lossy_text(p.as_slice()).as_str());
            push_str(&mut text, ", whose own version follows.");
            text
        },
        None => owned("No agent could be resolved, so there is nothing below to wrap."),
    }
}

/// The line a composed verb prints when the child's own section is missing.
pub fn missing_section(why: &str) -> (r: String)
    ensures
        r@ == "agent could not be run, so its own report is missing: "@ + why@ + "."@,
{
    let mut text = owned("agent could not be run, so its own report is missing: ");
    push_str(&mut text, why);
    push_str(&mut text, ".");
    text
}

/// The child command whose help a verb's help composes: `doctor` is the one
/// verb name the child also owns.
pub fn child_help(verb: &str, subcommand: Option<&str>) -> (r: Option<Vec<&'static str>>)
    ensures
        (verb@ == "doctor"@ && subcommand is None) ==> (r matches Some(v) && v@.len() == 2 && v@[0]@ == "doctor"@
            && v@[1]@ == "--help"@),
        !(verb@ == "doctor"@ && subcommand is None) ==> r is None,
{
    if crate::text::same_text(verb, "doctor") && subcommand.is_none() {
        let words: Vec<&'static str> = vec!["doctor", "--help"];
        Some(words)
    } else {
        None
    }
}

} // verus!
