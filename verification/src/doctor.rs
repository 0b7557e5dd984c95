//! The decisions of the doctor report: which row each observation becomes,
//! how a failed bootstrap is reported, and how the child's own report and
//! its race with the checks above it are read. Probing and rendering are the
//! caller's.

use vstd::prelude::*;

use crate::checks::{catalog, catalog_spec, defect_status, pairs_view, remediation_of, scope_of, substitute, Check, CheckResult, CheckStatus, ChildReport, ChildStatus, Scope};
use crate::child::{minimum_child_version, minimum_version_spec, CapturedChild, ChildOutcome, ChildVersion};
use crate::encoding::{lossy_spec, lossy_text};
use crate::error::{diagnostic_of, kind_of, owned, AppError, ErrorKind};
use crate::identifier::Identifier;
use crate::paths::{join, join_text, Roots, XdgPaths};
use crate::checks::EntryCheck;
use crate::text::{chars_of, decimal, push_char, push_decimal, push_str, string_of, trim, trim_chars};

verus! {

/// A version as `major.minor.patch`.
pub open spec fn version_text(v: ChildVersion) -> Seq<char> {
    decimal(v.major as nat) + seq!['.'] + decimal(v.minor as nat) + seq!['.'] + decimal(v.patch as nat)
}

/// Whether a version is below another, field by field.
pub open spec fn below(v: ChildVersion, floor: ChildVersion) -> bool {
    v.major < floor.major || (v.major == floor.major && (v.minor < floor.minor || (v.minor == floor.minor
        && v.patch < floor.patch)))
}

/// A version's place in release order: major first, then minor, then patch.
pub open spec fn release_rank(v: ChildVersion) -> int {
    v.major as int * 0x1_0000_0000_0000_0000 + v.minor as int * 0x1_0000_0000 + v.patch as int
}

/// The floor compares releases in order: a version is below another exactly
/// when it comes earlier, major first, then minor, then patch. So a greater
/// major, or the same major and a greater minor, is never below whatever the
/// patch, and of two different versions exactly one is below the other.
pub proof fn law_floor_follows_release_order(v: ChildVersion, floor: ChildVersion)
    ensures
        below(v, floor) <==> release_rank(v) < release_rank(floor),
        v.major == floor.major && v.minor > floor.minor ==> !below(v, floor),
        v.major > floor.major ==> !below(v, floor),
        v != floor ==> (below(v, floor) <==> !below(floor, v)),
        !below(v, v),
{
}

/// Whether a result is a healthy observation with this message.
pub open spec fn passes(r: CheckResult, check: Check, message: Seq<char>) -> bool {
    r.check == check && r.status == CheckStatus::Pass && r.message@ == message && r.hint is None && r.reason is None
}

/// Whether a result is an unhealthy observation with this message and hint;
/// an empty hint is no hint.
pub open spec fn defective(r: CheckResult, check: Check, message: Seq<char>, hint: Seq<char>) -> bool {
    &&& r.check == check
    &&& r.status == defect_status(check)
    &&& r.message@ == message
    &&& r.reason is None
    &&& hint.len() == 0 ==> r.hint is None
    &&& hint.len() > 0 ==> (r.hint matches Some(h) && h@ == hint)
}

/// Whether a result is a skip with this reason.
pub open spec fn skips(r: CheckResult, check: Check, reason: Seq<char>) -> bool {
    r.check == check && r.status == CheckStatus::Skipped && r.message@ == "not checked"@ && r.hint is None
        && (r.reason matches Some(s) && s@ == reason)
}

/// A check's remediation with the named values substituted, or nothing.
pub open spec fn hint_text(check: Check, values: Seq<(Seq<char>, Seq<char>)>) -> Seq<char> {
    match remediation_of(check) {
        Some(t) => substitute(t, values),
        None => Seq::empty(),
    }
}

/// The one remediation the version floor owns, true of every way it fails.
pub open spec fn floor_hint_text() -> Seq<char> {
    hint_text(Check::ChildVersionFloor, seq![("minimum"@, version_text(minimum_version_spec()))])
}

fn hint_or_empty(check: Check, values: &Vec<(&str, &str)>) -> (r: String)
    ensures
        r@ == hint_text(check, pairs_view(values@)),
{
    match check.hint(values) {
        Some(h) => h,
        None => String::new(),
    }
}

fn render_version(v: &ChildVersion) -> (r: String)
    ensures
        r@ == version_text(*v),
{
    v.render()
}

/// Returns the one remediation the floor owns.
pub fn floor_hint() -> (r: String)
    ensures
        r@ == floor_hint_text(),
{
    let minimum = render_version(&minimum_child_version());
    let values: Vec<(&str, &str)> = vec![("minimum", minimum.as_str())];
    proof {
        assert(pairs_view(values@) =~= seq![("minimum"@, version_text(minimum_version_spec()))]);
    }
    hint_or_empty(Check::ChildVersionFloor, &values)
}

/// The message of a version that meets the floor.
pub open spec fn meets_message(v: ChildVersion) -> Seq<char> {
    version_text(v) + ", which meets the "@ + version_text(minimum_version_spec()) + " minimum"@
}

/// The message of a version below the floor.
pub open spec fn older_message(v: ChildVersion) -> Seq<char> {
    "agent reports "@ + version_text(v) + ", older than the "@ + version_text(minimum_version_spec())
        + " this wrapper is designed against."@
}

/// The message of an answer no version could be read from.
pub open spec fn unread_message(observed: Seq<char>) -> Seq<char> {
    "agent answered \""@ + observed + "\", which carries no version number this wrapper could read, so the "@
        + version_text(minimum_version_spec()) + " minimum is unconfirmed."@
}

/// The row a successful `--version` answer becomes: a pass when the version
/// meets the floor, and two distinct defects for a version that is genuinely
/// old and an answer no version could be read from.
pub fn version_check(version: Option<ChildVersion>, observed: &str) -> (r: CheckResult)
    ensures
        match version {
            Some(v) => if below(v, minimum_version_spec()) {
                defective(r, Check::ChildVersionFloor, older_message(v), floor_hint_text())
            } else {
                passes(r, Check::ChildVersionFloor, meets_message(v))
            },
            None => defective(r, Check::ChildVersionFloor, unread_message(observed@), floor_hint_text()),
        },
{
    let minimum = minimum_child_version();
    let floor = render_version(&minimum);
    match version {
        Some(v) => {
            if v.is_below(&minimum) {
                let mut message = owned("agent reports ");
                push_str(&mut message, render_version(&v).as_str());
                push_str(&mut message, ", older than the ");
                push_str(&mut message, floor.as_str());
                push_str(&mut message, " this wrapper is designed against.");
                CheckResult::defect(Check::ChildVersionFloor, message, floor_hint())
            } else {
                let mut message = render_version(&v);
                push_str(&mut message, ", which meets the ");
                push_str(&mut message, floor.as_str());
                push_str(&mut message, " minimum");
                CheckResult::pass(Check::ChildVersionFloor, message)
            }
        },
        None => {
            let mut message = owned("agent answered \"");
            push_str(&mut message, observed);
            push_str(&mut message, "\", which carries no version number this wrapper could read, so the ");
            push_str(&mut message, floor.as_str());
            push_str(&mut message, " minimum is unconfirmed.");
            CheckResult::defect(Check::ChildVersionFloor, message, floor_hint())
        },
    }
}

/// The row the child's `--version` run becomes.
pub fn version_result(result: Result<CapturedChild, AppError>) -> (r: CheckResult)
    ensures
        match result {
            Ok(c) => match c.outcome {
                ChildOutcome::Exited(0) => match crate::child::parse_version_spec(c.stdout@) {
                    Some(v) => if below(v, minimum_version_spec()) {
                        defective(r, Check::ChildVersionFloor, older_message(v), floor_hint_text())
                    } else {
                        passes(r, Check::ChildVersionFloor, meets_message(v))
                    },
                    None => defective(
                        r,
                        Check::ChildVersionFloor,
                        unread_message(trim(lossy_spec(c.stdout@))),
                        floor_hint_text(),
                    ),
                },
                _ => defective(
                    r,
                    Check::ChildVersionFloor,
                    "agent --version did not exit successfully, so the minimum version is unconfirmed."@,
                    floor_hint_text(),
                ),
            },
            Err(e) => defective(r, Check::ChildVersionFloor, diagnostic_of(e).why@, floor_hint_text()),
        },
{
    match result {
        Ok(captured) => match captured.outcome {
            ChildOutcome::Exited(0) => {
                let observed = string_of(&trim_chars(&chars_of(lossy_text(captured.stdout.as_slice()).as_str())));
                version_check(ChildVersion::parse(captured.stdout.as_slice()), observed.as_str())
            },
            _ => CheckResult::defect(
                Check::ChildVersionFloor,
                owned("agent --version did not exit successfully, so the minimum version is unconfirmed."),
                floor_hint(),
            ),
        },
        Err(error) => CheckResult::defect(Check::ChildVersionFloor, error.diagnostic().why.clone(), floor_hint()),
    }
}

/// The decimal spelling of a signed number.
pub open spec fn signed_text(n: int) -> Seq<char> {
    if n < 0 {
        seq!['-'] + decimal((-n) as nat)
    } else {
        decimal(n as nat)
    }
}

fn push_signed(out: &mut String, n: i32)
    ensures
        final(out)@ == old(out)@ + signed_text(n as int),
{
    if n < 0 {
        push_char(out, '-');
        let magnitude: i64 = -(n as i64);
        push_decimal(out, magnitude as u64);
        proof {
            assert(old(out)@ + seq!['-'] + decimal(magnitude as nat) =~= old(out)@ + (seq!['-'] + decimal(
                magnitude as nat,
            )));
        }
    } else {
        push_decimal(out, n as u64);
    }
}

/// Whether an error is the child vanishing or losing its execute bit between
/// the checks above and the child's own report.
pub open spec fn is_race(e: AppError) -> bool {
    kind_of(e) == ErrorKind::ChildNotFound || kind_of(e) == ErrorKind::ChildNotExecutable
}

/// What the child's own report is, from its run: skipped when it could not
/// be run, its level crossing unchanged when it ran, and a race handed back
/// when it vanished after the checks above passed it.
pub fn child_report(run: Option<Result<CapturedChild, AppError>>) -> (r: (ChildReport, Option<AppError>))
    ensures
        match run {
            None => r.0.status == ChildStatus::Skipped && r.0.output is None && r.0.exit is None
                && (r.0.reason matches Some(s) && s@ == "agent could not be found or could not be run"@)
                && r.1 is None,
            Some(Ok(c)) => r.1 is None && (r.0.output matches Some(o) && o@ == c.stdout@) && match c.outcome {
                ChildOutcome::Exited(code) => r.0.status == (if code == 0 { ChildStatus::Pass } else {
                    ChildStatus::Fail
                }) && r.0.exit == Some(code) && r.0.reason is None,
                ChildOutcome::Signaled(signal) => r.0.status == ChildStatus::Fail && r.0.exit is None
                    && (r.0.reason matches Some(s) && s@ == "agent doctor was terminated by signal "@
                    + signed_text(signal as int)),
            },
            Some(Err(e)) => r.0.output is None && r.0.exit is None
                && (r.0.reason matches Some(s) && s@ == diagnostic_of(e).why@)
                && r.0.status == (if is_race(e) { ChildStatus::Skipped } else { ChildStatus::Fail })
                && (is_race(e) ==> r.1 == Some(e)) && (!is_race(e) ==> r.1 is None),
        },
{
    match run {
        None => (ChildReport::skipped(owned("agent could not be found or could not be run")), None),
        Some(Ok(captured)) => {
            let (status, exit, reason) = match captured.outcome {
                ChildOutcome::Exited(0) => (ChildStatus::Pass, Some(0u8), None),
                ChildOutcome::Exited(code) => (ChildStatus::Fail, Some(code), None),
                ChildOutcome::Signaled(signal) => {
                    let mut message = owned("agent doctor was terminated by signal ");
                    push_signed(&mut message, signal);
                    (ChildStatus::Fail, None, Some(message))
                },
            };
            (ChildReport { status, output: Some(captured.stdout), exit, reason }, None)
        },
        Some(Err(error)) => {
            let kind = error.kind();
            let race = match kind {
                ErrorKind::ChildNotFound | ErrorKind::ChildNotExecutable => true,
                _ => false,
            };
            let report = ChildReport {
                status: if race { ChildStatus::Skipped } else { ChildStatus::Fail },
                output: None,
                exit: None,
                reason: Some(error.diagnostic().why.clone()),
            };
            (report, if race { Some(error) } else { None })
        },
    }
}

/// The hint a missing child earns.
pub open spec fn missing_child_hint() -> Seq<char> {
    hint_text(Check::ChildBinaryResolves, Seq::empty())
}

/// The hint a child that cannot be executed earns.
pub open spec fn not_executable_hint(path: Seq<char>) -> Seq<char> {
    hint_text(Check::ChildIsExecutable, seq![("path"@, path)])
}

fn missing_hint() -> (r: String)
    ensures
        r@ == missing_child_hint(),
{
    let values: Vec<(&str, &str)> = Vec::new();
    proof {
        assert(pairs_view(values@) =~= Seq::<(Seq<char>, Seq<char>)>::empty());
    }
    hint_or_empty(Check::ChildBinaryResolves, &values)
}

fn executable_hint(path: &str) -> (r: String)
    ensures
        r@ == not_executable_hint(path@),
{
    let values: Vec<(&str, &str)> = vec![("path", path)];
    proof {
        assert(pairs_view(values@) =~= seq![("path"@, path@)]);
    }
    hint_or_empty(Check::ChildIsExecutable, &values)
}

/// Re-judges the two child rows when the child vanished or lost its execute
/// bit between those checks and its own report; any other error leaves them.
pub fn patch_child_race(results: &mut Vec<CheckResult>, error: &AppError)
    requires
        old(results)@.len() >= 5,
    ensures
        final(results)@.len() == old(results)@.len(),
        match kind_of(*error) {
            ErrorKind::ChildNotFound => defective(
                final(results)@[3],
                Check::ChildBinaryResolves,
                diagnostic_of(*error).why@,
                missing_child_hint(),
            ) && forall|i: int| 0 <= i < old(results)@.len() && i != 3 ==> final(results)@[i] == old(results)@[i],
            ErrorKind::ChildNotExecutable => defective(
                final(results)@[4],
                Check::ChildIsExecutable,
                diagnostic_of(*error).why@,
                not_executable_hint(diagnostic_of(*error).where_@),
            ) && forall|i: int| 0 <= i < old(results)@.len() && i != 4 ==> final(results)@[i] == old(results)@[i],
            _ => final(results)@ == old(results)@,
        },
{
    match error.kind() {
        ErrorKind::ChildNotFound => {
            let row = CheckResult::defect(Check::ChildBinaryResolves, error.diagnostic().why.clone(), missing_hint());
            results.set(3, row);
        },
        ErrorKind::ChildNotExecutable => {
            let row = CheckResult::defect(
                Check::ChildIsExecutable,
                error.diagnostic().why.clone(),
                executable_hint(error.diagnostic().where_.as_str()),
            );
            results.set(4, row);
        },
        _ => {},
    }
}

/// The two rows the child's resolution becomes, and whether there is a child
/// to run: found and runnable, found but not executable, or not found.
pub fn program_results(program: &Result<Vec<u8>, AppError>) -> (r: (Vec<CheckResult>, bool))
    ensures
        r.0@.len() == 2,
        match program {
            Ok(path) => r.1 && passes(r.0@[0], Check::ChildBinaryResolves, lossy_spec(path@)) && passes(
                r.0@[1],
                Check::ChildIsExecutable,
                "this user can run it"@,
            ),
            Err(e) => !r.1 && if kind_of(*e) == ErrorKind::ChildNotExecutable {
                passes(r.0@[0], Check::ChildBinaryResolves, diagnostic_of(*e).where_@) && defective(
                    r.0@[1],
                    Check::ChildIsExecutable,
                    diagnostic_of(*e).why@,
                    not_executable_hint(diagnostic_of(*e).where_@),
                )
            } else {
                defective(r.0@[0], Check::ChildBinaryResolves, diagnostic_of(*e).why@, missing_child_hint())
                    && skips(
                    r.0@[1],
                    Check::ChildIsExecutable,
                    "there is no agent to test. Install it first, as the check above says."@,
                )
            },
        },
{
    let mut rows: Vec<CheckResult> = Vec::new();
    match program {
        Ok(path) => {
            rows.push(CheckResult::pass(Check::ChildBinaryResolves, lossy_text(path.as_slice())));
            rows.push(CheckResult::pass(Check::ChildIsExecutable, owned("this user can run it")));
            (rows, true)
        },
        Err(error) => {
            let not_executable = match error.kind() {
                ErrorKind::ChildNotExecutable => true,
                _ => false,
            };
            if not_executable {
                rows.push(CheckResult::pass(Check::ChildBinaryResolves, error.diagnostic().where_.clone()));
                rows.push(
                    CheckResult::defect(
                        Check::ChildIsExecutable,
                        error.diagnostic().why.clone(),
                        executable_hint(error.diagnostic().where_.as_str()),
                    ),
                );
            } else {
                rows.push(CheckResult::defect(Check::ChildBinaryResolves, error.diagnostic().why.clone(), missing_hint()));
                rows.push(
                    CheckResult::skipped(
                        Check::ChildIsExecutable,
                        owned("there is no agent to test. Install it first, as the check above says."),
                    ),
                );
            }
            (rows, false)
        },
    }
}

/// The message of a runtime directory that is not set.
pub open spec fn no_runtime_message() -> Seq<char> {
    "XDG_RUNTIME_DIR is not set, so this session has no runtime directory."@
}

fn runtime_row(runtime: Option<&Vec<u8>>) -> (r: CheckResult)
    ensures
        match runtime {
            Some(p) => passes(r, Check::RuntimeDirPresent, lossy_spec(p@)),
            None => defective(r, Check::RuntimeDirPresent, no_runtime_message(), Seq::empty()),
        },
{
    match runtime {
        Some(path) => CheckResult::pass(Check::RuntimeDirPresent, lossy_text(path.as_slice())),
        None => CheckResult::defect(
            Check::RuntimeDirPresent,
            owned("XDG_RUNTIME_DIR is not set, so this session has no runtime directory."),
            String::new(),
        ),
    }
}

/// Why every check below the storage roots is skipped when they failed.
pub open spec fn bootstrap_reason() -> Seq<char> {
    "the wrapper could not work out where to store its files, so nothing below it could be checked. Fix the storage locations above first."@
}

/// The complete report when the storage roots could not be resolved: the
/// roots fail with the resolution's reason, the runtime directory is judged
/// on its own, and every later check in the catalog is skipped.
pub fn bootstrap_results(why: String, runtime: Option<&Vec<u8>>) -> (r: Vec<CheckResult>)
    ensures
        r@.len() == catalog_spec().len(),
        defective(r@[0], Check::BaseDirsResolve, why@, hint_text(Check::BaseDirsResolve, Seq::empty())),
        match runtime {
            Some(p) => passes(r@[1], Check::RuntimeDirPresent, lossy_spec(p@)),
            None => defective(r@[1], Check::RuntimeDirPresent, no_runtime_message(), Seq::empty()),
        },
        forall|k: int| 2 <= k < r@.len() ==> skips(#[trigger] r@[k], catalog_spec()[k], bootstrap_reason()),
{
    let values: Vec<(&str, &str)> = Vec::new();
    proof {
        assert(pairs_view(values@) =~= Seq::<(Seq<char>, Seq<char>)>::empty());
    }
    let mut results: Vec<CheckResult> = Vec::new();
    results.push(CheckResult::defect(Check::BaseDirsResolve, why, hint_or_empty(Check::BaseDirsResolve, &values)));
    results.push(runtime_row(runtime));
    let checks = catalog();
    let mut k: usize = 2;
    while k < checks.len()
        invariant
            checks@ == catalog_spec(),
            2 <= k <= checks@.len(),
            results@.len() == k,
            defective(results@[0], Check::BaseDirsResolve, why@, hint_text(Check::BaseDirsResolve, Seq::empty())),
            match runtime {
                Some(p) => passes(results@[1], Check::RuntimeDirPresent, lossy_spec(p@)),
                None => defective(results@[1], Check::RuntimeDirPresent, no_runtime_message(), Seq::empty()),
            },
            forall|m: int| 2 <= m < k ==> skips(#[trigger] results@[m], catalog_spec()[m], bootstrap_reason()),
        decreases checks.len() - k,
    {
        results.push(CheckResult::skipped(checks[k], owned(
            "the wrapper could not work out where to store its files, so nothing below it could be checked. Fix the storage locations above first.",
        )));
        k = k + 1;
    }
    results
}

/// The first three rows of a report whose storage roots resolved.
pub fn leading_results(config: &Vec<u8>, state: &Vec<u8>, runtime: Option<&Vec<u8>>, config_error: Option<&AppError>) -> (r: Vec<CheckResult>)
    ensures
        r@.len() == 3,
        passes(r@[0], Check::BaseDirsResolve, "settings in "@ + lossy_spec(config@) + ", state in "@ + lossy_spec(state@)),
        match runtime {
            Some(p) => passes(r@[1], Check::RuntimeDirPresent, lossy_spec(p@)),
            None => defective(r@[1], Check::RuntimeDirPresent, no_runtime_message(), Seq::empty()),
        },
        match config_error {
            Some(e) => defective(r@[2], Check::WrapperConfigParses, diagnostic_of(*e).why@, diagnostic_of(*e).hint@),
            None => passes(r@[2], Check::WrapperConfigParses, "read, with every key recognized"@),
        },
{
    let mut roots = owned("settings in ");
    push_str(&mut roots, lossy_text(config.as_slice()).as_str());
    push_str(&mut roots, ", state in ");
    push_str(&mut roots, lossy_text(state.as_slice()).as_str());
    let mut results: Vec<CheckResult> = Vec::new();
    results.push(CheckResult::pass(Check::BaseDirsResolve, roots));
    results.push(runtime_row(runtime));
    results.push(match config_error {
        Some(error) => CheckResult::defect(
            Check::WrapperConfigParses,
            error.diagnostic().why.clone(),
            error.diagnostic().hint.clone(),
        ),
        None => CheckResult::pass(Check::WrapperConfigParses, owned("read, with every key recognized")),
    });
    results
}

/// The rows for every session-scoped check, each skipped for one reason, in
/// catalog order.
pub fn skip_scope(scope: Scope, reason: &str) -> (r: Vec<CheckResult>)
    ensures
        forall|k: int| 0 <= k < r@.len() ==> skips(#[trigger] r@[k], r@[k].check, reason@) && scope_of(
            r@[k].check,
        ) == scope,
        r@.map_values(|c: CheckResult| c.check) == catalog_spec().filter(|c: Check| scope_of(c) == scope),
{
    let checks = catalog();
    let mut results: Vec<CheckResult> = Vec::new();
    let ghost pred = |c: Check| scope_of(c) == scope;
    let mut k: usize = 0;
    proof {
        assert(catalog_spec().take(0).filter(pred) =~= Seq::<Check>::empty()) by {
            reveal(Seq::filter);
        }
        assert(results@.map_values(|c: CheckResult| c.check) =~= Seq::<Check>::empty());
    }
    while k < checks.len()
        invariant
            checks@ == catalog_spec(),
            k <= checks@.len(),
            pred == (|c: Check| scope_of(c) == scope),
            forall|m: int| 0 <= m < results@.len() ==> skips(#[trigger] results@[m], results@[m].check, reason@)
                && scope_of(results@[m].check) == scope,
            results@.map_values(|c: CheckResult| c.check) == catalog_spec().take(k as int).filter(pred),
        decreases checks.len() - k,
    {
        let check = checks[k];
        let ghost before = results@;
        if check.scope() == scope {
            results.push(CheckResult::skipped(check, owned(reason)));
        }
        proof {
            let t = catalog_spec().take(k + 1);
            assert(t.drop_last() =~= catalog_spec().take(k as int));
            assert(t.last() == check);
            reveal(Seq::filter);
            assert(t.filter(pred) == (if pred(check) { t.drop_last().filter(pred).push(check) } else {
                t.drop_last().filter(pred)
            }));
            assert(results@.map_values(|c: CheckResult| c.check) =~= t.filter(pred));
        }
        k = k + 1;
    }
    proof {
        assert(catalog_spec().take(checks@.len() as int) =~= catalog_spec());
    }
    results
}

fn is_storage(c: Check) -> (r: bool)
    ensures
        r == (c is Storage),
{
    match c {
        Check::Storage(_) => true,
        _ => false,
    }
}

/// The rows for every storage check, each skipped for one reason, in
/// catalog order.
pub fn skip_storage(reason: &str) -> (r: Vec<CheckResult>)
    ensures
        forall|k: int| 0 <= k < r@.len() ==> skips(#[trigger] r@[k], r@[k].check, reason@) && r@[k].check is Storage,
        r@.map_values(|c: CheckResult| c.check) == catalog_spec().filter(|c: Check| c is Storage),
{
    let checks = catalog();
    let mut results: Vec<CheckResult> = Vec::new();
    let ghost pred = |c: Check| c is Storage;
    let mut k: usize = 0;
    proof {
        assert(catalog_spec().take(0).filter(pred) =~= Seq::<Check>::empty()) by {
            reveal(Seq::filter);
        }
        assert(results@.map_values(|c: CheckResult| c.check) =~= Seq::<Check>::empty());
    }
    while k < checks.len()
        invariant
            checks@ == catalog_spec(),
            k <= checks@.len(),
            pred == (|c: Check| c is Storage),
            forall|m: int| 0 <= m < results@.len() ==> skips(#[trigger] results@[m], results@[m].check, reason@)
                && results@[m].check is Storage,
            results@.map_values(|c: CheckResult| c.check) == catalog_spec().take(k as int).filter(pred),
        decreases checks.len() - k,
    {
        let check = checks[k];
        let ghost before = results@;
        if is_storage(check) {
            results.push(CheckResult::skipped(check, owned(reason)));
        }
        proof {
            let t = catalog_spec().take(k + 1);
            assert(t.drop_last() =~= catalog_spec().take(k as int));
            assert(t.last() == check);
            reveal(Seq::filter);
            assert(t.filter(pred) == (if pred(check) { t.drop_last().filter(pred).push(check) } else {
                t.drop_last().filter(pred)
            }));
            assert(results@.map_values(|c: CheckResult| c.check) =~= t.filter(pred));
        }
        k = k + 1;
    }
    proof {
        assert(catalog_spec().take(checks@.len() as int) =~= catalog_spec());
    }
    results
}

/// The declared-link seats of a session: each asset name under the session,
/// expected to resolve to the same name in the asset tree.
pub open spec fn asset_seats(session: Seq<u8>, tree: Seq<u8>, names: Seq<Seq<char>>) -> Seq<(Seq<u8>, Option<Seq<u8>>)> {
    Seq::new(names.len(), |i: int| (join_text(session, names[i]), Some(join_text(tree, names[i]))))
}

/// The paths one session adds to the probe: the session itself, its
/// projects link, the shared peer registry (and its link, unless a real
/// directory still holds the name) when this run's scope derives, and every
/// asset seat.
pub open spec fn session_targets_spec(
    roots: Roots,
    account: Seq<char>,
    session: Seq<u8>,
    scope: Option<(Seq<char>, Seq<char>)>,
    sessions_is_dir: bool,
    assets: Seq<Seq<char>>,
) -> Seq<(Seq<u8>, Option<Seq<u8>>)> {
    let state = roots.1;
    let dir = join_text(join_text(state, "accounts"@), account);
    let core = seq![
        (session, None::<Seq<u8>>),
        (join_text(session, "projects"@), Some(join_text(join_text(dir, "config"@), "projects"@))),
    ];
    let peered = match scope {
        None => core,
        Some((boot, space)) => {
            let registry = join_text(join_text(join_text(state, "peers"@), boot), space);
            let linked = if sessions_is_dir {
                core
            } else {
                core.push((join_text(session, "sessions"@), Some(registry)))
            };
            linked.push((registry, None::<Seq<u8>>))
        },
    };
    peered + asset_seats(session, join_text(roots.2, "assets"@), assets)
}

/// The paths a session's storage probe inspects, in order, each with the
/// target it must resolve to when it is a declared link: the account's
/// directory and configuration, the namespace directory this run's agent
/// sits in, the current session's paths, and the composed directory when a
/// profile is selected.
pub open spec fn storage_targets_spec(
    roots: Roots,
    account: Option<Seq<char>>,
    namespace: Option<Seq<char>>,
    session: Option<Seq<u8>>,
    scope: Option<(Seq<char>, Seq<char>)>,
    sessions_is_dir: bool,
    assets: Seq<Seq<char>>,
    profile: bool,
) -> Seq<(Seq<u8>, Option<Seq<u8>>)> {
    let state = roots.1;
    let chosen = match account {
        None => Seq::empty(),
        Some(a) => {
            let dir = join_text(join_text(state, "accounts"@), a);
            let base = seq![(dir, None::<Seq<u8>>), (join_text(dir, "config"@), None::<Seq<u8>>)];
            let spaced = match namespace {
                Some(n) => base.push((join_text(join_text(dir, "sessions"@), n), None::<Seq<u8>>)),
                None => base,
            };
            match session {
                None => spaced,
                Some(s) => spaced + session_targets_spec(roots, a, s, scope, sessions_is_dir, assets),
            }
        },
    };
    if profile {
        chosen.push((join_text(state, "composed"@), None::<Seq<u8>>))
    } else {
        chosen
    }
}

/// The paths and link targets as plain values.
pub open spec fn target_views(v: Seq<(Vec<u8>, Option<Vec<u8>>)>) -> Seq<(Seq<u8>, Option<Seq<u8>>)> {
    v.map_values(
        |t: (Vec<u8>, Option<Vec<u8>>)|
            (
                t.0@,
                match t.1 {
                    Some(x) => Some(x@),
                    None => None::<Seq<u8>>,
                },
            ),
    )
}

fn push_target(out: &mut Vec<(Vec<u8>, Option<Vec<u8>>)>, path: Vec<u8>, target: Option<Vec<u8>>)
    ensures
        target_views(final(out)@) == target_views(old(out)@).push(
            (
                path@,
                match target {
                    Some(x) => Some(x@),
                    None => None::<Seq<u8>>,
                },
            ),
        ),
{
    let ghost before = out@;
    out.push((path, target));
    proof {
        assert(target_views(out@) =~= target_views(before).push(
            (
                path@,
                match target {
                    Some(x) => Some(x@),
                    None => None::<Seq<u8>>,
                },
            ),
        ));
    }
}

fn push_asset_seats(out: &mut Vec<(Vec<u8>, Option<Vec<u8>>)>, session: &Vec<u8>, tree: &Vec<u8>, assets: &Vec<&str>)
    ensures
        target_views(final(out)@) == target_views(old(out)@) + asset_seats(
            session@,
            tree@,
            assets@.map_values(|n: &str| n@),
        ),
{
    let ghost before = target_views(out@);
    let ghost names = assets@.map_values(|n: &str| n@);
    let mut i: usize = 0;
    proof {
        assert(asset_seats(session@, tree@, names.take(0)) =~= Seq::<(Seq<u8>, Option<Seq<u8>>)>::empty());
        assert(before + Seq::<(Seq<u8>, Option<Seq<u8>>)>::empty() =~= before);
    }
    while i < assets.len()
        invariant
            i <= assets@.len(),
            names == assets@.map_values(|n: &str| n@),
            target_views(out@) == before + asset_seats(session@, tree@, names.take(i as int)),
        decreases assets.len() - i,
    {
        let name = assets[i];
        push_target(out, join(session, name), Some(join(tree, name)));
        proof {
            assert(names[i as int] == name@);
            assert(asset_seats(session@, tree@, names.take(i + 1)) =~= asset_seats(session@, tree@, names.take(i as int)).push(
                (join_text(session@, name@), Some(join_text(tree@, name@))),
            ));
            assert(before + asset_seats(session@, tree@, names.take(i + 1)) =~= (before + asset_seats(
                session@,
                tree@,
                names.take(i as int),
            )).push((join_text(session@, name@), Some(join_text(tree@, name@)))));
        }
        i = i + 1;
    }
    proof {
        assert(names.take(assets@.len() as int) =~= names);
    }
}

fn push_session_targets(
    out: &mut Vec<(Vec<u8>, Option<Vec<u8>>)>,
    paths: &XdgPaths,
    account: &Identifier,
    session: &Vec<u8>,
    scope: Option<&crate::peers::Scope>,
    sessions_is_dir: bool,
    assets: &Vec<&str>,
)
    ensures
        target_views(final(out)@) == target_views(old(out)@) + session_targets_spec(
            paths@,
            account@,
            session@,
            match scope {
                Some(c) => Some(c@),
                None => None::<(Seq<char>, Seq<char>)>,
            },
            sessions_is_dir,
            assets@.map_values(|n: &str| n@),
        ),
{
    let ghost before = target_views(out@);
    let projects = join(session, "projects");
    push_target(out, session.clone(), None);
    push_target(out, projects, Some(paths.account_projects(account)));
    if let Some(c) = scope {
        let registry = paths.peer_registry(c.boot(), c.namespace());
        if !sessions_is_dir {
            push_target(out, join(session, "sessions"), Some(registry.clone()));
        }
        push_target(out, registry, None);
    }
    let ghost middle = target_views(out@);
    let tree = paths.assets();
    push_asset_seats(out, session, &tree, assets);
    proof {
        let spec_scope = match scope {
            Some(c) => Some(c@),
            None => None::<(Seq<char>, Seq<char>)>,
        };
        let whole = session_targets_spec(paths@, account@, session@, spec_scope, sessions_is_dir, assets@.map_values(|n: &str| n@));
        assert(middle + asset_seats(session@, tree@, assets@.map_values(|n: &str| n@)) =~= before + whole) by {
            assert(middle =~= before + whole.take(middle.len() - before.len()));
        }
    }
}

/// Chooses the storage paths a session's probe inspects.
pub fn storage_targets(
    paths: &XdgPaths,
    account: Option<&Identifier>,
    namespace: Option<&Identifier>,
    session: Option<Vec<u8>>,
    scope: Option<&crate::peers::Scope>,
    sessions_is_dir: bool,
    assets: &Vec<&str>,
    profile: bool,
) -> (r: Vec<(Vec<u8>, Option<Vec<u8>>)>)
    ensures
        target_views(r@) == storage_targets_spec(
            paths@,
            match account {
                Some(a) => Some(a@),
                None => None::<Seq<char>>,
            },
            match namespace {
                Some(n) => Some(n@),
                None => None::<Seq<char>>,
            },
            match session {
                Some(s) => Some(s@),
                None => None::<Seq<u8>>,
            },
            match scope {
                Some(c) => Some(c@),
                None => None::<(Seq<char>, Seq<char>)>,
            },
            sessions_is_dir,
            assets@.map_values(|n: &str| n@),
            profile,
        ),
{
    let mut out: Vec<(Vec<u8>, Option<Vec<u8>>)> = Vec::new();
    proof {
        assert(target_views(out@) =~= Seq::<(Seq<u8>, Option<Seq<u8>>)>::empty());
    }
    if let Some(a) = account {
        push_target(&mut out, paths.account(a), None);
        push_target(&mut out, paths.account_config(a), None);
        if let Some(n) = namespace {
            push_target(&mut out, paths.account_namespace(a, n), None);
        }
        if let Some(s) = &session {
            push_session_targets(&mut out, paths, a, s, scope, sessions_is_dir, assets);
        }
    }
    if profile {
        push_target(&mut out, paths.composed(), None);
    }
    out
}

/// The two entry rows when no profile is selected, skipped with the way to
/// bind one.
pub fn entry_skip_results() -> (r: Vec<CheckResult>)
    ensures
        r@.len() == 2,
        skips(r@[0], Check::Entry(EntryCheck::Compose), no_profile_reason()),
        skips(r@[1], Check::Entry(EntryCheck::Consistent), no_profile_reason()),
{
    let mut out: Vec<CheckResult> = Vec::new();
    out.push(CheckResult::skipped(Check::Entry(EntryCheck::Compose), owned("no profile is selected. Bind one to the account with: session-wrapper account bind <account> --profile <name>")));
    out.push(CheckResult::skipped(Check::Entry(EntryCheck::Consistent), owned("no profile is selected. Bind one to the account with: session-wrapper account bind <account> --profile <name>")));
    out
}

/// Why the entry rows are skipped when no profile is selected.
pub open spec fn no_profile_reason() -> Seq<char> {
    "no profile is selected. Bind one to the account with: session-wrapper account bind <account> --profile <name>"@
}

} // verus!
