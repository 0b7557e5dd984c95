//! What the configuration report says: each key with the layer that won it,
//! each declared strategy, and the exit its defects fold to.

use vstd::prelude::*;

use crate::checks::{check_kind, severity_of, CheckResult, CheckStatus, Severity};
use crate::encoding::{lossy_spec, lossy_text};
use crate::error::{exit_code_of, owned};
use crate::resolve::{ResolvedConfig, Source};
use crate::strategy::{rows_of, strategy_view, ArrayStrategy, StrategyTable};

verus! {

/// One resolved configuration key and the layer that supplied it.
#[derive(Debug)]
pub struct KeyReport {
    /// The key's file spelling.
    pub name: &'static str,
    /// The resolved value, absent when no layer supplied one.
    pub value: Option<String>,
    /// The winning layer.
    pub source: Source,
}

/// An optional text by its view.
pub open spec fn text_view(o: Option<String>) -> Option<Seq<char>> {
    match o {
        Some(s) => Some(s@),
        None => None,
    }
}

/// The three configuration keys, each with its resolved value and winning
/// layer; the child binary is shown as its path's display text.
pub fn key_reports(config: &ResolvedConfig) -> (r: Vec<KeyReport>)
    ensures
        r@.len() == 3,
        r@[0].name@ == "child_bin"@ && r@[0].source == config.child_bin.source && text_view(r@[0].value) == (
        match config.child_bin.value {
            Some(p) => Some(lossy_spec(p@)),
            None => None,
        }),
        r@[1].name@ == "default_account"@ && r@[1].source == config.default_account.source && text_view(
            r@[1].value,
        ) == (match config.default_account.value {
            Some(a) => Some(a@),
            None => None,
        }),
        r@[2].name@ == "default_profile"@ && r@[2].source == config.default_profile.source && text_view(
            r@[2].value,
        ) == (match config.default_profile.value {
            Some(p) => Some(p@),
            None => None,
        }),
{
    let mut reports: Vec<KeyReport> = Vec::new();
    reports.push(KeyReport {
        name: "child_bin",
        value: match config.child_bin.value() {
            Some(p) => Some(lossy_text(p.as_slice())),
            None => None,
        },
        source: config.child_bin.source(),
    });
    reports.push(KeyReport {
        name: "default_account",
        value: match config.default_account.value() {
            Some(a) => Some(owned(a.as_str())),
            None => None,
        },
        source: config.default_account.source(),
    });
    reports.push(KeyReport {
        name: "default_profile",
        value: match config.default_profile.value() {
            Some(p) => Some(owned(p.as_str())),
            None => None,
        },
        source: config.default_profile.source(),
    });
    reports
}

/// One declared array strategy as the report prints it.
#[derive(Debug)]
pub struct StrategyReport {
    pub pointer: String,
    pub strategy: String,
    pub key: Option<String>,
}

/// The declared strategies, in pointer order: the pointer, the spelling, and
/// the key a merge-by-key entry matches on.
pub fn strategy_reports(table: &StrategyTable) -> (r: Vec<StrategyReport>)
    ensures
        r@.len() == table.rows().len(),
        forall|i: int| 0 <= i < r@.len() ==> {
            let row = table.rows()[i];
            &&& (#[trigger] r@[i]).pointer@ == row.0
            &&& r@[i].strategy@ == (if row.1.0 { "merge-by-key"@ } else { "concat"@ })
            &&& text_view(r@[i].key) == (if row.1.0 { Some(row.1.1) } else { None })
        },
{
    let entries = table.entries();
    let mut out: Vec<StrategyReport> = Vec::new();
    let mut i: usize = 0;
    while i < entries.len()
        invariant
            i <= entries@.len(),
            rows_of(entries@) == table.rows(),
            out@.len() == i,
            forall|k: int| 0 <= k < i ==> {
                let row = table.rows()[k];
                &&& (#[trigger] out@[k]).pointer@ == row.0
                &&& out@[k].strategy@ == (if row.1.0 { "merge-by-key"@ } else { "concat"@ })
                &&& text_view(out@[k].key) == (if row.1.0 { Some(row.1.1) } else { None })
            },
        decreases entries.len() - i,
    {
        let (pointer, strategy) = &entries[i];
        let key = match strategy {
            ArrayStrategy::MergeByKey { key } => Some(key.clone()),
            ArrayStrategy::Concat => None,
        };
        out.push(StrategyReport { pointer: owned(pointer.as_str()), strategy: owned(strategy.spelling()), key });
        i = i + 1;
    }
    out
}

/// The exit of the first failing hard check, in order, or zero.
pub open spec fn hard_failure_exit(rs: Seq<CheckResult>) -> u8
    decreases rs.len(),
{
    if rs.len() == 0 {
        0
    } else if rs[0].status == CheckStatus::Fail && severity_of(rs[0].check) == Severity::Hard {
        exit_code_of(check_kind(rs[0].check))
    } else {
        hard_failure_exit(rs.skip(1))
    }
}

/// Folds the report's defects into an exit the way `doctor` does: the first
/// failing hard check decides it; an unwritten entry is advisory.
pub fn config_verdict(defects: &Vec<CheckResult>) -> (r: u8)
    ensures
        r == hard_failure_exit(defects@),
{
    let mut i: usize = 0;
    proof {
        assert(defects@.skip(0) =~= defects@);
    }
    while i < defects.len()
        invariant
            i <= defects@.len(),
            hard_failure_exit(defects@) == hard_failure_exit(defects@.skip(i as int)),
        decreases defects.len() - i,
    {
        let result = &defects[i];
        proof {
            assert(defects@.skip(i as int)[0] == defects@[i as int]);
            assert(defects@.skip(i as int).skip(1) =~= defects@.skip(i + 1));
        }
        let hard = match result.check.severity() {
            Severity::Hard => true,
            Severity::Soft => false,
        };
        let failed = match result.status {
            CheckStatus::Fail => true,
            _ => false,
        };
        if failed && hard {
            return result.check.kind().exit_code();
        }
        i = i + 1;
    }
    0
}

} // verus!
