//! Classifies each usage dimension of a record against its hard
//! limit.  The single comparison rule: usage at or above nine tenths
//! of the hard limit is critical, at or above seven tenths is a
//! warning, anything else is fine; an absent hard limit means the
//! dimension is unknown, which is never conflated with fine.

use vstd::prelude::*;
use crate::record::{ProcStats, GatherError};

verus! {

/// How close one dimension stands to its hard limit.
#[derive(Clone, Copy, Debug, PartialEq, Eq, Structural)]
pub enum Severity {
    Okay,
    Warning,
    Critical,
    Unknown,
}

/// The classification rule, stated over exact integers: the ratio
/// thresholds 0.9 and 0.7 become comparisons of `usage * 10` against
/// `hard * 9` and `hard * 7`.
pub open spec fn classify_spec(usage: u64, hard: Option<u64>) -> Severity {
    match hard {
        None => Severity::Unknown,
        Some(h) => {
            if usage * 10 >= h * 9 {
                Severity::Critical
            } else if usage * 10 >= h * 7 {
                Severity::Warning
            } else {
                Severity::Okay
            }
        },
    }
}

/// Classifies one dimension; an absent hard limit is unknown
/// regardless of the usage value.
pub fn classify(usage: u64, hard: Option<u64>) -> (s: Severity)
    ensures
        s == classify_spec(usage, hard),
{
    match hard {
        None => Severity::Unknown,
        Some(h) => {
            let u10: u128 = (usage as u128) * 10;
            if u10 >= (h as u128) * 9 {
                Severity::Critical
            } else if u10 >= (h as u128) * 7 {
                Severity::Warning
            } else {
                Severity::Okay
            }
        },
    }
}

/// One record's severities for the three dimensions.
#[derive(Clone, Copy, Debug, PartialEq, Eq, Structural)]
pub struct EvaluationResult {
    pub fds: Severity,
    pub mem: Severity,
    pub threads: Severity,
}

/// What evaluation yields on a gathered record: open descriptors
/// against the descriptor hard limit, virtual size against the
/// address-space hard limit, thread count against the process hard
/// limit.
pub open spec fn eval_of_record(st: ProcStats) -> EvaluationResult {
    EvaluationResult {
        fds: classify_spec(st.open_fds, Some(st.fd_hard_limit)),
        mem: classify_spec(st.vm_size, st.mem_hard_limit),
        threads: classify_spec(st.threads as u64, st.threads_hard_limit),
    }
}

/// A record that could not be gathered is unknown in every dimension.
pub open spec fn eval_unknown() -> EvaluationResult {
    EvaluationResult { fds: Severity::Unknown, mem: Severity::Unknown, threads: Severity::Unknown }
}

pub open spec fn eval_of_outcome(o: Result<ProcStats, GatherError>) -> EvaluationResult {
    match o {
        Ok(st) => eval_of_record(st),
        Err(_) => eval_unknown(),
    }
}

/// Evaluates one gathered record.
pub fn evaluate(st: &ProcStats) -> (r: EvaluationResult)
    ensures
        r == eval_of_record(*st),
{
    EvaluationResult {
        fds: classify(st.open_fds, Some(st.fd_hard_limit)),
        mem: classify(st.vm_size, st.mem_hard_limit),
        threads: classify(st.threads as u64, st.threads_hard_limit),
    }
}

/// Evaluates a gather outcome, record or failure.
pub fn evaluate_outcome(o: &Result<ProcStats, GatherError>) -> (r: EvaluationResult)
    ensures
        r == eval_of_outcome(*o),
{
    match o {
        Ok(st) => evaluate(st),
        Err(_) => EvaluationResult {
            fds: Severity::Unknown,
            mem: Severity::Unknown,
            threads: Severity::Unknown,
        },
    }
}

} // verus!
