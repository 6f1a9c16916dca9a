//! The report header shared by every analysis: version, coverage and stop flags.
use crate::control::AnalysisControl;
use crate::model::{
    add_limitation, bump_reason, coverage_view, degrade, sort_by_reason, texts, with_gap, Coverage,
    UnknownReason,
};
use vstd::prelude::*;

verus! {

/// Why an analysis produced no report.
#[derive(Debug, Clone)]
pub enum AnalysisError {
    InvalidInput(String),
    BudgetExhausted,
}

impl AnalysisError {
    /// Human-readable description of the error.
    pub fn message(&self) -> (r: String)
        ensures
            match self {
                AnalysisError::InvalidInput(m) => r@ == "invalid analysis input: "@ + m@,
                AnalysisError::BudgetExhausted => r@
                    == "analysis byte or hard input budget exhausted"@,
            },
    {
        match self {
            AnalysisError::InvalidInput(m) => {
                let mut text = String::new();
                text.append("invalid analysis input: ");
                text.append(m.as_str());
                proof {
                    reveal_strlit("invalid analysis input: ");
                }
                text
            },
            AnalysisError::BudgetExhausted => {
                let text = "analysis byte or hard input budget exhausted".to_string();
                text
            },
        }
    }
}

/// An `InvalidInput` error carrying `reason`.
pub fn invalid(reason: &str) -> (e: AnalysisError)
    ensures
        e matches AnalysisError::InvalidInput(m) && m@ == reason@,
{
    AnalysisError::InvalidInput(reason.to_string())
}

/// Version, coverage and completeness flags of one analysis report.
#[derive(Debug, Clone)]
pub struct AnalysisEnvelope {
    pub algorithm_version: String,
    pub coverage: Coverage,
    pub truncated: bool,
    pub cancelled: bool,
    pub deadline_reached: bool,
    pub assumptions: Vec<String>,
}

/// The message recorded when an analysis stops early.
pub open spec fn stopped_message() -> Seq<char> {
    "Analysis stopped before all selected facts were processed"@
}

/// Whether the report records that the analysis stopped early on the control's request.
/// Only `stop` sets either flag; a fresh envelope has both unset.
pub open spec fn stop_recorded(e: AnalysisEnvelope) -> bool {
    e.cancelled || e.deadline_reached
}

impl AnalysisEnvelope {
    /// A fresh envelope: nothing truncated, cancelled or timed out, no assumptions.
    pub fn new(version: &str, coverage: Coverage) -> (e: Self)
        ensures
            e.algorithm_version@ == version@,
            e.coverage == coverage,
            !e.truncated,
            !e.cancelled,
            !e.deadline_reached,
            e.assumptions@.len() == 0,
    {
        AnalysisEnvelope {
            algorithm_version: version.to_string(),
            coverage,
            truncated: false,
            cancelled: false,
            deadline_reached: false,
            assumptions: Vec::new(),
        }
    }

    /// Records one coverage gap (see `Coverage::record_gap`); the flags are unchanged.
    pub fn partial(&mut self, reason: UnknownReason, message: &str)
        ensures
            final(self).coverage.status == degrade(old(self).coverage.status),
            final(self).coverage.reasons@ == sort_by_reason(
                bump_reason(old(self).coverage.reasons@, reason),
            ),
            texts(final(self).coverage.limitations@) == add_limitation(
                texts(old(self).coverage.limitations@),
                message@,
            ),
            coverage_view(final(self).coverage) == with_gap(
                coverage_view(old(self).coverage),
                reason,
                message@,
            ),
            final(self).algorithm_version == old(self).algorithm_version,
            final(self).truncated == old(self).truncated,
            final(self).cancelled == old(self).cancelled,
            final(self).deadline_reached == old(self).deadline_reached,
            final(self).assumptions == old(self).assumptions,
    {
        self.coverage.record_gap(reason, message);
    }

    /// Marks the report as stopped early: truncated, with the control's flags copied and a
    /// budget gap recorded. A stop is only requested once the control is cancelled or past
    /// its deadline, and neither is ever undone; should the deadline read as not yet passed
    /// here while the flag is unset, the deadline is what is recorded.
    pub fn stop(&mut self, control: &AnalysisControl)
        ensures
            final(self).truncated,
            stop_recorded(*final(self)),
            final(self).coverage.status == degrade(old(self).coverage.status),
            final(self).coverage.reasons@ == sort_by_reason(
                bump_reason(old(self).coverage.reasons@, UnknownReason::BudgetExhausted),
            ),
            texts(final(self).coverage.limitations@) == add_limitation(
                texts(old(self).coverage.limitations@),
                stopped_message(),
            ),
            coverage_view(final(self).coverage) == with_gap(
                coverage_view(old(self).coverage),
                UnknownReason::BudgetExhausted,
                stopped_message(),
            ),
            final(self).algorithm_version == old(self).algorithm_version,
            final(self).assumptions == old(self).assumptions,
    {
        self.cancelled = control.cancelled();
        let reached = control.deadline_reached();
        self.deadline_reached = reached || !self.cancelled;
        self.truncated = true;
        self.partial(
            UnknownReason::BudgetExhausted,
            "Analysis stopped before all selected facts were processed",
        );
    }
}

} // verus!
