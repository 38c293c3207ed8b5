use vstd::prelude::*;

verus! {

/// The failure modes of the analysis pipeline.
#[derive(Clone, Copy, Debug, PartialEq, Eq, Structural)]
pub enum AnalysisError {
    /// The block size is zero, not byte-aligned, too large to exponentiate,
    /// or the blocks handed in do not have the configured length.
    InvalidConfiguration,
    /// A block collection is empty: no distribution can be formed over it.
    EmptyInput,
    /// The normalized statistic's denominator vanishes at a scanned rank.
    DegenerateStatistic,
    /// The external significance computation failed or returned a value
    /// outside [0, 1].  Produced only by callers that run that computation.
    OracleFailure,
}

impl AnalysisError {
    /// A human-readable diagnostic for reporting a failed run.
    pub fn describe(&self) -> (r: &'static str) {
        match self {
            AnalysisError::InvalidConfiguration => "invalid block-size configuration",
            AnalysisError::EmptyInput => "empty block collection",
            AnalysisError::DegenerateStatistic => "degenerate deviation statistic",
            AnalysisError::OracleFailure => "significance oracle failure",
        }
    }
}

} // verus!
