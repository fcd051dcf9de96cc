use vstd::prelude::*;

verus! {

/// Errors that can occur while validating input, allocating judges to
/// projects, scoring decisions, or handling times.
#[derive(Debug, PartialEq, Eq, Clone)]
pub enum Error {
    /// The judge collection is empty.
    ErrNoJudges,
    /// The project collection is empty.
    ErrNoProjects,
    /// A judge has an id that is empty after trimming whitespace.
    ErrInvalidJudgeId,
    /// A judge has a name that is empty after trimming whitespace.
    ErrInvalidJudgeName,
    /// Two judges share the same id.
    ErrDuplicateJudgeIds,
    /// A project has an id that is empty after trimming whitespace.
    ErrInvalidProjectId,
    /// A project has a name that is empty after trimming whitespace.
    ErrInvalidProjectName,
    /// Two projects share the same id.
    ErrDuplicateProjectIds,
    /// There are fewer judges than the minimum number of judges required
    /// per project.
    NotEnoughJudges { judges: u32, projects: u32, judge_amount: u32 },
    /// No rank weights were supplied to the scorer.
    ErrNoRankWeights,
    /// An hour or minute was out of range, or a time string was malformed.
    InvalidTime,
    /// Workbook generation failed; carries the underlying message.
    ErrFailedToCreateSpreadsheet(String),
}

} // verus!
