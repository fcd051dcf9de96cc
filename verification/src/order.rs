use vstd::prelude::*;

verus! {

/// Order the scores are sorted in before they are returned.
#[derive(PartialEq, Eq, Structural, Clone, Copy, Debug)]
pub enum Order {
    ScoreAsc,
    ScoreDesc,
    ProjectNameAsc,
    ProjectNameDesc,
}

} // verus!
