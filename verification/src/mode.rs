use vstd::prelude::*;

verus! {

/// Mode the scorer operates in: average the contributions for a project,
/// or total them.
#[derive(PartialEq, Eq, Structural, Clone, Copy, Debug)]
pub enum Mode {
    Average,
    Total,
}

} // verus!
