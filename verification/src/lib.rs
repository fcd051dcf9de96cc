use vstd::prelude::*;

pub mod allocate;
pub mod config;
pub mod error;
pub mod format;
pub mod input;
pub mod judge;
pub mod mode;
pub mod order;
pub mod project;
pub mod scoring;
pub mod spreadsheet;
pub mod text;
pub mod time;

use crate::error::Error;

verus! {

/// Structural well-formedness of an input collection.
pub trait Validate {
    /// The exact verdict that `validate` returns.
    spec fn validate_spec(&self) -> Result<(), Error>;

    /// Check the value, returning the first failure in a fixed order,
    /// or nothing when the value is well formed.
    fn validate(&self) -> (r: Result<(), Error>)
        ensures
            r == self.validate_spec(),
    ;
}

} // verus!
