use vstd::prelude::*;

use crate::error::Error;
use crate::text::{str_trimmed_nonempty, trimmed_nonempty};
use crate::Validate;

verus! {

/// An evaluator assigned to review projects.
#[derive(Clone, Debug)]
pub struct Judge {
    /// Id of the judge, this value must be unique.
    pub id: String,
    /// Name of the judge.
    pub name: String,
}

impl Judge {
    /// A judge is well formed when its id and name both hold visible text.
    pub open spec fn valid(self) -> bool {
        trimmed_nonempty(self.id@) && trimmed_nonempty(self.name@)
    }

    pub fn new(id: String, name: String) -> (r: Judge)
        ensures
            r == (Judge { id, name }),
    {
        Judge { id, name }
    }

    /// Copy a judge, field for field.
    pub fn duplicate(&self) -> (r: Judge)
        ensures
            r == *self,
    {
        Judge { id: self.id.clone(), name: self.name.clone() }
    }
}

impl Validate for Judge {
    open spec fn validate_spec(&self) -> Result<(), Error> {
        if !trimmed_nonempty(self.id@) {
            Err(Error::ErrInvalidJudgeId)
        } else if !trimmed_nonempty(self.name@) {
            Err(Error::ErrInvalidJudgeName)
        } else {
            Ok(())
        }
    }

    fn validate(&self) -> (r: Result<(), Error>) {
        if !str_trimmed_nonempty(self.id.as_str()) {
            Err(Error::ErrInvalidJudgeId)
        } else if !str_trimmed_nonempty(self.name.as_str()) {
            Err(Error::ErrInvalidJudgeName)
        } else {
            Ok(())
        }
    }
}

} // verus!
