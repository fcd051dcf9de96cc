use vstd::prelude::*;

use crate::error::Error;
use crate::text::{str_trimmed_nonempty, trimmed_nonempty};
use crate::Validate;

verus! {

/// An entry being evaluated.
#[derive(Clone, Debug)]
pub struct Project {
    /// Id of the project, this value must be unique.
    pub id: String,
    /// Name of the project.
    pub name: String,
    /// Informational table number, if the project has one.
    pub table_number: Option<u32>,
}

/// Two projects denote the same entry when their ids and names agree;
/// the table number is informational only.
pub open spec fn project_like(a: Project, b: Project) -> bool {
    a.id@ == b.id@ && a.name@ == b.name@
}

impl PartialEq for Project {
    fn eq(&self, other: &Self) -> bool {
        self.id == other.id && self.name == other.name
    }
}

impl vstd::std_specs::cmp::PartialEqSpecImpl for Project {
    open spec fn obeys_eq_spec() -> bool {
        true
    }

    open spec fn eq_spec(&self, other: &Project) -> bool {
        project_like(*self, *other)
    }
}

impl Project {
    /// A project is well formed when its id and name both hold visible text.
    pub open spec fn valid(self) -> bool {
        trimmed_nonempty(self.id@) && trimmed_nonempty(self.name@)
    }

    pub fn new(id: String, name: String) -> (r: Project)
        ensures
            r == (Project { id, name, table_number: Option::None }),
    {
        Project { id, name, table_number: None }
    }

    /// Copy a project, field for field.
    pub fn duplicate(&self) -> (r: Project)
        ensures
            r == *self,
    {
        Project { id: self.id.clone(), name: self.name.clone(), table_number: self.table_number }
    }
}

/// Copy a project list, element for element.
#[verifier::loop_isolation(false)]
pub fn clone_projects(v: &Vec<Project>) -> (r: Vec<Project>)
    ensures
        r@ == v@,
{
    let mut out: Vec<Project> = Vec::new();
    let n = v.len();
    let mut i: usize = 0;
    while i < n
        invariant
            i <= n,
            out@ == v@.take(i as int),
        decreases n - i,
    {
        out.push(v[i].duplicate());
        proof {
            assert(v@.take(i as int).push(v@[i as int]) =~= v@.take(i as int + 1));
        }
        i += 1;
    }
    proof {
        assert(v@.take(n as int) =~= v@);
    }
    out
}

impl Validate for Project {
    open spec fn validate_spec(&self) -> Result<(), Error> {
        if !trimmed_nonempty(self.id@) {
            Err(Error::ErrInvalidProjectId)
        } else if !trimmed_nonempty(self.name@) {
            Err(Error::ErrInvalidProjectName)
        } else {
            Ok(())
        }
    }

    fn validate(&self) -> (r: Result<(), Error>) {
        if !str_trimmed_nonempty(self.id.as_str()) {
            Err(Error::ErrInvalidProjectId)
        } else if !str_trimmed_nonempty(self.name.as_str()) {
            Err(Error::ErrInvalidProjectName)
        } else {
            Ok(())
        }
    }
}

} // verus!
