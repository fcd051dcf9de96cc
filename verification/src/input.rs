use vstd::prelude::*;

use crate::error::Error;
use crate::judge::Judge;
use crate::project::Project;
use crate::text::str_eq;
use crate::Validate;

verus! {

/// The first validation failure among the judges, in input order, with the
/// id of each judge checked before its name.
pub open spec fn check_judges(s: Seq<Judge>) -> Result<(), Error>
    decreases s.len(),
{
    if s.len() == 0 {
        Ok(())
    } else if s[0].validate_spec() is Err {
        s[0].validate_spec()
    } else {
        check_judges(s.skip(1))
    }
}

/// The first validation failure among the projects, in input order.
pub open spec fn check_projects(s: Seq<Project>) -> Result<(), Error>
    decreases s.len(),
{
    if s.len() == 0 {
        Ok(())
    } else if s[0].validate_spec() is Err {
        s[0].validate_spec()
    } else {
        check_projects(s.skip(1))
    }
}

/// No two judges share an id.
pub open spec fn judge_ids_unique(s: Seq<Judge>) -> bool {
    forall|i: int, j: int| #![trigger s[i], s[j]] 0 <= i < j < s.len() ==> s[i].id@ != s[j].id@
}

/// No two projects share an id.
pub open spec fn project_ids_unique(s: Seq<Project>) -> bool {
    forall|i: int, j: int| #![trigger s[i], s[j]] 0 <= i < j < s.len() ==> s[i].id@ != s[j].id@
}

/// The two collections an allocation or scoring run starts from.
#[derive(Clone, Debug)]
pub struct Input {
    pub judges: Vec<Judge>,
    pub projects: Vec<Project>,
}

impl Input {
    pub fn new(judges: Vec<Judge>, projects: Vec<Project>) -> (r: Input)
        ensures
            r == (Input { judges, projects }),
    {
        Input { judges, projects }
    }
}

impl Validate for Input {
    open spec fn validate_spec(&self) -> Result<(), Error> {
        if self.judges@.len() == 0 {
            Err(Error::ErrNoJudges)
        } else if self.projects@.len() == 0 {
            Err(Error::ErrNoProjects)
        } else if check_judges(self.judges@) is Err {
            check_judges(self.judges@)
        } else if !judge_ids_unique(self.judges@) {
            Err(Error::ErrDuplicateJudgeIds)
        } else if check_projects(self.projects@) is Err {
            check_projects(self.projects@)
        } else if !project_ids_unique(self.projects@) {
            Err(Error::ErrDuplicateProjectIds)
        } else {
            Ok(())
        }
    }

    #[verifier::loop_isolation(false)]
    fn validate(&self) -> (r: Result<(), Error>) {
        if self.judges.len() == 0 {
            return Err(Error::ErrNoJudges);
        }
        if self.projects.len() == 0 {
            return Err(Error::ErrNoProjects);
        }

        let jn = self.judges.len();
        proof {
            assert(self.judges@.skip(0) =~= self.judges@);
        }
        let mut i: usize = 0;
        while i < jn
            invariant
                i <= jn,
                check_judges(self.judges@) == check_judges(self.judges@.skip(i as int)),
            decreases jn - i,
        {
            proof {
                assert(self.judges@.skip(i as int)[0] == self.judges@[i as int]);
                assert(self.judges@.skip(i as int).skip(1) =~= self.judges@.skip(i as int + 1));
            }
            if let Err(e) = self.judges[i].validate() {
                return Err(e);
            }
            i += 1;
        }
        proof {
            assert(self.judges@.skip(jn as int).len() == 0);
        }

        let mut i: usize = 1;
        while i < jn
            invariant
                1 <= i <= jn,
                judge_ids_unique(self.judges@.take(i as int)),
            decreases jn - i,
        {
            let mut j: usize = 0;
            while j < i
                invariant
                    j <= i,
                    forall|y: int| 0 <= y < j ==> self.judges@[y].id@ != self.judges@[i as int].id@,
                decreases i - j,
            {
                if str_eq(self.judges[j].id.as_str(), self.judges[i].id.as_str()) {
                    return Err(Error::ErrDuplicateJudgeIds);
                }
                j += 1;
            }
            proof {
                let s = self.judges@;
                assert forall|x: int, y: int| 0 <= x < y < i + 1 implies #[trigger] s.take(
                    i as int + 1,
                )[x].id@ != #[trigger] s.take(i as int + 1)[y].id@ by {
                    assert(s.take(i as int + 1)[x] == s[x]);
                    assert(s.take(i as int + 1)[y] == s[y]);
                    if y < i {
                        assert(s.take(i as int)[x] == s[x]);
                        assert(s.take(i as int)[y] == s[y]);
                    }
                }
            }
            i += 1;
        }
        proof {
            assert(self.judges@.take(jn as int) =~= self.judges@);
            if jn == 1 {
                assert(judge_ids_unique(self.judges@));
            }
        }

        let pn = self.projects.len();
        proof {
            assert(self.projects@.skip(0) =~= self.projects@);
        }
        let mut i: usize = 0;
        while i < pn
            invariant
                i <= pn,
                check_projects(self.projects@) == check_projects(self.projects@.skip(i as int)),
            decreases pn - i,
        {
            proof {
                assert(self.projects@.skip(i as int)[0] == self.projects@[i as int]);
                assert(self.projects@.skip(i as int).skip(1) =~= self.projects@.skip(i as int + 1));
            }
            if let Err(e) = self.projects[i].validate() {
                return Err(e);
            }
            i += 1;
        }
        proof {
            assert(self.projects@.skip(pn as int).len() == 0);
        }

        let mut i: usize = 1;
        while i < pn
            invariant
                1 <= i <= pn,
                project_ids_unique(self.projects@.take(i as int)),
            decreases pn - i,
        {
            let mut j: usize = 0;
            while j < i
                invariant
                    j <= i,
                    forall|y: int| 0 <= y < j ==> self.projects@[y].id@ != self.projects@[i as int].id@,
                decreases i - j,
            {
                if str_eq(self.projects[j].id.as_str(), self.projects[i].id.as_str()) {
                    return Err(Error::ErrDuplicateProjectIds);
                }
                j += 1;
            }
            proof {
                let s = self.projects@;
                assert forall|x: int, y: int| 0 <= x < y < i + 1 implies #[trigger] s.take(
                    i as int + 1,
                )[x].id@ != #[trigger] s.take(i as int + 1)[y].id@ by {
                    assert(s.take(i as int + 1)[x] == s[x]);
                    assert(s.take(i as int + 1)[y] == s[y]);
                    if y < i {
                        assert(s.take(i as int)[x] == s[x]);
                        assert(s.take(i as int)[y] == s[y]);
                    }
                }
            }
            i += 1;
        }
        proof {
            assert(self.projects@.take(pn as int) =~= self.projects@);
            if pn == 1 {
                assert(project_ids_unique(self.projects@));
            }
        }

        Ok(())
    }
}

} // verus!
