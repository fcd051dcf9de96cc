use vstd::arithmetic::div_mod::{
    lemma_div_is_ordered, lemma_fundamental_div_mod_converse, lemma_mod_division_less_than_divisor,
};
use vstd::arithmetic::mul::lemma_mul_inequality;
use vstd::prelude::*;

use rand::Rng;

use crate::config::Config;
use crate::error::Error;
use crate::judge::Judge;
use crate::project::{project_like, Project};
use crate::text::str_eq;

verus! {

/// Whether some project in `ps` denotes the same entry as `p`.
pub open spec fn project_in(ps: Seq<Project>, p: Project) -> bool {
    exists|i: int| 0 <= i < ps.len() && project_like(ps[i], p)
}

/// No two projects in the sequence denote the same entry.
pub open spec fn projects_distinct(ps: Seq<Project>) -> bool {
    forall|i: int, j: int|
        #![trigger ps[i], ps[j]]
        0 <= i < j < ps.len() ==> !project_like(ps[i], ps[j])
}

/// Number of allocations whose project list contains `p`.
pub open spec fn count_containing(allocs: Seq<Allocation>, p: Project) -> int
    decreases allocs.len(),
{
    if allocs.len() == 0 {
        0
    } else {
        count_containing(allocs.drop_last(), p) + if project_in(allocs.last().projects@, p) {
            1int
        } else {
            0int
        }
    }
}

/// Pushing a project onto a list extends what the list contains by exactly
/// that project.
pub proof fn lemma_project_in_push(ps: Seq<Project>, x: Project, p: Project)
    ensures
        project_in(ps.push(x), p) == (project_in(ps, p) || project_like(x, p)),
{
    if project_in(ps, p) {
        let i = choose|i: int| 0 <= i < ps.len() && project_like(ps[i], p);
        assert(ps.push(x)[i] == ps[i]);
        assert(project_in(ps.push(x), p));
    }
    if project_like(x, p) {
        assert(ps.push(x)[ps.len() as int] == x);
        assert(project_in(ps.push(x), p));
    }
    if project_in(ps.push(x), p) {
        let i = choose|i: int|
            0 <= i < ps.push(x).len() && project_like(ps.push(x)[i], p);
        if i < ps.len() {
            assert(ps.push(x)[i] == ps[i]);
            assert(project_in(ps, p));
        } else {
            assert(ps.push(x)[i] == x);
        }
    }
}

/// How the per-project containment count changes when one allocation is
/// replaced.
pub proof fn lemma_count_update(s: Seq<Allocation>, i: int, a: Allocation, p: Project)
    requires
        0 <= i < s.len(),
    ensures
        count_containing(s.update(i, a), p) == count_containing(s, p) - (if project_in(
            s[i].projects@,
            p,
        ) {
            1int
        } else {
            0int
        }) + (if project_in(a.projects@, p) {
            1int
        } else {
            0int
        }),
    decreases s.len(),
{
    let su = s.update(i, a);
    if i == s.len() - 1 {
        assert(su.drop_last() =~= s.drop_last());
        assert(su.last() == a);
    } else {
        assert(su.drop_last() =~= s.drop_last().update(i, a));
        assert(su.last() == s.last());
        lemma_count_update(s.drop_last(), i, a, p);
    }
}

/// A project contained in no allocation is counted zero times.
pub proof fn lemma_count_zero(s: Seq<Allocation>, p: Project)
    requires
        forall|i: int| 0 <= i < s.len() ==> !project_in((#[trigger] s[i]).projects@, p),
    ensures
        count_containing(s, p) == 0,
    decreases s.len(),
{
    if s.len() > 0 {
        assert(s.last() == s[s.len() - 1]);
        lemma_count_zero(s.drop_last(), p);
    }
}

/// Allocation for a single judge and their assigned projects.
#[derive(Debug)]
pub struct Allocation {
    /// Judge that has projects allocated to it.
    pub judge: Judge,
    /// Projects allocated to the judge, in assignment order.
    pub projects: Vec<Project>,
}

impl Allocation {
    pub fn new(judge: Judge, projects: Vec<Project>) -> (r: Allocation)
        ensures
            r == (Allocation { judge, projects }),
    {
        Allocation { judge, projects }
    }
}

/// Allocations for all judges and projects, one entry per judge, in input
/// order.
#[derive(Debug)]
pub struct Allocations {
    /// All allocations. Defaults to the empty vec.
    pub allocations: Vec<Allocation>,
}

impl Allocations {
    pub fn new(allocations: Vec<Allocation>) -> (r: Allocations)
        ensures
            r == (Allocations { allocations }),
    {
        Allocations { allocations }
    }
}

impl Default for Allocations {
    fn default() -> (r: Allocations)
        ensures
            r.allocations@.len() == 0,
    {
        Allocations { allocations: Vec::new() }
    }
}

/// The text lines naming a judge's assigned projects, one indented line
/// per project.
pub open spec fn describe_projects_spec(ps: Seq<Project>) -> Seq<char>
    decreases ps.len(),
{
    if ps.len() == 0 {
        Seq::empty()
    } else {
        describe_projects_spec(ps.drop_last()) + "  Project: "@ + ps.last().name@ + "\n"@
    }
}

/// The text rendering of the allocations: for each judge in order, a line
/// naming the judge and one indented line per assigned project.
pub open spec fn describe_allocs_spec(s: Seq<Allocation>) -> Seq<char>
    decreases s.len(),
{
    if s.len() == 0 {
        Seq::empty()
    } else {
        describe_allocs_spec(s.drop_last()) + "Judge: "@ + s.last().judge.name@ + "\n"@
            + describe_projects_spec(s.last().projects@)
    }
}

impl Allocations {
    /// Render the allocations as text, one judge per line with its
    /// assigned projects indented below it.
    #[verifier::loop_isolation(false)]
    pub fn describe(&self) -> (r: String)
        ensures
            r@ == describe_allocs_spec(self.allocations@),
    {
        let ghost allocs = self.allocations@;
        let mut out = String::new();
        let an = self.allocations.len();
        proof {
            assert(describe_allocs_spec(allocs.take(0)) =~= Seq::<char>::empty());
        }
        let mut i: usize = 0;
        while i < an
            invariant
                i <= an,
                out@ == describe_allocs_spec(allocs.take(i as int)),
            decreases an - i,
        {
            proof {
                assert(allocs.take(i as int + 1).drop_last() =~= allocs.take(i as int));
                assert(allocs.take(i as int + 1).last() == allocs[i as int]);
            }
            out.append("Judge: ");
            out.append(self.allocations[i].judge.name.as_str());
            out.append("\n");
            let ghost head = describe_allocs_spec(allocs.take(i as int)) + "Judge: "@
                + allocs[i as int].judge.name@ + "\n"@;
            proof {
                assert(out@ =~= head);
                assert(allocs[i as int].projects@.take(0).len() == 0);
                assert(describe_projects_spec(allocs[i as int].projects@.take(0))
                    =~= Seq::<char>::empty());
                assert(out@ =~= head + describe_projects_spec(
                    allocs[i as int].projects@.take(0),
                ));
            }
            let pn = self.allocations[i].projects.len();
            let mut j: usize = 0;
            while j < pn
                invariant
                    j <= pn,
                    out@ == head + describe_projects_spec(
                        allocs[i as int].projects@.take(j as int),
                    ),
                decreases pn - j,
            {
                proof {
                    let ps = allocs[i as int].projects@;
                    assert(ps.take(j as int + 1).drop_last() =~= ps.take(j as int));
                    assert(ps.take(j as int + 1).last() == ps[j as int]);
                }
                out.append("  Project: ");
                out.append(self.allocations[i].projects[j].name.as_str());
                out.append("\n");
                proof {
                    assert(out@ =~= head + describe_projects_spec(
                        allocs[i as int].projects@.take(j as int + 1),
                    ));
                }
                j += 1;
            }
            proof {
                assert(allocs[i as int].projects@.take(pn as int) =~= allocs[i as int].projects@);
                assert(out@ =~= describe_allocs_spec(allocs.take(i as int + 1)));
            }
            i += 1;
        }
        proof {
            assert(allocs.take(an as int) =~= allocs);
        }
        out
    }
}

/// Allocator trait, must be implemented by all allocators.
pub trait Allocator {
    /// Whether allocation succeeds on this allocator's input.
    spec fn allocate_ok(&self) -> bool;

    /// The error reported when allocation fails.
    spec fn allocate_err(&self) -> Error;

    /// What holds of every successful allocation result.
    spec fn allocates(&self, a: Allocations) -> bool;

    /// Allocate, returns a mapping of judges to projects.
    /// May return an error if allocation is not possible.
    fn allocate(&self) -> (r: Result<Allocations, Error>)
        ensures
            r is Ok <==> self.allocate_ok(),
            match r {
                Ok(a) => self.allocates(a),
                Err(e) => e == self.allocate_err(),
            },
    ;
}

/// Presentation style allocator.
/// Each judge will see every project, typically at the same time.
pub struct PresentationAllocator {
    /// Config for the allocator.
    /// Judge amount will be ignored for this allocator.
    pub config: Config,
    /// All judges that are used for allocations.
    pub judges: Vec<Judge>,
    /// All projects that will be assigned to judges.
    pub projects: Vec<Project>,
}

impl PresentationAllocator {
    pub fn new(config: Config, judges: Vec<Judge>, projects: Vec<Project>) -> (r:
        PresentationAllocator)
        ensures
            r == (PresentationAllocator { config, judges, projects }),
    {
        PresentationAllocator { config, judges, projects }
    }
}

impl Allocator for PresentationAllocator {
    /// Succeeds unconditionally, an empty judge or project list included.
    open spec fn allocate_ok(&self) -> bool {
        true
    }

    /// Never consulted: this allocator always succeeds.
    open spec fn allocate_err(&self) -> Error {
        Error::ErrNoJudges
    }

    /// Every judge receives the complete project list, unchanged and in
    /// input order.
    open spec fn allocates(&self, a: Allocations) -> bool {
        &&& a.allocations@.len() == self.judges@.len()
        &&& forall|i: int|
            0 <= i < a.allocations@.len() ==> (#[trigger] a.allocations@[i]).judge
                == self.judges@[i]
        &&& forall|i: int|
            0 <= i < a.allocations@.len() ==> (#[trigger] a.allocations@[i]).projects@
                == self.projects@
    }

    #[verifier::loop_isolation(false)]
    fn allocate(&self) -> (r: Result<Allocations, Error>) {
        let mut allocations: Vec<Allocation> = Vec::new();

        let jn = self.judges.len();
        let mut i: usize = 0;
        while i < jn
            invariant
                i <= jn,
                allocations@.len() == i,
                forall|q: int|
                    0 <= q < i ==> (#[trigger] allocations@[q]).judge == self.judges@[q],
                forall|q: int|
                    0 <= q < i ==> (#[trigger] allocations@[q]).projects@ == self.projects@,
            decreases jn - i,
        {
            let pn = self.projects.len();
            let mut prj: Vec<Project> = Vec::new();
            let mut j: usize = 0;
            while j < pn
                invariant
                    j <= pn,
                    prj@ == self.projects@.take(j as int),
                decreases pn - j,
            {
                prj.push(self.projects[j].duplicate());
                proof {
                    assert(self.projects@.take(j as int).push(self.projects@[j as int]) =~= self
                        .projects@.take(j as int + 1));
                }
                j += 1;
            }
            proof {
                assert(self.projects@.take(pn as int) =~= self.projects@);
            }
            allocations.push(Allocation::new(self.judges[i].duplicate(), prj));
            i += 1;
        }

        Ok(Allocations::new(allocations))
    }
}

/// A length clipped into u32 range for error reporting.
pub open spec fn clip_u32(n: int) -> u32 {
    if n > u32::MAX {
        u32::MAX
    } else {
        n as u32
    }
}

/// Clip a collection length into u32 range for error reporting.
fn len_as_u32(n: usize) -> (r: u32)
    ensures
        r == clip_u32(n as int),
{
    if n > u32::MAX as usize {
        u32::MAX
    } else {
        n as u32
    }
}

/// A fairness-constrained strategy succeeds exactly when both collections
/// are non-empty and the requested minimum coverage does not exceed the
/// number of judges.
pub open spec fn fairness_ok(judges: Seq<Judge>, projects: Seq<Project>, k: int) -> bool {
    judges.len() > 0 && projects.len() > 0 && k <= judges.len()
}

/// The error a fairness-constrained strategy reports: empty judges first,
/// then empty projects, then too few judges for the requested minimum.
pub open spec fn fairness_err(judges: Seq<Judge>, projects: Seq<Project>, k: u32) -> Error {
    if judges.len() == 0 {
        Error::ErrNoJudges
    } else if projects.len() == 0 {
        Error::ErrNoProjects
    } else {
        Error::NotEnoughJudges {
            judges: clip_u32(judges.len() as int),
            projects: clip_u32(projects.len() as int),
            judge_amount: k,
        }
    }
}

/// Number of projects each judge receives under SequenceFair:
/// the ceiling of P*k / J.
pub open spec fn projects_per_judge(p_count: int, k: int, j_count: int) -> int
    recommends
        j_count > 0,
{
    (p_count * k + j_count - 1) / j_count
}

/// Project index at which judge `i` begins under SequenceFair:
/// the floor of i*P / J, so that no two judges begin on the same project.
pub open spec fn start_offset(i: int, p_count: int, j_count: int) -> int
    recommends
        j_count > 0,
{
    i * p_count / j_count
}

/// A deterministic, staggered round robin allocator.
/// Every judge receives the same number of projects, each judge starting
/// at its own offset into the project list.
pub struct SequenceFairAllocator {
    /// General configuration for allocators.
    pub config: Config,
    /// All judges that are used for allocations.
    pub judges: Vec<Judge>,
    /// All projects that will be assigned to judges.
    pub projects: Vec<Project>,
}

impl SequenceFairAllocator {
    pub fn new(config: Config, judges: Vec<Judge>, projects: Vec<Project>) -> (r:
        SequenceFairAllocator)
        ensures
            r == (SequenceFairAllocator { config, judges, projects }),
    {
        SequenceFairAllocator { config, judges, projects }
    }
}

impl Allocator for SequenceFairAllocator {
    open spec fn allocate_ok(&self) -> bool {
        fairness_ok(self.judges@, self.projects@, self.config.judge_amount as int)
    }

    open spec fn allocate_err(&self) -> Error {
        fairness_err(self.judges@, self.projects@, self.config.judge_amount)
    }

    /// Judge `i` receives exactly ceil(P*k/J) projects, the ones at
    /// indices (floor(i*P/J) + j) mod P of the input list.
    open spec fn allocates(&self, a: Allocations) -> bool {
        let jl = self.judges@.len() as int;
        let pl = self.projects@.len() as int;
        let ppj = projects_per_judge(pl, self.config.judge_amount as int, jl);
        &&& a.allocations@.len() == jl
        &&& forall|i: int|
            0 <= i < jl ==> (#[trigger] a.allocations@[i]).judge == self.judges@[i]
        &&& forall|i: int|
            0 <= i < jl ==> (#[trigger] a.allocations@[i]).projects@.len() == ppj
        &&& forall|i: int, j: int|
            #![trigger a.allocations@[i].projects@[j]]
            0 <= i < jl && 0 <= j < ppj ==> a.allocations@[i].projects@[j] == self.projects@[(
            start_offset(i, pl, jl) + j) % pl]
    }

    #[verifier::loop_isolation(false)]
    fn allocate(&self) -> (r: Result<Allocations, Error>) {
        let jn = self.judges.len();
        let pn = self.projects.len();
        let k = self.config.judge_amount;

        if jn == 0 {
            return Err(Error::ErrNoJudges);
        }
        if pn == 0 {
            return Err(Error::ErrNoProjects);
        }
        if (k as usize) > jn {
            return Err(Error::NotEnoughJudges {
                judges: len_as_u32(jn),
                projects: len_as_u32(pn),
                judge_amount: k,
            });
        }

        proof {
            assert((pn as int) * (k as int) <= 0xFFFF_FFFF_FFFF_FFFFint * 0xFFFF_FFFFint)
                by (nonlinear_arith)
                requires
                    0 <= pn as int <= 0xFFFF_FFFF_FFFF_FFFFint,
                    0 <= k as int <= 0xFFFF_FFFFint,
            ;
            lemma_mul_inequality(k as int, jn as int, pn as int);
            lemma_div_is_ordered(
                (pn as int) * (k as int) + jn as int - 1,
                (pn as int) * (jn as int) + jn as int - 1,
                jn as int,
            );
            lemma_fundamental_div_mod_converse(
                (pn as int) * (jn as int) + jn as int - 1,
                jn as int,
                pn as int,
                jn as int - 1,
            );
        }
        let ppj_wide: u128 = ((pn as u128) * (k as u128) + (jn as u128) - 1) / (jn as u128);
        let ppj: usize = ppj_wide as usize;
        proof {
            assert(ppj as int == projects_per_judge(
                pn as int,
                k as int,
                jn as int,
            ));
            assert(ppj <= pn);
        }

        let mut allocations: Vec<Allocation> = Vec::new();
        let mut i: usize = 0;
        while i < jn
            invariant
                i <= jn,
                allocations@.len() == i,
                forall|q: int|
                    0 <= q < i ==> (#[trigger] allocations@[q]).judge == self.judges@[q],
                forall|q: int|
                    0 <= q < i ==> (#[trigger] allocations@[q]).projects@.len() == ppj,
                forall|q: int, x: int|
                    #![trigger allocations@[q].projects@[x]]
                    0 <= q < i && 0 <= x < ppj ==> allocations@[q].projects@[x] == self.projects@[(
                    start_offset(q, pn as int, jn as int) + x) % (pn as int)],
            decreases jn - i,
        {
            proof {
                lemma_mul_inequality(i as int, jn as int - 1, pn as int);
                assert((jn as int - 1) * (pn as int) <= (jn as int) * (pn as int) - 1)
                    by (nonlinear_arith)
                    requires
                        jn as int >= 1,
                        pn as int >= 1,
                ;
                lemma_div_is_ordered(
                    (i as int) * (pn as int),
                    (jn as int) * (pn as int) - 1,
                    jn as int,
                );
                assert((pn as int - 1) * (jn as int) + (jn as int - 1) == (jn as int) * (pn as int)
                    - 1) by (nonlinear_arith);
                lemma_fundamental_div_mod_converse(
                    (jn as int) * (pn as int) - 1,
                    jn as int,
                    pn as int - 1,
                    jn as int - 1,
                );
            }
            proof {
                assert((i as int) * (pn as int) <= 0xFFFF_FFFF_FFFF_FFFFint
                    * 0xFFFF_FFFF_FFFF_FFFFint) by (nonlinear_arith)
                    requires
                        0 <= i as int <= 0xFFFF_FFFF_FFFF_FFFFint,
                        0 <= pn as int <= 0xFFFF_FFFF_FFFF_FFFFint,
                ;
            }
            let sw: u128 = ((i as u128) * (pn as u128)) / (jn as u128);
            proof {
                assert(sw as int == start_offset(i as int, pn as int, jn as int));
                assert(sw < pn as u128);
            }
            let mut prj: Vec<Project> = Vec::new();
            let mut j: usize = 0;
            while j < ppj
                invariant
                    j <= ppj,
                    prj@.len() == j,
                    forall|x: int|
                        0 <= x < j ==> #[trigger] prj@[x] == self.projects@[(start_offset(
                            i as int,
                            pn as int,
                            jn as int,
                        ) + x) % (pn as int)],
                decreases ppj - j,
            {
                let idx_wide: u128 = (sw + (j as u128)) % (pn as u128);
                proof {
                    lemma_mod_division_less_than_divisor(sw as int + j as int, pn as int);
                }
                let idx: usize = idx_wide as usize;
                prj.push(self.projects[idx].duplicate());
                j += 1;
            }
            allocations.push(Allocation::new(self.judges[i].duplicate(), prj));
            i += 1;
        }

        Ok(Allocations::new(allocations))
    }
}

/// Relies on rand::rng and Rng::random_range: a uniformly random index
/// drawn from 0..n. The range is non-empty, so the call cannot panic, and
/// whatever is drawn lies below n.
#[verifier::external_body]
fn random_below(n: usize) -> (r: usize)
    requires
        n > 0,
    ensures
        r < n,
{
    rand::rng().random_range(0..n)
}

/// A random, science fair style, allocator.
/// It is not guaranteed that each judge will view every project.
/// Each project will be judged by distinct judges.
pub struct RandomFairAllocator {
    /// General configuration for allocators.
    pub config: Config,
    /// All judges that are used for allocations.
    pub judges: Vec<Judge>,
    /// All projects that will be assigned to judges.
    pub projects: Vec<Project>,
}

impl RandomFairAllocator {
    pub fn new(config: Config, judges: Vec<Judge>, projects: Vec<Project>) -> (r:
        RandomFairAllocator)
        ensures
            r == (RandomFairAllocator { config, judges, projects }),
    {
        RandomFairAllocator { config, judges, projects }
    }
}

impl Allocator for RandomFairAllocator {
    open spec fn allocate_ok(&self) -> bool {
        fairness_ok(self.judges@, self.projects@, self.config.judge_amount as int)
    }

    open spec fn allocate_err(&self) -> Error {
        fairness_err(self.judges@, self.projects@, self.config.judge_amount)
    }

    /// One allocation per judge, in input order; every assigned project
    /// comes from the input list; and when the input projects are pairwise
    /// distinct, each project is seen by exactly `judge_amount` judges and
    /// no judge sees a project twice.
    open spec fn allocates(&self, a: Allocations) -> bool {
        let jl = self.judges@.len() as int;
        let pl = self.projects@.len() as int;
        let k = self.config.judge_amount as int;
        &&& a.allocations@.len() == jl
        &&& forall|i: int|
            0 <= i < jl ==> (#[trigger] a.allocations@[i]).judge == self.judges@[i]
        &&& forall|i: int, x: int|
            #![trigger a.allocations@[i].projects@[x]]
            0 <= i < jl && 0 <= x < a.allocations@[i].projects@.len() ==> project_in(
                self.projects@,
                a.allocations@[i].projects@[x],
            )
        &&& projects_distinct(self.projects@) ==> forall|j: int|
            0 <= j < pl ==> count_containing(a.allocations@, #[trigger] self.projects@[j]) == k
        &&& projects_distinct(self.projects@) ==> forall|i: int|
            0 <= i < jl ==> projects_distinct((#[trigger] a.allocations@[i]).projects@)
    }

    #[verifier::loop_isolation(false)]
    fn allocate(&self) -> (r: Result<Allocations, Error>) {
        let jn = self.judges.len();
        let pn = self.projects.len();
        let k = self.config.judge_amount;

        if jn == 0 {
            return Err(Error::ErrNoJudges);
        }
        if pn == 0 {
            return Err(Error::ErrNoProjects);
        }
        if (k as usize) > jn {
            return Err(Error::NotEnoughJudges {
                judges: len_as_u32(jn),
                projects: len_as_u32(pn),
                judge_amount: k,
            });
        }

        let mut allocations: Vec<Allocation> = Vec::new();
        let mut i: usize = 0;
        while i < jn
            invariant
                i <= jn,
                allocations@.len() == i,
                forall|q: int|
                    0 <= q < i ==> (#[trigger] allocations@[q]).judge == self.judges@[q],
                forall|q: int|
                    0 <= q < i ==> (#[trigger] allocations@[q]).projects@.len() == 0,
            decreases jn - i,
        {
            allocations.push(Allocation::new(self.judges[i].duplicate(), Vec::new()));
            i += 1;
        }

        let mut pi: usize = 0;
        while pi < pn
            invariant
                pi <= pn,
                allocations@.len() == jn,
                forall|q: int|
                    0 <= q < jn ==> (#[trigger] allocations@[q]).judge == self.judges@[q],
                forall|q: int, x: int|
                    #![trigger allocations@[q].projects@[x]]
                    0 <= q < jn && 0 <= x < allocations@[q].projects@.len() ==> exists|w: int|
                        0 <= w < pi && project_like(
                            allocations@[q].projects@[x],
                            self.projects@[w],
                        ),
                projects_distinct(self.projects@) ==> forall|w: int|
                    0 <= w < pi ==> count_containing(allocations@, #[trigger] self.projects@[w])
                        == k,
                projects_distinct(self.projects@) ==> forall|q: int|
                    0 <= q < jn ==> projects_distinct((#[trigger] allocations@[q]).projects@),
            decreases pn - pi,
        {
            let p = self.projects[pi].duplicate();

            proof {
                if projects_distinct(self.projects@) {
                    assert forall|q: int|
                        0 <= q < jn implies !project_in(
                        (#[trigger] allocations@[q]).projects@,
                        p,
                    ) by {
                        if project_in(allocations@[q].projects@, p) {
                            let x = choose|x: int|
                                0 <= x < allocations@[q].projects@.len() && project_like(
                                    allocations@[q].projects@[x],
                                    p,
                                );
                            let w = choose|w: int|
                                0 <= w < pi && project_like(
                                    allocations@[q].projects@[x],
                                    self.projects@[w],
                                );
                            assert(project_like(self.projects@[w], self.projects@[pi as int]));
                        }
                    }
                    lemma_count_zero(allocations@, p);
                }
            }

            let mut remaining: Vec<usize> = Vec::new();
            let mut t: usize = 0;
            while t < jn
                invariant
                    t <= jn,
                    remaining@.len() == t,
                    forall|a: int| 0 <= a < t ==> #[trigger] remaining@[a] == a,
                decreases jn - t,
            {
                remaining.push(t);
                t += 1;
            }

            let mut assigned: u32 = 0;
            while assigned < k
                invariant
                    assigned <= k,
                    remaining@.len() == jn - assigned,
                    allocations@.len() == jn,
                    forall|q: int|
                        0 <= q < jn ==> (#[trigger] allocations@[q]).judge == self.judges@[q],
                    forall|a: int| 0 <= a < remaining@.len() ==> (#[trigger] remaining@[a]) < jn,
                    forall|a: int, b: int|
                        #![trigger remaining@[a], remaining@[b]]
                        0 <= a < b < remaining@.len() ==> remaining@[a] != remaining@[b],
                    forall|q: int, x: int|
                        #![trigger allocations@[q].projects@[x]]
                        0 <= q < jn && 0 <= x < allocations@[q].projects@.len() ==> exists|w: int|
                            0 <= w <= pi && project_like(
                                allocations@[q].projects@[x],
                                self.projects@[w],
                            ),
                    projects_distinct(self.projects@) ==> count_containing(allocations@, p)
                        == assigned,
                    projects_distinct(self.projects@) ==> forall|a: int|
                        0 <= a < remaining@.len() ==> !project_in(
                            allocations@[#[trigger] remaining@[a] as int].projects@,
                            p,
                        ),
                    projects_distinct(self.projects@) ==> forall|w: int|
                        0 <= w < pi ==> count_containing(allocations@, #[trigger] self.projects@[w])
                            == k,
                    projects_distinct(self.projects@) ==> forall|q: int|
                        0 <= q < jn ==> projects_distinct((#[trigger] allocations@[q]).projects@),
                decreases k - assigned,
            {
                let d = random_below(remaining.len());
                let ghost old_remaining = remaining@;
                let idx = remaining.swap_remove(d);
                let ghost old_allocs = allocations@;
                let ghost old_list = allocations@[idx as int].projects@;
                allocations[idx].projects.push(p.duplicate());
                proof {
                    let na = allocations@[idx as int];
                    assert(allocations@ == old_allocs.update(idx as int, na));
                    assert(na.projects@ == old_list.push(p));
                    assert(na.judge == old_allocs[idx as int].judge);
                    lemma_project_in_push(old_list, p, p);
                    lemma_count_update(old_allocs, idx as int, na, p);

                    // Each judge index left in `remaining` is distinct from
                    // `idx`, so its allocation is untouched.
                    assert forall|a: int| 0 <= a < remaining@.len() implies (
                    #[trigger] remaining@[a]) != idx && remaining@[a] < jn by {
                        if a < d {
                            assert(remaining@[a] == old_remaining[a]);
                        } else if a == d {
                            assert(remaining@[a] == old_remaining[old_remaining.len() - 1]);
                        } else {
                            assert(remaining@[a] == old_remaining[a]);
                        }
                    }

                    if projects_distinct(self.projects@) {
                        // Counts of earlier projects are unchanged by this push.
                        assert forall|w: int| 0 <= w < pi implies count_containing(
                            allocations@,
                            #[trigger] self.projects@[w],
                        ) == k by {
                            lemma_project_in_push(old_list, p, self.projects@[w]);
                            assert(!project_like(p, self.projects@[w]));
                            lemma_count_update(old_allocs, idx as int, na, self.projects@[w]);
                        }
                        // The chosen judge's list stays pairwise distinct.
                        assert forall|q: int| 0 <= q < jn implies projects_distinct(
                            (#[trigger] allocations@[q]).projects@,
                        ) by {
                            if q == idx {
                                assert forall|a: int, b: int|
                                    #![trigger na.projects@[a], na.projects@[b]]
                                    0 <= a < b < na.projects@.len() implies !project_like(
                                    na.projects@[a],
                                    na.projects@[b],
                                ) by {
                                    if b == old_list.len() {
                                        assert(na.projects@[a] == old_list[a]);
                                        assert(na.projects@[b] == p);
                                        assert(!project_in(old_list, p));
                                    } else {
                                        assert(na.projects@[a] == old_list[a]);
                                        assert(na.projects@[b] == old_list[b]);
                                    }
                                }
                            }
                        }
                    }
                }
                assigned += 1;
            }

            proof {
                if projects_distinct(self.projects@) {
                    assert(count_containing(allocations@, self.projects@[pi as int]) == k);
                }
            }
            pi += 1;
        }

        Ok(Allocations::new(allocations))
    }
}

/// The closed set of allocation strategies, selected by a string key.
#[derive(PartialEq, Eq, Structural, Clone, Copy, Debug)]
pub enum AllocatorKind {
    RandomFair,
    SequenceFair,
    Presentation,
}

/// The strategy named by a key: "random", "sequence" and "presentation"
/// select their strategy; an unrecognized key falls back to RandomFair.
pub open spec fn allocator_kind_from_str_spec(key: Seq<char>) -> AllocatorKind {
    if key == "sequence"@ {
        AllocatorKind::SequenceFair
    } else if key == "presentation"@ {
        AllocatorKind::Presentation
    } else {
        AllocatorKind::RandomFair
    }
}

impl AllocatorKind {
    /// Select an allocation strategy by its string key, falling back to
    /// RandomFair for an unrecognized key.
    pub fn from_str(key: &str) -> (r: AllocatorKind)
        ensures
            r == allocator_kind_from_str_spec(key@),
    {
        if str_eq(key, "sequence") {
            AllocatorKind::SequenceFair
        } else if str_eq(key, "presentation") {
            AllocatorKind::Presentation
        } else {
            AllocatorKind::RandomFair
        }
    }
}

} // verus!
