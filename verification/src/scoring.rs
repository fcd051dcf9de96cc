use vstd::prelude::*;

use crate::error::Error;
use crate::format::Format;
use crate::mode::Mode;
use crate::order::Order;
use crate::project::Project;
use crate::text::{lemma_lex_le_total, lemma_lex_le_trans, lex_le, str_eq, str_lex_le};

verus! {

/// Configuration for automatically scoring projects based on judge
/// decisions.
#[derive(PartialEq, Eq, Structural, Clone, Copy, Debug)]
pub struct ScorerConfig {
    /// Format the scores will be outputted in.
    /// Defaults to Json.
    pub format: Format,
    /// Order the scores will be sorted in.
    /// Defaults to ScoreDesc.
    pub order: Order,
    /// Mode the scorer will operate in.
    /// Defaults to Average.
    pub mode: Mode,
}

impl ScorerConfig {
    /// Create a new ScorerConfig.
    pub fn new(format: Format, order: Order, mode: Mode) -> (r: ScorerConfig)
        ensures
            r == (ScorerConfig { format, order, mode }),
    {
        ScorerConfig { format, order, mode }
    }
}

impl Default for ScorerConfig {
    /// Create a default ScorerConfig with Json format, ScoreDesc order, and
    /// Average mode.
    fn default() -> (r: ScorerConfig)
        ensures
            r == (ScorerConfig { format: Format::Json, order: Order::ScoreDesc, mode: Mode::Average }),
    {
        ScorerConfig::new(Format::Json, Order::ScoreDesc, Mode::Average)
    }
}

/// Magnitude bound on accumulated weight sums: a sum of at most u32::MAX
/// weights, each an i64, stays within this bound.
pub open spec fn score_num_bound() -> int {
    0xFFFF_FFFFint * 0x8000_0000_0000_0000int
}

/// An exact score: the ratio of accumulated weight to contribution count,
/// kept as a numerator and a positive denominator.
#[derive(PartialEq, Eq, Structural, Clone, Copy, Debug)]
pub struct ScoreValue {
    /// Accumulated weight.
    pub num: i128,
    /// Number of contributions averaged over (1 for a total).
    pub den: u32,
}

/// Numeric comparison of two exact scores by cross-multiplication.
pub open spec fn score_value_le(a: ScoreValue, b: ScoreValue) -> bool {
    a.num * b.den <= b.num * a.den
}

impl ScoreValue {
    /// The denominator is positive and the numerator bounded, so that
    /// cross products fit in machine arithmetic.
    pub open spec fn wf(self) -> bool {
        1 <= self.den && -score_num_bound() <= self.num <= score_num_bound()
    }

    /// Decide the numeric order of two scores.
    pub fn le(&self, other: &ScoreValue) -> (r: bool)
        requires
            self.wf(),
            other.wf(),
        ensures
            r == score_value_le(*self, *other),
    {
        proof {
            lemma_cross_products_bounded(*self, *other);
        }
        self.num * (other.den as i128) <= other.num * (self.den as i128)
    }
}

/// Cross products of well-formed scores stay within i128 range.
proof fn lemma_cross_products_bounded(a: ScoreValue, b: ScoreValue)
    ensures
        a.wf() && b.wf() ==> -(i128::MAX as int) <= a.num * b.den <= i128::MAX as int,
        a.wf() && b.wf() ==> -(i128::MAX as int) <= b.num * a.den <= i128::MAX as int,
{
    if a.wf() && b.wf() {
        assert(-(i128::MAX as int) <= a.num * b.den <= i128::MAX as int
            && -(i128::MAX as int) <= b.num * a.den <= i128::MAX as int) by (nonlinear_arith)
            requires
                -score_num_bound() <= a.num <= score_num_bound(),
                -score_num_bound() <= b.num <= score_num_bound(),
                1 <= a.den <= 0xFFFF_FFFF,
                1 <= b.den <= 0xFFFF_FFFF,
        ;
    }
}

/// Numeric score order is transitive.
pub proof fn lemma_score_value_le_trans(a: ScoreValue, b: ScoreValue, c: ScoreValue)
    requires
        a.wf(),
        b.wf(),
        c.wf(),
        score_value_le(a, b),
        score_value_le(b, c),
    ensures
        score_value_le(a, c),
{
    assert(a.num * c.den <= c.num * a.den) by (nonlinear_arith)
        requires
            a.num * b.den <= b.num * a.den,
            b.num * c.den <= c.num * b.den,
            1 <= a.den,
            1 <= b.den,
            1 <= c.den,
    ;
}

/// Score result for a project.
/// Contains the project name and score.
/// Used once a scoring operation has been completed.
#[derive(Clone, Debug)]
pub struct Score {
    pub project_name: String,
    pub score: ScoreValue,
}

impl Score {
    pub open spec fn wf(self) -> bool {
        self.score.wf()
    }
}

/// All scores for a set of projects.
/// Contains a vector of Score structs.
#[derive(Clone, Debug)]
pub struct Scores {
    pub scores: Vec<Score>,
}

impl Scores {
    /// Create a new Scores struct.
    pub fn new(scores: Vec<Score>) -> (r: Scores)
        ensures
            r == (Scores { scores }),
    {
        Scores { scores }
    }
}

impl Default for Scores {
    /// Create a default Scores struct with an empty scores vector.
    fn default() -> (r: Scores)
        ensures
            r.scores@.len() == 0,
    {
        Scores { scores: Vec::new() }
    }
}

/// The order between two scores under a sorting policy: numeric on the
/// score for ScoreAsc/ScoreDesc, lexicographic on the project name for
/// ProjectNameAsc/ProjectNameDesc.
pub open spec fn score_le(o: Order, a: Score, b: Score) -> bool {
    match o {
        Order::ScoreAsc => score_value_le(a.score, b.score),
        Order::ScoreDesc => score_value_le(b.score, a.score),
        Order::ProjectNameAsc => lex_le(a.project_name@, b.project_name@),
        Order::ProjectNameDesc => lex_le(b.project_name@, a.project_name@),
    }
}

/// A sequence of scores is sorted under the policy `o`.
pub open spec fn sorted_by(o: Order, s: Seq<Score>) -> bool {
    forall|i: int, j: int| 0 <= i < j < s.len() ==> score_le(o, #[trigger] s[i], #[trigger] s[j])
}

/// The score order of any policy is total.
pub proof fn lemma_score_le_total(o: Order, a: Score, b: Score)
    ensures
        score_le(o, a, b) || score_le(o, b, a),
{
    match o {
        Order::ScoreAsc => {},
        Order::ScoreDesc => {},
        Order::ProjectNameAsc => {
            lemma_lex_le_total(a.project_name@, b.project_name@);
        },
        Order::ProjectNameDesc => {
            lemma_lex_le_total(a.project_name@, b.project_name@);
        },
    }
}

/// The score order of any policy is transitive on well-formed scores.
pub proof fn lemma_score_le_trans(o: Order, a: Score, b: Score, c: Score)
    requires
        a.wf(),
        b.wf(),
        c.wf(),
        score_le(o, a, b),
        score_le(o, b, c),
    ensures
        score_le(o, a, c),
{
    match o {
        Order::ScoreAsc => {
            lemma_score_value_le_trans(a.score, b.score, c.score);
        },
        Order::ScoreDesc => {
            lemma_score_value_le_trans(c.score, b.score, a.score);
        },
        Order::ProjectNameAsc => {
            lemma_lex_le_trans(a.project_name@, b.project_name@, c.project_name@);
        },
        Order::ProjectNameDesc => {
            lemma_lex_le_trans(c.project_name@, b.project_name@, a.project_name@);
        },
    }
}

/// Decide the order of two scores under a sorting policy.
fn score_le_exec(o: Order, a: &Score, b: &Score) -> (r: bool)
    requires
        a.wf(),
        b.wf(),
    ensures
        r == score_le(o, *a, *b),
{
    match o {
        Order::ScoreAsc => a.score.le(&b.score),
        Order::ScoreDesc => b.score.le(&a.score),
        Order::ProjectNameAsc => str_lex_le(a.project_name.as_str(), b.project_name.as_str()),
        Order::ProjectNameDesc => str_lex_le(b.project_name.as_str(), a.project_name.as_str()),
    }
}

/// Sort scores in place under the policy `o`: the result is an ordered
/// rearrangement of the input.
#[verifier::loop_isolation(false)]
#[verifier::rlimit(60)]
fn sort_scores(o: Order, v: &mut Vec<Score>)
    requires
        forall|i: int| 0 <= i < old(v)@.len() ==> (#[trigger] old(v)@[i]).wf(),
    ensures
        final(v)@.to_multiset() == old(v)@.to_multiset(),
        final(v)@.len() == old(v)@.len(),
        sorted_by(o, final(v)@),
        forall|i: int| 0 <= i < final(v)@.len() ==> (#[trigger] final(v)@[i]).wf(),
{
    proof {
        broadcast use vstd::seq_lib::to_multiset_remove;
        broadcast use vstd::seq_lib::to_multiset_insert;
        broadcast use vstd::seq_lib::to_multiset_contains;
        broadcast use vstd::multiset::group_multiset_axioms;

    }
    let n = v.len();
    if n == 0 {
        return ;
    }
    let mut i: usize = 1;
    while i < n
        invariant
            1 <= i <= n,
            v@.len() == n,
            v@.to_multiset() == old(v)@.to_multiset(),
            sorted_by(o, v@.take(i as int)),
            forall|q: int| 0 <= q < n ==> (#[trigger] v@[q]).wf(),
        decreases n - i,
    {
        // Find the first position in the sorted prefix whose element must
        // come after v[i]; the element is inserted just before it.
        let mut j: usize = i;
        let mut t: usize = i;
        while t > 0
            invariant
                0 <= t <= j <= i,
                j == i || !score_le(o, v@[j as int], v@[i as int]),
                forall|y: int| t <= y < i && y < j ==> score_le(o, #[trigger] v@[y], v@[i as int]),
            decreases t,
        {
            t -= 1;
            if !score_le_exec(o, &v[t], &v[i]) {
                j = t;
            }
        }

        let ghost prev = v@;
        let x = v.remove(i);
        let ghost mid = v@;
        v.insert(j, x);
        proof {
            assert(mid == prev.remove(i as int));
            assert(v@ == mid.insert(j as int, x));
            assert(prev.to_multiset().count(x) > 0) by {
                assert(prev[i as int] == x);
                assert(prev.contains(x));
            }
            assert(v@.to_multiset() =~= prev.to_multiset());

            // The extended prefix is sorted.
            if j < i {
                lemma_score_le_total(o, prev[j as int], x);
            }
            assert forall|y: int, z: int| 0 <= y < z < i implies score_le(
                o,
                #[trigger] prev[y],
                #[trigger] prev[z],
            ) by {
                assert(prev.take(i as int)[y] == prev[y]);
                assert(prev.take(i as int)[z] == prev[z]);
            }
            assert forall|a: int, b: int|
                0 <= a < b < i + 1 implies score_le(o, #[trigger] v@[a], #[trigger] v@[b]) by {
                let pa = if a < j {
                    prev[a]
                } else if a == j {
                    x
                } else {
                    prev[a - 1]
                };
                let pb = if b < j {
                    prev[b]
                } else if b == j {
                    x
                } else {
                    prev[b - 1]
                };
                assert(v@[a] == pa);
                assert(v@[b] == pb);
                if a == j {
                    // x against a later element of the old prefix
                    if b > j {
                        assert(score_le(o, x, prev[j as int]));
                        if j < b - 1 {
                            assert(score_le(o, prev[j as int], prev[b - 1]));
                            lemma_score_le_trans(o, x, prev[j as int], prev[b - 1]);
                        }
                    }
                } else if b == j {
                    assert(score_le(o, prev[a], x));
                } else if a < j && b > j {
                    assert(score_le(o, prev[a], prev[b - 1]));
                }
            }
            assert(sorted_by(o, v@.take(i as int + 1)));
        }
        i += 1;
    }
    proof {
        assert(v@.take(n as int) =~= v@);
    }
}

/// A table entry is well formed: at least one contribution, and a weight
/// sum bounded by the count times the largest weight magnitude.
pub open spec fn entry_wf(e: (String, i128, u32)) -> bool {
    1 <= e.2 && -(e.2 * 0x8000_0000_0000_0000int) <= e.1 <= e.2 * 0x8000_0000_0000_0000int
}

/// The mapping denoted by a sequence of table entries.
pub open spec fn entries_map(s: Seq<(String, i128, u32)>) -> Map<Seq<char>, (int, int)>
    decreases s.len(),
{
    if s.len() == 0 {
        Map::empty()
    } else {
        entries_map(s.drop_last()).insert(s.last().0@, (s.last().1 as int, s.last().2 as int))
    }
}

/// Keys of a sequence of table entries are pairwise distinct.
pub open spec fn entry_keys_unique(s: Seq<(String, i128, u32)>) -> bool {
    forall|i: int, j: int| #![trigger s[i], s[j]] 0 <= i < j < s.len() ==> s[i].0@ != s[j].0@
}

/// With pairwise-distinct keys, the denoted mapping holds exactly the
/// entries of the sequence.
proof fn lemma_entries_map(s: Seq<(String, i128, u32)>)
    requires
        entry_keys_unique(s),
    ensures
        forall|n: Seq<char>|
            #[trigger] entries_map(s).contains_key(n) <==> exists|i: int|
                0 <= i < s.len() && (#[trigger] s[i]).0@ == n,
        forall|i: int|
            0 <= i < s.len() ==> entries_map(s)[(#[trigger] s[i]).0@] == (
            s[i].1 as int,
            s[i].2 as int,
        ),
        entries_map(s).dom().finite(),
        entries_map(s).dom().len() == s.len(),
    decreases s.len(),
{
    if s.len() > 0 {
        let bl = s.drop_last();
        lemma_entries_map(bl);
        assert forall|n: Seq<char>| #[trigger]
            entries_map(s).contains_key(n) implies exists|i: int|
            0 <= i < s.len() && (#[trigger] s[i]).0@ == n by {
            if n == s.last().0@ {
                assert(s[s.len() - 1].0@ == n);
            } else {
                let i = choose|i: int| 0 <= i < bl.len() && (#[trigger] bl[i]).0@ == n;
                assert(s[i].0@ == n);
            }
        }
        assert forall|n: Seq<char>| (exists|i: int|
            0 <= i < s.len() && (#[trigger] s[i]).0@ == n) implies #[trigger] entries_map(
            s,
        ).contains_key(n) by {
            let i = choose|i: int| 0 <= i < s.len() && (#[trigger] s[i]).0@ == n;
            if i < s.len() - 1 {
                assert(bl[i].0@ == n);
            }
        }
        assert forall|i: int|
            0 <= i < s.len() implies entries_map(s)[(#[trigger] s[i]).0@] == (
        s[i].1 as int,
        s[i].2 as int,
        ) by {
            if i < s.len() - 1 {
                assert(bl[i] == s[i]);
                assert(s[i].0@ != s.last().0@);
            }
        }
        assert(!entries_map(bl).dom().contains(s.last().0@)) by {
            if entries_map(bl).contains_key(s.last().0@) {
                let i = choose|i: int|
                    0 <= i < bl.len() && (#[trigger] bl[i]).0@ == s.last().0@;
                assert(s[i].0@ == s[s.len() - 1].0@);
            }
        }
        assert(entries_map(s).dom() =~= entries_map(bl).dom().insert(s.last().0@));
    } else {
        assert(entries_map(s).dom() =~= Set::<Seq<char>>::empty());
    }
}

/// Replacing the entry that holds a key denotes an insert of that key.
proof fn lemma_entries_map_update(s: Seq<(String, i128, u32)>, i: int, e: (String, i128, u32))
    requires
        entry_keys_unique(s),
        0 <= i < s.len(),
        e.0@ == s[i].0@,
    ensures
        entries_map(s.update(i, e)) == entries_map(s).insert(e.0@, (e.1 as int, e.2 as int)),
    decreases s.len(),
{
    let su = s.update(i, e);
    let bl = s.drop_last();
    if i == s.len() - 1 {
        assert(su.drop_last() =~= bl);
        assert(su.last() == e);
        assert(entries_map(bl).insert(s.last().0@, (s.last().1 as int, s.last().2 as int)).insert(
            e.0@,
            (e.1 as int, e.2 as int),
        ) =~= entries_map(bl).insert(e.0@, (e.1 as int, e.2 as int)));
    } else {
        assert(su.drop_last() =~= bl.update(i, e));
        assert(su.last() == s.last());
        lemma_entries_map_update(bl, i, e);
        assert(s[i].0@ != s.last().0@);
        assert(entries_map(bl).insert(e.0@, (e.1 as int, e.2 as int)).insert(
            s.last().0@,
            (s.last().1 as int, s.last().2 as int),
        ) =~= entries_map(bl).insert(
            s.last().0@,
            (s.last().1 as int, s.last().2 as int),
        ).insert(e.0@, (e.1 as int, e.2 as int)));
    }
}

/// Accumulating a weight into the mapping: initialize the entry on first
/// touch, then add the weight to the sum and count one more contribution.
pub open spec fn spec_add(m: Map<Seq<char>, (int, int)>, name: Seq<char>, w: int) -> Map<
    Seq<char>,
    (int, int),
> {
    if m.contains_key(name) {
        m.insert(name, (m[name].0 + w, m[name].1 + 1))
    } else {
        m.insert(name, (w, 1))
    }
}

/// Score table, stores the sum of contributed weights and the count of
/// contributions for each project key.
/// Stores the count to compute the average score exactly.
pub struct ScoreTable {
    /// One entry per project key: (key, weight sum, contribution count).
    scores: Vec<(String, i128, u32)>,
}

impl ScoreTable {
    /// The mapping from project key to weight sum and contribution count
    /// that the table denotes.
    pub closed spec fn map_view(self) -> Map<Seq<char>, (int, int)> {
        entries_map(self.scores@)
    }

    /// Keys are stored once each and every entry is well formed.
    pub closed spec fn wf(self) -> bool {
        entry_keys_unique(self.scores@) && forall|i: int|
            0 <= i < self.scores@.len() ==> entry_wf(#[trigger] self.scores@[i])
    }

    /// Create a new, empty score table.
    pub fn new() -> (r: ScoreTable)
        ensures
            r.wf(),
            r.map_view() == Map::<Seq<char>, (int, int)>::empty(),
    {
        ScoreTable { scores: Vec::new() }
    }

    /// Position of the entry holding the key, if there is one.
    #[verifier::loop_isolation(false)]
    fn position(&self, project_name: &str) -> (r: Option<usize>)
        requires
            self.wf(),
        ensures
            match r {
                Some(i) => i < self.scores@.len() && self.scores@[i as int].0@ == project_name@,
                None => !self.map_view().contains_key(project_name@),
            },
    {
        proof {
            lemma_entries_map(self.scores@);
        }
        let n = self.scores.len();
        let mut i: usize = 0;
        while i < n
            invariant
                i <= n,
                forall|q: int| 0 <= q < i ==> (#[trigger] self.scores@[q]).0@ != project_name@,
            decreases n - i,
        {
            if str_eq(self.scores[i].0.as_str(), project_name) {
                return Some(i);
            }
            i += 1;
        }
        None
    }

    /// The weight sum and contribution count recorded for a project key.
    pub fn get(&self, project_name: &str) -> (r: Option<(i128, u32)>)
        requires
            self.wf(),
        ensures
            match r {
                Some(e) => self.map_view().contains_key(project_name@)
                    && self.map_view()[project_name@] == (e.0 as int, e.1 as int),
                None => !self.map_view().contains_key(project_name@),
            },
    {
        proof {
            lemma_entries_map(self.scores@);
        }
        match self.position(project_name) {
            Some(i) => Some((self.scores[i].1, self.scores[i].2)),
            None => None,
        }
    }

    /// Record a single contribution for a project key, replacing whatever
    /// was recorded before.
    pub fn insert(&mut self, project_name: String, score: i64)
        requires
            old(self).wf(),
        ensures
            final(self).wf(),
            final(self).map_view() == old(self).map_view().insert(
                project_name@,
                (score as int, 1int),
            ),
    {
        proof {
            lemma_entries_map(self.scores@);
        }
        let e = (project_name, score as i128, 1u32);
        match self.position(e.0.as_str()) {
            Some(i) => {
                proof {
                    lemma_entries_map_update(self.scores@, i as int, e);
                }
                self.scores[i] = e;
            },
            None => {
                let ghost prev = self.scores@;
                self.scores.push(e);
                proof {
                    assert(self.scores@.drop_last() =~= prev);
                    assert(self.scores@.last() == e);
                    assert forall|a: int, b: int|
                        #![trigger self.scores@[a], self.scores@[b]]
                        0 <= a < b < self.scores@.len() implies self.scores@[a].0@
                        != self.scores@[b].0@ by {
                        if b == prev.len() {
                            assert(self.scores@[a] == prev[a]);
                            lemma_entries_map(prev);
                        }
                    }
                }
            },
        }
    }

    /// Add a score to a project.
    /// If the project key is not in the table yet, its entry starts at a
    /// sum of 0 and a count of 0 before the contribution is recorded.
    pub fn add(&mut self, project_name: String, score: i64)
        requires
            old(self).wf(),
            old(self).map_view().contains_key(project_name@) ==> old(self).map_view()[project_name@].1 < u32::MAX,
        ensures
            final(self).wf(),
            final(self).map_view() == spec_add(old(self).map_view(), project_name@, score as int),
    {
        proof {
            lemma_entries_map(self.scores@);
        }
        match self.position(project_name.as_str()) {
            Some(i) => {
                let sum = self.scores[i].1;
                let count = self.scores[i].2;
                let e = (project_name, sum + score as i128, count + 1);
                proof {
                    lemma_entries_map_update(self.scores@, i as int, e);
                }
                self.scores[i] = e;
            },
            None => {
                let e = (project_name, score as i128, 1u32);
                let ghost prev = self.scores@;
                self.scores.push(e);
                proof {
                    assert(self.scores@.drop_last() =~= prev);
                    assert(self.scores@.last() == e);
                    assert forall|a: int, b: int|
                        #![trigger self.scores@[a], self.scores@[b]]
                        0 <= a < b < self.scores@.len() implies self.scores@[a].0@
                        != self.scores@[b].0@ by {
                        if b == prev.len() {
                            assert(self.scores@[a] == prev[a]);
                            lemma_entries_map(prev);
                        }
                    }
                }
            },
        }
    }

    /// Get the total score for a project.
    pub fn get_total_score(&self, project_name: &str) -> (r: Option<i128>)
        requires
            self.wf(),
        ensures
            match r {
                Some(s) => self.map_view().contains_key(project_name@) && s as int
                    == self.map_view()[project_name@].0,
                None => !self.map_view().contains_key(project_name@),
            },
    {
        match self.get(project_name) {
            Some(e) => Some(e.0),
            None => None,
        }
    }

    /// Get the average score for a project: the exact ratio of the weight
    /// sum to the contribution count.
    pub fn get_average_score(&self, project_name: &str) -> (r: Option<ScoreValue>)
        requires
            self.wf(),
        ensures
            match r {
                Some(v) => self.map_view().contains_key(project_name@) && v == (ScoreValue {
                    num: self.map_view()[project_name@].0 as i128,
                    den: self.map_view()[project_name@].1 as u32,
                }),
                None => !self.map_view().contains_key(project_name@),
            },
    {
        match self.get(project_name) {
            Some(e) => Some(ScoreValue { num: e.0, den: e.1 }),
            None => None,
        }
    }

    /// Get the count of scores for a project.
    pub fn get_count(&self, project_name: &str) -> (r: Option<u32>)
        requires
            self.wf(),
        ensures
            match r {
                Some(c) => self.map_view().contains_key(project_name@) && c as int
                    == self.map_view()[project_name@].1,
                None => !self.map_view().contains_key(project_name@),
            },
    {
        match self.get(project_name) {
            Some(e) => Some(e.1),
            None => None,
        }
    }

    /// Get the number of projects in the score table.
    pub fn len(&self) -> (r: usize)
        requires
            self.wf(),
        ensures
            r == self.map_view().dom().len(),
    {
        proof {
            lemma_entries_map(self.scores@);
        }
        self.scores.len()
    }

    /// Check if the score table is empty.
    pub fn is_empty(&self) -> (r: bool)
        requires
            self.wf(),
        ensures
            r == (self.map_view().dom().len() == 0),
    {
        proof {
            lemma_entries_map(self.scores@);
        }
        self.scores.len() == 0
    }
}

impl Default for ScoreTable {
    fn default() -> (r: ScoreTable)
        ensures
            r.wf(),
            r.map_view() == Map::<Seq<char>, (int, int)>::empty(),
    {
        ScoreTable::new()
    }
}

/// The score a table entry yields: the exact average of the contributions
/// in Average mode, their total in Total mode.
pub open spec fn score_of(e: (int, int), mode: Mode) -> ScoreValue {
    ScoreValue {
        num: e.0 as i128,
        den: if mode == Mode::Average {
            e.1 as u32
        } else {
            1u32
        },
    }
}

/// The scores emitted for a project list in order: one score per project
/// the mapping has an entry for; projects without contributions are
/// omitted.
pub open spec fn to_scores_spec(m: Map<Seq<char>, (int, int)>, ps: Seq<Project>, mode: Mode) -> Seq<
    Score,
>
    decreases ps.len(),
{
    if ps.len() == 0 {
        Seq::empty()
    } else {
        let init = to_scores_spec(m, ps.drop_last(), mode);
        if m.contains_key(ps.last().name@) {
            init.push(
                Score { project_name: ps.last().name, score: score_of(m[ps.last().name@], mode) },
            )
        } else {
            init
        }
    }
}

impl ScoreTable {
    /// Convert the score table to a Scores struct.
    /// Takes a vector of projects and a ScorerConfig.
    /// Emits one score per project with at least one contribution, in
    /// project order; the rest are omitted.
    #[verifier::loop_isolation(false)]
    pub fn to_scores(&self, projects: Vec<Project>, config: ScorerConfig) -> (r: Scores)
        requires
            self.wf(),
        ensures
            r.scores@ == to_scores_spec(self.map_view(), projects@, config.mode),
            forall|i: int| 0 <= i < r.scores@.len() ==> (#[trigger] r.scores@[i]).wf(),
    {
        let mut scores_vec: Vec<Score> = Vec::new();

        let n = projects.len();
        let mut i: usize = 0;
        while i < n
            invariant
                i <= n,
                scores_vec@ == to_scores_spec(self.map_view(), projects@.take(i as int), config.mode),
                forall|q: int| 0 <= q < scores_vec@.len() ==> (#[trigger] scores_vec@[q]).wf(),
            decreases n - i,
        {
            proof {
                assert(projects@.take(i as int + 1).drop_last() =~= projects@.take(i as int));
                assert(projects@.take(i as int + 1).last() == projects@[i as int]);
            }
            match self.get(projects[i].name.as_str()) {
                Some(e) => {
                    let den: u32 = if matches!(config.mode, Mode::Average) {
                        e.1
                    } else {
                        1
                    };
                    scores_vec.push(
                        Score {
                            project_name: projects[i].name.clone(),
                            score: ScoreValue { num: e.0, den },
                        },
                    );
                    proof {
                        let name = projects@[i as int].name@;
                        let s = self.scores@;
                        lemma_entries_map(s);
                        let j = choose|j: int| 0 <= j < s.len() && (#[trigger] s[j]).0@ == name;
                        assert(entry_wf(s[j]));
                        lemma_entry_score_wf(self.map_view()[name], config.mode);
                    }
                },
                None => {},
            }
            i += 1;
        }
        proof {
            assert(projects@.take(n as int) =~= projects@);
        }

        Scores::new(scores_vec)
    }
}

/// A score built from a bounded table entry is well formed.
proof fn lemma_entry_score_wf(e: (int, int), mode: Mode)
    requires
        1 <= e.1 <= u32::MAX,
        -(e.1 * 0x8000_0000_0000_0000int) <= e.0 <= e.1 * 0x8000_0000_0000_0000int,
    ensures
        score_of(e, mode).wf(),
{
    assert(e.1 * 0x8000_0000_0000_0000int <= 0xFFFF_FFFFint * 0x8000_0000_0000_0000int)
        by (nonlinear_arith)
        requires
            1 <= e.1 <= 0xFFFF_FFFFint,
    ;
}

/// The weight a rank position earns: the first matching entry of the
/// weight list, if there is one.
pub open spec fn weight_of(ws: Seq<(u32, i64)>, rank: u32) -> Option<i64>
    decreases ws.len(),
{
    if ws.len() == 0 {
        Option::None
    } else if ws[0].0 == rank {
        Option::Some(ws[0].1)
    } else {
        weight_of(ws.skip(1), rank)
    }
}

/// Look a rank position up in the weight list.
#[verifier::loop_isolation(false)]
fn lookup_weight(ws: &Vec<(u32, i64)>, rank: u32) -> (r: Option<i64>)
    ensures
        r == weight_of(ws@, rank),
{
    proof {
        assert(ws@.skip(0) =~= ws@);
    }
    let n = ws.len();
    let mut i: usize = 0;
    while i < n
        invariant
            i <= n,
            weight_of(ws@, rank) == weight_of(ws@.skip(i as int), rank),
        decreases n - i,
    {
        proof {
            assert(ws@.skip(i as int)[0] == ws@[i as int]);
            assert(ws@.skip(i as int).skip(1) =~= ws@.skip(i as int + 1));
        }
        if ws[i].0 == rank {
            return Some(ws[i].1);
        }
        i += 1;
    }
    proof {
        assert(ws@.skip(n as int).len() == 0);
    }
    None
}

/// One judge's full ranking of the projects they saw.
pub struct StackRankDecision {
    /// Id of the judge who made the stack rank decision.
    pub judge_id: String,
    /// Ranks of the projects decided by the judge.
    /// Tuple containing (project key, rank position).
    pub ranks: Vec<(String, u32)>,
}

/// Total number of rank entries across all decisions.
pub open spec fn total_rank_entries(ds: Seq<StackRankDecision>) -> int
    decreases ds.len(),
{
    if ds.len() == 0 {
        0
    } else {
        ds[0].ranks@.len() + total_rank_entries(ds.skip(1))
    }
}

/// The total number of rank entries is never negative.
pub proof fn lemma_total_rank_entries_nonneg(ds: Seq<StackRankDecision>)
    ensures
        total_rank_entries(ds) >= 0,
    decreases ds.len(),
{
    if ds.len() > 0 {
        lemma_total_rank_entries_nonneg(ds.skip(1));
    }
}

/// The mapping reached after folding one decision's rank entries, in
/// order, into `m`; entries whose rank has no weight contribute nothing.
pub open spec fn table_after_ranks(
    m: Map<Seq<char>, (int, int)>,
    ranks: Seq<(String, u32)>,
    ws: Seq<(u32, i64)>,
) -> Map<Seq<char>, (int, int)>
    decreases ranks.len(),
{
    if ranks.len() == 0 {
        m
    } else {
        let m1 = match weight_of(ws, ranks[0].1) {
            Option::Some(w) => spec_add(m, ranks[0].0@, w as int),
            Option::None => m,
        };
        table_after_ranks(m1, ranks.skip(1), ws)
    }
}

/// The mapping reached after folding every decision, in order, into `m`.
pub open spec fn table_after(
    m: Map<Seq<char>, (int, int)>,
    ds: Seq<StackRankDecision>,
    ws: Seq<(u32, i64)>,
) -> Map<Seq<char>, (int, int)>
    decreases ds.len(),
{
    if ds.len() == 0 {
        m
    } else {
        table_after(table_after_ranks(m, ds[0].ranks@, ws), ds.skip(1), ws)
    }
}

/// Scorer trait, must be implemented by all scorers.
pub trait Scorer {
    /// What the scorer asks of its input before it can run.
    spec fn score_requires(&self) -> bool;

    /// Whether scoring succeeds on this scorer's input.
    spec fn score_ok(&self) -> bool;

    /// The error reported when scoring fails.
    spec fn score_err(&self) -> Error;

    /// What holds of every successful scoring result.
    spec fn scores_spec(&self, s: Scores) -> bool;

    /// Score, returns all projects and their scores.
    /// May return an error if scoring fails.
    fn score(&self) -> (r: Result<Scores, Error>)
        requires
            self.score_requires(),
        ensures
            r is Ok <==> self.score_ok(),
            match r {
                Ok(s) => self.scores_spec(s),
                Err(e) => e == self.score_err(),
            },
    ;
}

/// Stack rank scorer implementation.
/// Scores projects based on stack rank decisions from judges.
/// Points are assigned based on rank weights provided.
pub struct StackRankScorer {
    pub config: ScorerConfig,
    pub judge_stack_decisions: Vec<StackRankDecision>,
    pub projects: Vec<Project>,
    pub rank_weights: Vec<(u32, i64)>,
}

impl StackRankScorer {
    /// Create a new StackRankScorer.
    pub fn new(
        config: ScorerConfig,
        judge_stack_decisions: Vec<StackRankDecision>,
        projects: Vec<Project>,
        rank_weights: Vec<(u32, i64)>,
    ) -> (r: StackRankScorer)
        ensures
            r == (StackRankScorer { config, judge_stack_decisions, projects, rank_weights }),
    {
        StackRankScorer { config, judge_stack_decisions, projects, rank_weights }
    }
}

impl Scorer for StackRankScorer {
    /// The contribution counts fit the table's counters.
    open spec fn score_requires(&self) -> bool {
        total_rank_entries(self.judge_stack_decisions@) <= u32::MAX
    }

    open spec fn score_ok(&self) -> bool {
        self.rank_weights@.len() > 0 && self.projects@.len() > 0
    }

    open spec fn score_err(&self) -> Error {
        if self.rank_weights@.len() == 0 {
            Error::ErrNoRankWeights
        } else {
            Error::ErrNoProjects
        }
    }

    /// The result holds exactly the scores that accumulating every
    /// decision and emitting the supplied projects in order yields,
    /// rearranged into the configured sort order.
    open spec fn scores_spec(&self, s: Scores) -> bool {
        let base = to_scores_spec(
            table_after(
                Map::<Seq<char>, (int, int)>::empty(),
                self.judge_stack_decisions@,
                self.rank_weights@,
            ),
            self.projects@,
            self.config.mode,
        );
        &&& s.scores@.to_multiset() == base.to_multiset()
        &&& sorted_by(self.config.order, s.scores@)
    }

    /// Score a set of projects based on stack rank decisions from judges.
    /// Returns a Scores struct containing the scores for each project.
    /// Returns an error if no rank weights are provided or if no projects
    /// are provided.
    #[verifier::loop_isolation(false)]
    fn score(&self) -> (r: Result<Scores, Error>) {
        if self.rank_weights.len() == 0 {
            return Err(Error::ErrNoRankWeights);
        }
        if self.projects.len() == 0 {
            return Err(Error::ErrNoProjects);
        }

        let ghost target = table_after(
            Map::<Seq<char>, (int, int)>::empty(),
            self.judge_stack_decisions@,
            self.rank_weights@,
        );

        let mut results = ScoreTable::new();
        let ghost mut processed: int = 0;

        proof {
            assert(self.judge_stack_decisions@.skip(0) =~= self.judge_stack_decisions@);
        }
        let dn = self.judge_stack_decisions.len();
        let mut di: usize = 0;
        while di < dn
            invariant
                di <= dn,
                results.wf(),
                table_after(
                    results.map_view(),
                    self.judge_stack_decisions@.skip(di as int),
                    self.rank_weights@,
                ) == target,
                0 <= processed,
                processed + total_rank_entries(self.judge_stack_decisions@.skip(di as int))
                    <= u32::MAX,
                forall|n: Seq<char>|
                    #[trigger] results.map_view().contains_key(n) ==> results.map_view()[n].1
                        <= processed,
            decreases dn - di,
        {
            proof {
                assert(self.judge_stack_decisions@.skip(di as int)[0]
                    == self.judge_stack_decisions@[di as int]);
                assert(self.judge_stack_decisions@.skip(di as int).skip(1)
                    =~= self.judge_stack_decisions@.skip(di as int + 1));
                lemma_total_rank_entries_nonneg(
                    self.judge_stack_decisions@.skip(di as int + 1),
                );
            }
            let ranks = &self.judge_stack_decisions[di].ranks;
            let rn = ranks.len();
            proof {
                assert(ranks@.skip(0) =~= ranks@);
            }
            let mut rj: usize = 0;
            while rj < rn
                invariant
                    rj <= rn,
                    results.wf(),
                    table_after(
                        table_after_ranks(
                            results.map_view(),
                            ranks@.skip(rj as int),
                            self.rank_weights@,
                        ),
                        self.judge_stack_decisions@.skip(di as int + 1),
                        self.rank_weights@,
                    ) == target,
                    0 <= processed,
                    processed + (rn - rj) + total_rank_entries(
                        self.judge_stack_decisions@.skip(di as int + 1),
                    ) <= u32::MAX,
                    forall|n: Seq<char>|
                        #[trigger] results.map_view().contains_key(n) ==> results.map_view()[n].1
                            <= processed,
                decreases rn - rj,
            {
                proof {
                    assert(ranks@.skip(rj as int)[0] == ranks@[rj as int]);
                    assert(ranks@.skip(rj as int).skip(1) =~= ranks@.skip(rj as int + 1));
                    lemma_total_rank_entries_nonneg(
                        self.judge_stack_decisions@.skip(di as int + 1),
                    );
                }
                let ghost before = results.map_view();
                let rank: u32 = self.judge_stack_decisions[di].ranks[rj].1;
                match lookup_weight(&self.rank_weights, rank) {
                    Some(w) => {
                        let pname = self.judge_stack_decisions[di].ranks[rj].0.clone();
                        results.add(pname, w);
                        proof {
                            assert forall|n: Seq<char>| #[trigger]
                                results.map_view().contains_key(n) implies results.map_view()[n].1
                                <= processed + 1 by {
                                if n == ranks@[rj as int].0@ {
                                } else {
                                    assert(before.contains_key(n) && results.map_view()[n]
                                        == before[n]);
                                }
                            }
                        }
                    },
                    None => {},
                }
                proof {
                    processed = processed + 1;
                }
                rj += 1;
            }
            di += 1;
        }
        proof {
            assert(self.judge_stack_decisions@.skip(dn as int).len() == 0);
        }

        let scores = results.to_scores(crate::project::clone_projects(&self.projects), self.config);
        let mut sorted_scores = scores.scores;
        sort_scores(self.config.order, &mut sorted_scores);
        Ok(Scores::new(sorted_scores))
    }
}

} // verus!
