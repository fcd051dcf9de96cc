use vstd::prelude::*;
use vstd::string::{StrSliceExecFns, StringExecFns};

use crate::allocate::{Allocation, Allocations};
use crate::project::Project;
use crate::text::{dec_chars, letter_str, str_eq, u32_to_string, uchar};
use crate::time::Time;

verus! {

/// Configuration for spreadsheet generation.
#[derive(Clone, Debug)]
pub struct SpreadsheetConfig {
    /// Path to save the spreadsheet.
    pub output_path: String,
    /// Time allocated per project in minutes.
    pub judge_time: u32,
    /// Time that judging begins.
    pub start_time: Time,
    /// Rank weights mapping rank position to points.
    /// e.g., 1st place earning 10 points is the entry (1, 10).
    pub rank_weights: Vec<(u32, i64)>,
}

impl SpreadsheetConfig {
    pub fn new(output_path: String, judge_time: u32, start_time: Time, rank_weights: Vec<
        (u32, i64),
    >) -> (r: SpreadsheetConfig)
        ensures
            r == (SpreadsheetConfig { output_path, judge_time, start_time, rank_weights }),
    {
        SpreadsheetConfig { output_path, judge_time, start_time, rank_weights }
    }

    /// Create config with default rank weights (1st=10, 2nd=8, 3rd=6,
    /// 4th=4, 5th=2).
    pub fn with_default_weights(output_path: String, judge_time: u32, start_time: Time) -> (r:
        SpreadsheetConfig)
        ensures
            r.output_path == output_path,
            r.judge_time == judge_time,
            r.start_time == start_time,
            r.rank_weights@ =~= seq![
                (1u32, 10i64),
                (2u32, 8i64),
                (3u32, 6i64),
                (4u32, 4i64),
                (5u32, 2i64),
            ],
    {
        let mut rank_weights: Vec<(u32, i64)> = Vec::new();
        rank_weights.push((1, 10));
        rank_weights.push((2, 8));
        rank_weights.push((3, 6));
        rank_weights.push((4, 4));
        rank_weights.push((5, 2));
        Self::new(output_path, judge_time, start_time, rank_weights)
    }
}

impl Default for SpreadsheetConfig {
    fn default() -> (r: SpreadsheetConfig)
        ensures
            r.output_path@ == "judging-schedule.xlsx"@,
            r.judge_time == 10,
            r.start_time == (Time { hour: 9u8, minute: 0u8 }),
            r.rank_weights@ =~= seq![
                (1u32, 10i64),
                (2u32, 8i64),
                (3u32, 6i64),
                (4u32, 4i64),
                (5u32, 2i64),
            ],
    {
        Self::with_default_weights(
            String::from_str("judging-schedule.xlsx"),
            10,
            Time { hour: 9, minute: 0 },
        )
    }
}

/// A workbook planner built around a spreadsheet configuration.
pub struct Spreadsheet {
    /// Config for the spreadsheet.
    pub config: SpreadsheetConfig,
}

/// All projects of all allocations, in encounter order.
pub open spec fn flatten_projects(allocs: Seq<Allocation>) -> Seq<Project>
    decreases allocs.len(),
{
    if allocs.len() == 0 {
        Seq::empty()
    } else {
        flatten_projects(allocs.drop_last()) + allocs.last().projects@
    }
}

/// Whether some project in the sequence has this id.
pub open spec fn has_id(s: Seq<Project>, id: Seq<char>) -> bool {
    exists|i: int| 0 <= i < s.len() && s[i].id@ == id
}

/// The sequence with later repetitions of an id removed: each project id
/// is kept only at its first occurrence.
pub open spec fn dedup_by_id(s: Seq<Project>) -> Seq<Project>
    decreases s.len(),
{
    if s.len() == 0 {
        Seq::empty()
    } else {
        let init = dedup_by_id(s.drop_last());
        if has_id(s.drop_last(), s.last().id@) {
            init
        } else {
            init.push(s.last())
        }
    }
}

/// Appending a project extends what ids the sequence holds by exactly its
/// id.
proof fn lemma_has_id_push(s: Seq<Project>, p: Project, id: Seq<char>)
    ensures
        has_id(s.push(p), id) == (has_id(s, id) || p.id@ == id),
{
    if has_id(s, id) {
        let i = choose|i: int| 0 <= i < s.len() && s[i].id@ == id;
        assert(s.push(p)[i] == s[i]);
        assert(has_id(s.push(p), id));
    }
    if p.id@ == id {
        assert(s.push(p)[s.len() as int] == p);
        assert(has_id(s.push(p), id));
    }
    if has_id(s.push(p), id) {
        let i = choose|i: int| 0 <= i < s.push(p).len() && s.push(p)[i].id@ == id;
        if i < s.len() {
            assert(s.push(p)[i] == s[i]);
            assert(has_id(s, id));
        } else {
            assert(s.push(p)[i] == p);
        }
    }
}

impl Spreadsheet {
    /// Create a new Spreadsheet instance.
    pub fn new(config: SpreadsheetConfig) -> (r: Spreadsheet)
        ensures
            r == (Spreadsheet { config }),
    {
        Spreadsheet { config }
    }

    /// Collect all unique projects from allocations: the first occurrence
    /// of each project id, in encounter order.
    #[verifier::loop_isolation(false)]
    pub fn collect_unique_projects(allocations: &Allocations) -> (r: Vec<Project>)
        ensures
            r@ == dedup_by_id(flatten_projects(allocations.allocations@)),
    {
        let ghost allocs = allocations.allocations@;
        let mut projects: Vec<Project> = Vec::new();
        let an = allocations.allocations.len();
        proof {
            assert(allocs.take(0).len() == 0);
            assert(flatten_projects(allocs.take(0)) =~= Seq::<Project>::empty());
        }
        let mut ai: usize = 0;
        while ai < an
            invariant
                ai <= an,
                projects@ == dedup_by_id(flatten_projects(allocs.take(ai as int))),
                forall|id: Seq<char>|
                    has_id(projects@, id) == has_id(
                        flatten_projects(allocs.take(ai as int)),
                        id,
                    ),
            decreases an - ai,
        {
            let ghost base = flatten_projects(allocs.take(ai as int));
            let ghost cur_list = allocs[ai as int].projects@;
            proof {
                assert(allocs.take(ai as int + 1).drop_last() =~= allocs.take(ai as int));
                assert(allocs.take(ai as int + 1).last() == allocs[ai as int]);
                assert(cur_list.take(0).len() == 0);
                assert(base + cur_list.take(0) =~= base);
            }
            let pn = allocations.allocations[ai].projects.len();
            let mut pj: usize = 0;
            while pj < pn
                invariant
                    pj <= pn,
                    projects@ == dedup_by_id(base + cur_list.take(pj as int)),
                    forall|id: Seq<char>|
                        has_id(projects@, id) == has_id(base + cur_list.take(pj as int), id),
                decreases pn - pj,
            {
                let ghost cur = base + cur_list.take(pj as int);
                let ghost p_spec = cur_list[pj as int];
                proof {
                    assert(base + cur_list.take(pj as int + 1) =~= cur.push(p_spec));
                    assert(cur.push(p_spec).drop_last() =~= cur);
                    assert(cur.push(p_spec).last() == p_spec);
                }
                let mut seen = false;
                let on = projects.len();
                let mut q: usize = 0;
                while q < on
                    invariant
                        q <= on,
                        seen == has_id(projects@.take(q as int), p_spec.id@),
                    decreases on - q,
                {
                    proof {
                        assert(projects@.take(q as int + 1) =~= projects@.take(q as int).push(
                            projects@[q as int],
                        ));
                        lemma_has_id_push(
                            projects@.take(q as int),
                            projects@[q as int],
                            p_spec.id@,
                        );
                    }
                    if str_eq(
                        projects[q].id.as_str(),
                        allocations.allocations[ai].projects[pj].id.as_str(),
                    ) {
                        seen = true;
                    }
                    q += 1;
                }
                proof {
                    assert(projects@.take(on as int) =~= projects@);
                }
                if !seen {
                    let added = allocations.allocations[ai].projects[pj].duplicate();
                    proof {
                        lemma_has_id_push(projects@, p_spec, p_spec.id@);
                    }
                    let ghost before = projects@;
                    projects.push(added);
                    proof {
                        assert forall|id: Seq<char>|
                            has_id(projects@, id) == has_id(cur.push(p_spec), id) by {
                            lemma_has_id_push(before, p_spec, id);
                            lemma_has_id_push(cur, p_spec, id);
                        }
                    }
                } else {
                    proof {
                        assert forall|id: Seq<char>|
                            has_id(projects@, id) == has_id(cur.push(p_spec), id) by {
                            lemma_has_id_push(cur, p_spec, id);
                        }
                    }
                }
                pj += 1;
            }
            proof {
                assert(base + cur_list.take(pn as int) =~= flatten_projects(
                    allocs.take(ai as int + 1),
                ));
            }
            ai += 1;
        }
        proof {
            assert(allocs.take(an as int) =~= allocs);
        }
        projects
    }
}

/// The scheduled time of the project at `index` on a judge's sheet: the
/// start time plus `index` times the per-project minutes, wrapping around
/// midnight.
pub fn schedule_time(start: &Time, judge_time: u32, index: usize) -> (r: Time)
    requires
        start.wf(),
    ensures
        r == Time::spec_from_minutes(
            (start.spec_to_minutes() + index * judge_time) % 1440,
        ),
        r.wf(),
{
    proof {
        assert((index as int) * (judge_time as int) <= 0xFFFF_FFFF_FFFF_FFFFint * 0xFFFF_FFFFint)
            by (nonlinear_arith)
            requires
                0 <= index as int <= 0xFFFF_FFFF_FFFF_FFFFint,
                0 <= judge_time as int <= 0xFFFF_FFFFint,
        ;
    }
    let total: u128 = (start.to_minutes() as u128) + (index as u128) * (judge_time as u128);
    let m: u32 = (total % 1440) as u32;
    Time::from_minutes(m)
}

/// The letters naming a column number (1 is "A", 26 is "Z", 27 is "AA").
pub open spec fn col_letters(n: int) -> Seq<char>
    recommends
        n >= 1,
    decreases n,
{
    if n <= 0 {
        Seq::empty()
    } else {
        col_letters((n - 1) / 26) + seq![uchar((n - 1) % 26)]
    }
}

/// The characters of a letter-value list read back to front.
spec fn letters_rev_chars(ds: Seq<u8>) -> Seq<char>
    decreases ds.len(),
{
    if ds.len() == 0 {
        Seq::empty()
    } else {
        letters_rev_chars(ds.drop_first()) + seq![uchar(ds.first() as int)]
    }
}

/// Appending a letter value puts its character in front.
proof fn lemma_letters_rev_chars_push(ds: Seq<u8>, d: u8)
    ensures
        letters_rev_chars(ds.push(d)) =~= seq![uchar(d as int)] + letters_rev_chars(ds),
    decreases ds.len(),
{
    let p = ds.push(d);
    assert(letters_rev_chars(p) == letters_rev_chars(p.drop_first()) + seq![
        uchar(p.first() as int),
    ]);
    if ds.len() == 0 {
        assert(p.first() == d);
        assert(p.drop_first() =~= Seq::<u8>::empty());
        assert(letters_rev_chars(Seq::<u8>::empty()) =~= Seq::<char>::empty());
    } else {
        assert(p.first() == ds.first());
        assert(p.drop_first() =~= ds.drop_first().push(d));
        lemma_letters_rev_chars_push(ds.drop_first(), d);
        assert(letters_rev_chars(ds) == letters_rev_chars(ds.drop_first()) + seq![
            uchar(ds.first() as int),
        ]);
    }
}

/// Convert a 0-based column index to its column letters (0 is "A", 25 is
/// "Z", 26 is "AA").
#[verifier::loop_isolation(false)]
pub fn column_letter(col: u16) -> (r: String)
    ensures
        r@ == col_letters(col as int + 1),
{
    let mut letters: Vec<u8> = Vec::new();
    let mut n: u32 = col as u32 + 1;
    proof {
        assert(letters_rev_chars(letters@) =~= Seq::<char>::empty());
        assert(col_letters(col as int + 1) =~= col_letters(n as int) + letters_rev_chars(
            letters@,
        ));
    }
    while n > 0
        invariant
            col_letters(col as int + 1) =~= col_letters(n as int) + letters_rev_chars(letters@),
            forall|i: int| 0 <= i < letters@.len() ==> (#[trigger] letters@[i]) < 26,
        decreases n,
    {
        let d: u8 = ((n - 1) % 26) as u8;
        proof {
            lemma_letters_rev_chars_push(letters@, d);
        }
        letters.push(d);
        n = (n - 1) / 26;
    }
    let mut out = String::new();
    let mut i: usize = letters.len();
    proof {
        assert(letters_rev_chars(letters@.skip(i as int)) =~= Seq::<char>::empty());
    }
    while i > 0
        invariant
            i <= letters@.len(),
            out@ == letters_rev_chars(letters@.skip(i as int)),
        decreases i,
    {
        i -= 1;
        out.append(letter_str(letters[i]));
        proof {
            assert(letters@.skip(i as int).drop_first() =~= letters@.skip(i as int + 1));
            assert(letters@.skip(i as int).first() == letters@[i as int]);
        }
    }
    proof {
        assert(letters@.skip(0) =~= letters@);
        assert(col_letters(0) =~= Seq::<char>::empty());
    }
    out
}

/// The members joined with commas.
pub open spec fn join_comma(s: Seq<String>) -> Seq<char>
    decreases s.len(),
{
    if s.len() == 0 {
        Seq::empty()
    } else if s.len() == 1 {
        s[0]@
    } else {
        join_comma(s.drop_last()) + seq![','] + s.last()@
    }
}

/// Join cell references with commas.
#[verifier::loop_isolation(false)]
pub fn join_refs(v: &Vec<String>) -> (r: String)
    ensures
        r@ == join_comma(v@),
{
    proof {
        reveal_strlit(",");
        assert(","@ =~= seq![',']);
    }
    let mut out = String::new();
    let n = v.len();
    let mut i: usize = 0;
    proof {
        assert(join_comma(v@.take(0)) =~= Seq::<char>::empty());
    }
    while i < n
        invariant
            i <= n,
            out@ == join_comma(v@.take(i as int)),
        decreases n - i,
    {
        proof {
            assert(v@.take(i as int + 1).drop_last() =~= v@.take(i as int));
            assert(v@.take(i as int + 1).last() == v@[i as int]);
        }
        if i > 0 {
            out.append(",");
        }
        out.append(v[i].as_str());
        proof {
            assert(out@ =~= join_comma(v@.take(i as int + 1)));
        }
        i += 1;
    }
    proof {
        assert(v@.take(n as int) =~= v@);
    }
    out
}

/// The A1-style reference of a cell, from a 0-based column index and a
/// 1-based row number.
pub fn cell_ref(col: u16, row: u32) -> (r: String)
    ensures
        r@ == col_letters(col as int + 1) + dec_chars(row as int),
{
    let mut out = column_letter(col);
    out.append(u32_to_string(row).as_str());
    proof {
        assert(out@ =~= col_letters(col as int + 1) + dec_chars(row as int));
    }
    out
}

/// The formula looking a project's rank up in one judge's sheet, for the
/// data row numbered `row` (1-based; the project name sits in column A of
/// the row below the header).
pub fn rank_formula(row: u32, judge_name: &str) -> (r: String)
    requires
        row < u32::MAX,
    ensures
        r@ =~= "=IFERROR(VLOOKUP(A"@ + dec_chars(row as int + 1) + ",'"@ + judge_name@
            + "'!A:E,5,FALSE),\"\")"@,
{
    let mut out = String::from_str("=IFERROR(VLOOKUP(A");
    out.append(u32_to_string(row + 1).as_str());
    out.append(",'");
    out.append(judge_name);
    out.append("'!A:E,5,FALSE),\"\")");
    out
}

/// The formula converting the rank in `rank_cell` to points through the
/// score configuration sheet, whose weight rows end at `num_ranks` + 1.
pub fn points_formula(rank_cell: &str, num_ranks: u32) -> (r: String)
    requires
        num_ranks < u32::MAX,
    ensures
        r@ =~= "=IFERROR(VLOOKUP("@ + rank_cell@ + ",'Score Configuration'!A$2:B$"@ + dec_chars(
            num_ranks as int + 1,
        ) + ",2,FALSE),\"\")"@,
{
    let mut out = String::from_str("=IFERROR(VLOOKUP(");
    out.append(rank_cell);
    out.append(",'Score Configuration'!A$2:B$");
    out.append(u32_to_string(num_ranks + 1).as_str());
    out.append(",2,FALSE),\"\")");
    out
}

/// The formula summing the given cells, empty on error.
pub fn sum_formula(refs: &Vec<String>) -> (r: String)
    ensures
        r@ =~= "=IFERROR(SUM("@ + join_comma(refs@) + "),\"\")"@,
{
    let mut out = String::from_str("=IFERROR(SUM(");
    out.append(join_refs(refs).as_str());
    out.append("),\"\")");
    out
}

/// The formula averaging the given cells, empty on error.
pub fn average_formula(refs: &Vec<String>) -> (r: String)
    ensures
        r@ =~= "=IFERROR(AVERAGE("@ + join_comma(refs@) + "),\"\")"@,
{
    let mut out = String::from_str("=IFERROR(AVERAGE(");
    out.append(join_refs(refs).as_str());
    out.append("),\"\")");
    out
}

/// Weight entries ordered by rank position.
pub open spec fn ranks_sorted(s: Seq<(u32, i64)>) -> bool {
    forall|i: int, j: int| 0 <= i < j < s.len() ==> (#[trigger] s[i]).0 <= (#[trigger] s[j]).0
}

/// The rank weights ordered by rank position ascending: an ordered
/// rearrangement of the given weights.
#[verifier::loop_isolation(false)]
#[verifier::rlimit(60)]
pub fn sorted_rank_weights(ws: &Vec<(u32, i64)>) -> (r: Vec<(u32, i64)>)
    ensures
        r@.to_multiset() == ws@.to_multiset(),
        r@.len() == ws@.len(),
        ranks_sorted(r@),
{
    proof {
        broadcast use vstd::seq_lib::to_multiset_remove;
        broadcast use vstd::seq_lib::to_multiset_insert;
        broadcast use vstd::seq_lib::to_multiset_contains;
        broadcast use vstd::multiset::group_multiset_axioms;

    }
    let mut v: Vec<(u32, i64)> = Vec::new();
    let n = ws.len();
    let mut i: usize = 0;
    while i < n
        invariant
            i <= n,
            v@ == ws@.take(i as int),
        decreases n - i,
    {
        v.push(ws[i]);
        proof {
            assert(ws@.take(i as int).push(ws@[i as int]) =~= ws@.take(i as int + 1));
        }
        i += 1;
    }
    proof {
        assert(ws@.take(n as int) =~= ws@);
    }

    if n == 0 {
        return v;
    }
    let mut i: usize = 1;
    while i < n
        invariant
            1 <= i <= n,
            v@.len() == n,
            v@.to_multiset() == ws@.to_multiset(),
            ranks_sorted(v@.take(i as int)),
        decreases n - i,
    {
        let mut j: usize = i;
        let mut t: usize = i;
        while t > 0
            invariant
                0 <= t <= j <= i,
                j == i || v@[j as int].0 > v@[i as int].0,
                forall|y: int|
                    t <= y < i && y < j ==> (#[trigger] v@[y]).0 <= v@[i as int].0,
            decreases t,
        {
            t -= 1;
            if v[t].0 > v[i].0 {
                j = t;
            }
        }
        let ghost prev = v@;
        let x = v.remove(i);
        v.insert(j, x);
        proof {
            assert(prev.to_multiset().count(x) > 0) by {
                assert(prev[i as int] == x);
                assert(prev.contains(x));
            }
            assert(v@.to_multiset() =~= prev.to_multiset());
            assert forall|y: int, z: int| 0 <= y < z < i implies (#[trigger] prev[y]).0 <= (
            #[trigger] prev[z]).0 by {
                assert(prev.take(i as int)[y] == prev[y]);
                assert(prev.take(i as int)[z] == prev[z]);
            }
            assert forall|a: int, b: int|
                0 <= a < b < i + 1 implies (#[trigger] v@[a]).0 <= (#[trigger] v@[b]).0 by {
                let pa = if a < j {
                    prev[a]
                } else if a == j {
                    x
                } else {
                    prev[a - 1]
                };
                let pb = if b < j {
                    prev[b]
                } else if b == j {
                    x
                } else {
                    prev[b - 1]
                };
                assert(v@[a] == pa);
                assert(v@[b] == pb);
            }
            assert(ranks_sorted(v@.take(i as int + 1)));
        }
        i += 1;
    }
    proof {
        assert(v@.take(n as int) =~= v@);
    }
    v
}

/// The data rows of one judge's sheet: for each assigned project, in
/// order, its name, its scheduled time rendered "HH:MM", and its id (the
/// table column).
#[verifier::loop_isolation(false)]
pub fn judge_rows(config: &SpreadsheetConfig, allocation: &Allocation) -> (r: Vec<
    (String, String, String),
>)
    requires
        config.start_time.wf(),
    ensures
        r@.len() == allocation.projects@.len(),
        forall|i: int|
            0 <= i < r@.len() ==> (#[trigger] r@[i]).0@ == allocation.projects@[i].name@
                && r@[i].1@ == Time::format_spec(
                Time::spec_from_minutes(
                    (config.start_time.spec_to_minutes() + i * config.judge_time) % 1440,
                ),
            ) && r@[i].2@ == allocation.projects@[i].id@,
{
    let mut rows: Vec<(String, String, String)> = Vec::new();
    let n = allocation.projects.len();
    let mut i: usize = 0;
    while i < n
        invariant
            i <= n,
            rows@.len() == i,
            forall|q: int|
                0 <= q < i ==> (#[trigger] rows@[q]).0@ == allocation.projects@[q].name@
                    && rows@[q].1@ == Time::format_spec(
                    Time::spec_from_minutes(
                        (config.start_time.spec_to_minutes() + q * config.judge_time) % 1440,
                    ),
                ) && rows@[q].2@ == allocation.projects@[q].id@,
        decreases n - i,
    {
        let t = schedule_time(&config.start_time, config.judge_time, i);
        rows.push(
            (allocation.projects[i].name.clone(), t.format(), allocation.projects[i].id.clone()),
        );
        i += 1;
    }
    rows
}

} // verus!
