use vstd::prelude::*;

use crate::format::Format;

verus! {

/// Mode for which judging allocations can be generated.
#[derive(PartialEq, Eq, Structural, Clone, Copy, Debug)]
pub enum Mode {
    Json,
    Xlsx,
}

/// Configuration for automatically generating judge allocations for
/// projects with judges.
#[derive(Clone, Debug)]
pub struct Config {
    /// Amount of times a project needs to be judged.
    /// Defaults to 3.
    pub judge_amount: u32,
    /// Should we enforce that all judges judge the same amount of projects?
    /// Defaults to false.
    pub judge_equal_amount: bool,
    /// Amount of time each judge has to judge each project, in minutes.
    /// Defaults to 5.
    pub judge_time: u32,
    /// What mode are we generating judging results for?
    /// Defaults to Json.
    pub mode: Mode,
    /// Where is the spreadsheet located?
    /// Only used if mode is Xlsx. Defaults to None.
    pub spreadsheet_path: Option<String>,
    /// Where are the judges located? Defaults to None.
    pub judges_path: Option<String>,
    /// Where are the projects located? Defaults to None.
    pub projects_path: Option<String>,
    /// Who are the judges? Defaults to None.
    pub judges: Option<Vec<String>>,
    /// What are the projects? Defaults to None.
    pub projects: Option<Vec<String>>,
}

impl Default for Config {
    fn default() -> (r: Config)
        ensures
            r.judge_amount == 3,
            r.judge_equal_amount == false,
            r.judge_time == 5,
            r.mode == Mode::Json,
            r.spreadsheet_path is None,
            r.judges_path is None,
            r.projects_path is None,
            r.judges is None,
            r.projects is None,
    {
        Config {
            judge_amount: 3,
            judge_equal_amount: false,
            judge_time: 5,
            mode: Mode::Json,
            spreadsheet_path: None,
            judges_path: None,
            projects_path: None,
            judges: None,
            projects: None,
        }
    }
}

/// Configuration shared by the allocation strategies.
#[derive(Clone, Debug)]
pub struct AllocationConfig {
    /// Minimum number of distinct judges that must see each project.
    /// Defaults to 3.
    pub judge_amount_min: u32,
    /// Amount of time each judge has per project, in minutes.
    /// Defaults to 5.
    pub judge_time: u32,
    /// Format the allocations will be outputted in. Defaults to Json.
    pub format: Format,
    /// Where the output should be written, if anywhere.
    pub output_path: Option<String>,
}

impl AllocationConfig {
    pub fn new(judge_amount_min: u32, judge_time: u32, format: Format, output_path: Option<
        String,
    >) -> (r: AllocationConfig)
        ensures
            r == (AllocationConfig { judge_amount_min, judge_time, format, output_path }),
    {
        AllocationConfig { judge_amount_min, judge_time, format, output_path }
    }
}

impl Default for AllocationConfig {
    fn default() -> (r: AllocationConfig)
        ensures
            r.judge_amount_min == 3,
            r.judge_time == 5,
            r.format == Format::Json,
            r.output_path is None,
    {
        AllocationConfig { judge_amount_min: 3, judge_time: 5, format: Format::Json, output_path: None }
    }
}

} // verus!
