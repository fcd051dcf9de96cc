use judgers::allocate::{Allocation, Allocations};
use judgers::judge::Judge;
use judgers::project::Project;
use judgers::spreadsheet::{
    average_formula, cell_ref, column_letter, join_refs, judge_rows, points_formula, rank_formula,
    sorted_rank_weights, sum_formula, Spreadsheet, SpreadsheetConfig,
};
use judgers::text::u32_to_string;
use judgers::time::Time;

#[test]
fn test_column_letter() {
    assert_eq!(column_letter(0), "A");
    assert_eq!(column_letter(1), "B");
    assert_eq!(column_letter(25), "Z");
    assert_eq!(column_letter(26), "AA");
    assert_eq!(column_letter(27), "AB");
    assert_eq!(column_letter(51), "AZ");
    assert_eq!(column_letter(52), "BA");
    assert_eq!(column_letter(701), "ZZ");
    assert_eq!(column_letter(702), "AAA");
}

#[test]
fn test_u32_to_string() {
    assert_eq!(u32_to_string(0), "0");
    assert_eq!(u32_to_string(7), "7");
    assert_eq!(u32_to_string(10), "10");
    assert_eq!(u32_to_string(255), "255");
    assert_eq!(u32_to_string(4294967295), "4294967295");
}

#[test]
fn test_cell_ref() {
    assert_eq!(cell_ref(0, 2), "A2");
    assert_eq!(cell_ref(3, 11), "D11");
    assert_eq!(cell_ref(26, 1), "AA1");
}

#[test]
fn test_formulas() {
    assert_eq!(
        rank_formula(1, "Judge 1"),
        "=IFERROR(VLOOKUP(A2,'Judge 1'!A:E,5,FALSE),\"\")"
    );
    assert_eq!(
        points_formula("B2", 5),
        "=IFERROR(VLOOKUP(B2,'Score Configuration'!A$2:B$6,2,FALSE),\"\")"
    );
    let refs = vec!["C2".to_string(), "E2".to_string()];
    assert_eq!(join_refs(&refs), "C2,E2");
    assert_eq!(sum_formula(&refs), "=IFERROR(SUM(C2,E2),\"\")");
    assert_eq!(average_formula(&refs), "=IFERROR(AVERAGE(C2,E2),\"\")");
    assert_eq!(sum_formula(&vec!["B7".to_string()]), "=IFERROR(SUM(B7),\"\")");
}

#[test]
fn test_collect_unique_projects() {
    let shared = Project::new("1".to_string(), "Project 1".to_string());
    let second = Project::new("2".to_string(), "Project 2".to_string());
    let third = Project::new("3".to_string(), "Project 3".to_string());

    let allocations = Allocations::new(vec![
        Allocation::new(
            Judge::new("j1".to_string(), "Judge 1".to_string()),
            vec![shared.clone(), second.clone()],
        ),
        Allocation::new(
            Judge::new("j2".to_string(), "Judge 2".to_string()),
            vec![second.clone(), third.clone(), shared.clone()],
        ),
    ]);

    let unique = Spreadsheet::collect_unique_projects(&allocations);
    let ids: Vec<&str> = unique.iter().map(|p| p.id.as_str()).collect();
    assert_eq!(ids, vec!["1", "2", "3"]);
}

#[test]
fn test_sorted_rank_weights() {
    let ws = vec![(3, 6), (1, 10), (5, 2), (2, 8), (4, 4)];
    let sorted = sorted_rank_weights(&ws);
    assert_eq!(sorted, vec![(1, 10), (2, 8), (3, 6), (4, 4), (5, 2)]);
}

#[test]
fn test_spreadsheet_config_defaults() {
    let config = SpreadsheetConfig::default();
    assert_eq!(config.output_path, "judging-schedule.xlsx");
    assert_eq!(config.judge_time, 10);
    assert_eq!(config.start_time, Time { hour: 9, minute: 0 });
    assert_eq!(
        config.rank_weights,
        vec![(1, 10), (2, 8), (3, 6), (4, 4), (5, 2)]
    );
}

#[test]
fn test_judge_rows_schedule() {
    let config = SpreadsheetConfig::with_default_weights(
        "test.xlsx".to_string(),
        10,
        Time { hour: 9, minute: 0 },
    );
    let allocation = Allocation::new(
        Judge::new("j1".to_string(), "Judge 1".to_string()),
        vec![
            Project::new("1".to_string(), "Project 1".to_string()),
            Project::new("2".to_string(), "Project 2".to_string()),
            Project::new("3".to_string(), "Project 3".to_string()),
        ],
    );

    let rows = judge_rows(&config, &allocation);
    assert_eq!(rows.len(), 3);
    assert_eq!(rows[0], ("Project 1".to_string(), "09:00".to_string(), "1".to_string()));
    assert_eq!(rows[1], ("Project 2".to_string(), "09:10".to_string(), "2".to_string()));
    assert_eq!(rows[2], ("Project 3".to_string(), "09:20".to_string(), "3".to_string()));
}

#[test]
fn test_judge_rows_wrap_midnight() {
    let config = SpreadsheetConfig::with_default_weights(
        "test.xlsx".to_string(),
        30,
        Time { hour: 23, minute: 45 },
    );
    let allocation = Allocation::new(
        Judge::new("j1".to_string(), "Judge 1".to_string()),
        vec![
            Project::new("1".to_string(), "Project 1".to_string()),
            Project::new("2".to_string(), "Project 2".to_string()),
        ],
    );

    let rows = judge_rows(&config, &allocation);
    assert_eq!(rows[0].1, "23:45");
    assert_eq!(rows[1].1, "00:15");
}
