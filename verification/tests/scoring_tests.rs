use judgers::error::Error;
use judgers::format::Format;
use judgers::mode::Mode;
use judgers::order::Order;
use judgers::project::Project;
use judgers::scoring::{
    Score, Scorer, ScorerConfig, Scores, ScoreTable, ScoreValue, StackRankDecision,
    StackRankScorer,
};

fn val(s: &ScoreValue) -> f64 {
    s.num as f64 / s.den as f64
}

#[test]
fn test_stack_rank_scorer_score_no_rank_weights() {
    let config = ScorerConfig::default();

    let judge_stack_decisions = vec![StackRankDecision {
        judge_id: "1".to_string(),
        ranks: vec![
            ("project a".to_string(), 1),
            ("project b".to_string(), 2),
            ("project c".to_string(), 3),
        ],
    }];

    let projects = vec![
        Project {
            id: "a".to_string(),
            name: "project a".to_string(),
            table_number: None,
        },
        Project {
            id: "b".to_string(),
            name: "project b".to_string(),
            table_number: None,
        },
        Project {
            id: "c".to_string(),
            name: "project c".to_string(),
            table_number: None,
        },
    ];

    let rank_weights = Vec::new();

    let scorer = StackRankScorer::new(config, judge_stack_decisions, projects, rank_weights);

    let scores_result = scorer.score();

    assert!(scores_result.is_err());
    assert_eq!(scores_result.err().unwrap(), Error::ErrNoRankWeights);
}

#[test]
fn test_stack_rank_scorer_no_projects() {
    let config = ScorerConfig::default();

    let judge_stack_decisions = vec![StackRankDecision {
        judge_id: "1".to_string(),
        ranks: vec![
            ("project a".to_string(), 1),
            ("project b".to_string(), 2),
            ("project c".to_string(), 3),
        ],
    }];

    let projects = vec![];

    let rank_weights = vec![(1, 3), (2, 2), (3, 1)];

    let scorer = StackRankScorer::new(config, judge_stack_decisions, projects, rank_weights);

    let scores_result = scorer.score();

    assert!(scores_result.is_err());
    assert_eq!(scores_result.err().unwrap(), Error::ErrNoProjects);
}

#[test]
fn test_stack_rank_scorer_score() {
    let config = ScorerConfig::default();

    let judge_stack_decisions = vec![
        StackRankDecision {
            judge_id: "1".to_string(),
            ranks: vec![
                ("project a".to_string(), 1),
                ("project b".to_string(), 2),
                ("project c".to_string(), 3),
            ],
        },
        StackRankDecision {
            judge_id: "2".to_string(),
            ranks: vec![
                ("project b".to_string(), 1),
                ("project c".to_string(), 2),
                ("project a".to_string(), 3),
            ],
        },
    ];

    let projects = vec![
        Project {
            id: "a".to_string(),
            name: "project a".to_string(),
            table_number: None,
        },
        Project {
            id: "b".to_string(),
            name: "project b".to_string(),
            table_number: None,
        },
        Project {
            id: "c".to_string(),
            name: "project c".to_string(),
            table_number: None,
        },
    ];

    let rank_weights = vec![(1, 3), (2, 2), (3, 1)];

    let scorer = StackRankScorer::new(config, judge_stack_decisions, projects, rank_weights);

    let scores = scorer.score().unwrap();

    assert_eq!(scores.scores.len(), 3);
    for score in scores.scores {
        match score.project_name.as_str() {
            "project a" => assert_eq!(val(&score.score), 2.0),
            "project b" => assert_eq!(val(&score.score), 2.5),
            "project c" => assert_eq!(val(&score.score), 1.5),
            _ => assert!(false),
        }
    }
}

#[test]
fn test_stack_rank_scorer_score_complex() {
    let config = ScorerConfig::default();

    let judge_stack_decisions = vec![
        StackRankDecision {
            judge_id: "1".to_string(),
            ranks: vec![
                ("project a".to_string(), 1),
                ("project b".to_string(), 2),
                ("project c".to_string(), 3),
            ],
        },
        StackRankDecision {
            judge_id: "2".to_string(),
            ranks: vec![
                ("project b".to_string(), 1),
                ("project c".to_string(), 2),
                ("project a".to_string(), 3),
            ],
        },
        StackRankDecision {
            judge_id: "3".to_string(),
            ranks: vec![
                ("project d".to_string(), 1),
                ("project c".to_string(), 2),
                ("project a".to_string(), 3),
            ],
        },
    ];

    let projects = vec![
        Project {
            id: "a".to_string(),
            name: "project a".to_string(),
            table_number: None,
        },
        Project {
            id: "b".to_string(),
            name: "project b".to_string(),
            table_number: None,
        },
        Project {
            id: "c".to_string(),
            name: "project c".to_string(),
            table_number: None,
        },
        Project {
            id: "d".to_string(),
            name: "project d".to_string(),
            table_number: None,
        },
        Project {
            id: "e".to_string(),
            name: "project e".to_string(),
            table_number: None,
        },
    ];

    let rank_weights = vec![(1, 3), (2, 2), (3, 1)];

    let scorer = StackRankScorer::new(config, judge_stack_decisions, projects, rank_weights);

    let scores = scorer.score().unwrap();

    assert_eq!(scores.scores.len(), 4);
    for score in scores.scores {
        match score.project_name.as_str() {
            "project a" => assert_eq!(val(&score.score), 5.0 / 3.0),
            "project b" => assert_eq!(val(&score.score), 2.5),
            "project c" => assert_eq!(val(&score.score), 5.0 / 3.0),
            "project d" => assert_eq!(val(&score.score), 3.0),
            "project e" => assert_eq!(val(&score.score), 0.0),
            _ => assert!(false),
        }
    }
}

#[test]
fn test_scores_sorted_descending_by_default() {
    let config = ScorerConfig::default();
    let judge_stack_decisions = vec![StackRankDecision {
        judge_id: "1".to_string(),
        ranks: vec![
            ("project a".to_string(), 1),
            ("project b".to_string(), 2),
            ("project c".to_string(), 3),
        ],
    }];
    let projects = vec![
        Project::new("c".to_string(), "project c".to_string()),
        Project::new("a".to_string(), "project a".to_string()),
        Project::new("b".to_string(), "project b".to_string()),
    ];
    let rank_weights = vec![(1, 3), (2, 2), (3, 1)];

    let scorer = StackRankScorer::new(config, judge_stack_decisions, projects, rank_weights);
    let scores = scorer.score().unwrap();

    assert_eq!(scores.scores.len(), 3);
    for pair in scores.scores.windows(2) {
        assert!(val(&pair[0].score) >= val(&pair[1].score));
    }
    assert_eq!(scores.scores[0].project_name, "project a");
    assert_eq!(scores.scores[2].project_name, "project c");
}

#[test]
fn test_scores_sorted_by_name() {
    let config = ScorerConfig::new(Format::Json, Order::ProjectNameAsc, Mode::Total);
    let judge_stack_decisions = vec![StackRankDecision {
        judge_id: "1".to_string(),
        ranks: vec![
            ("beta".to_string(), 1),
            ("alpha".to_string(), 2),
            ("gamma".to_string(), 3),
        ],
    }];
    let projects = vec![
        Project::new("g".to_string(), "gamma".to_string()),
        Project::new("b".to_string(), "beta".to_string()),
        Project::new("a".to_string(), "alpha".to_string()),
    ];
    let rank_weights = vec![(1, 30), (2, 20), (3, 10)];

    let scorer = StackRankScorer::new(config, judge_stack_decisions, projects, rank_weights);
    let scores = scorer.score().unwrap();

    let names: Vec<&str> = scores
        .scores
        .iter()
        .map(|s| s.project_name.as_str())
        .collect();
    assert_eq!(names, vec!["alpha", "beta", "gamma"]);
    // Total mode: the weights themselves, not averages.
    assert_eq!(val(&scores.scores[0].score), 20.0);
    assert_eq!(val(&scores.scores[1].score), 30.0);
    assert_eq!(val(&scores.scores[2].score), 10.0);
}

#[test]
fn test_unmapped_ranks_are_dropped() {
    let config = ScorerConfig::default();
    let judge_stack_decisions = vec![StackRankDecision {
        judge_id: "1".to_string(),
        ranks: vec![
            ("project a".to_string(), 1),
            ("project b".to_string(), 7),
        ],
    }];
    let projects = vec![
        Project::new("a".to_string(), "project a".to_string()),
        Project::new("b".to_string(), "project b".to_string()),
    ];
    let rank_weights = vec![(1, 3)];

    let scorer = StackRankScorer::new(config, judge_stack_decisions, projects, rank_weights);
    let scores = scorer.score().unwrap();

    // Rank 7 has no weight, so project b has no contributions and is omitted.
    assert_eq!(scores.scores.len(), 1);
    assert_eq!(scores.scores[0].project_name, "project a");
    assert_eq!(val(&scores.scores[0].score), 3.0);
}

#[test]
fn test_score_table_operations() {
    let mut table = ScoreTable::new();
    assert!(table.is_empty());
    assert_eq!(table.len(), 0);
    assert!(table.get("x").is_none());

    table.add("x".to_string(), 3);
    table.add("x".to_string(), 2);
    table.add("y".to_string(), 5);

    assert!(!table.is_empty());
    assert_eq!(table.len(), 2);
    assert_eq!(table.get("x"), Some((5, 2)));
    assert_eq!(table.get_total_score("x"), Some(5));
    assert_eq!(table.get_count("x"), Some(2));
    let avg = table.get_average_score("x").unwrap();
    assert_eq!(avg.num, 5);
    assert_eq!(avg.den, 2);
    assert_eq!(table.get_total_score("z"), None);

    table.insert("x".to_string(), 9);
    assert_eq!(table.get("x"), Some((9, 1)));
    assert_eq!(table.len(), 2);
}

#[test]
fn test_score_table_to_scores_modes() {
    let mut table = ScoreTable::new();
    table.add("project a".to_string(), 4);
    table.add("project a".to_string(), 2);

    let projects = vec![
        Project::new("a".to_string(), "project a".to_string()),
        Project::new("b".to_string(), "project b".to_string()),
    ];

    let avg_cfg = ScorerConfig::new(Format::Json, Order::ScoreDesc, Mode::Average);
    let averaged = table.to_scores(projects.clone(), avg_cfg);
    assert_eq!(averaged.scores.len(), 1);
    assert_eq!(averaged.scores[0].project_name, "project a");
    assert_eq!(val(&averaged.scores[0].score), 3.0);

    let total_cfg = ScorerConfig::new(Format::Json, Order::ScoreDesc, Mode::Total);
    let totalled = table.to_scores(projects, total_cfg);
    assert_eq!(totalled.scores.len(), 1);
    assert_eq!(val(&totalled.scores[0].score), 6.0);
}

#[test]
fn test_scorer_config_and_scores_defaults() {
    let config = ScorerConfig::default();
    assert_eq!(config.format, Format::Json);
    assert_eq!(config.order, Order::ScoreDesc);
    assert_eq!(config.mode, Mode::Average);

    let scores = Scores::default();
    assert!(scores.scores.is_empty());

    let built = Scores::new(vec![Score {
        project_name: "p".to_string(),
        score: ScoreValue { num: 1, den: 1 },
    }]);
    assert_eq!(built.scores.len(), 1);
}
