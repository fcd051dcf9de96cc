use std::collections::HashMap;

use judgers::allocate::{
    Allocation, Allocations, Allocator, AllocatorKind, PresentationAllocator, RandomFairAllocator,
    SequenceFairAllocator,
};
use judgers::config::Config;
use judgers::error::Error;
use judgers::judge::Judge;
use judgers::project::Project;

#[test]
fn test_random_allocator_with_two() {
    let config = Config {
        judge_amount: 2,
        ..Default::default()
    };

    let judges = vec![
        Judge::new("1".to_string(), "Judge 1".to_string()),
        Judge::new("2".to_string(), "Judge 2".to_string()),
    ];

    let projects = vec![
        Project::new("1".to_string(), "Project 1".to_string()),
        Project::new("2".to_string(), "Project 2".to_string()),
        Project::new("3".to_string(), "Project 3".to_string()),
        Project::new("4".to_string(), "Project 4".to_string()),
    ];

    let allocator = RandomFairAllocator::new(config, judges.clone(), projects.clone());
    let allocations = allocator.allocate().unwrap();

    let mut project_counts: HashMap<String, usize> = HashMap::new();

    for allocation in &allocations.allocations {
        for project in &allocation.projects {
            *project_counts.entry(project.id.clone()).or_insert(0) += 1;
        }
    }

    for project in &projects {
        assert_eq!(
            project_counts.get(&project.id),
            Some(&2),
            "Project {} was not allocated exactly twice",
            project.name
        );
    }
}

#[test]
fn test_random_allocator_with_three() {
    let config = Config {
        judge_amount: 3,
        ..Default::default()
    };

    let judges = vec![
        Judge::new("1".to_string(), "Judge 1".to_string()),
        Judge::new("2".to_string(), "Judge 2".to_string()),
        Judge::new("3".to_string(), "Judge 3".to_string()),
    ];

    let projects = vec![
        Project::new("1".to_string(), "Project 1".to_string()),
        Project::new("2".to_string(), "Project 2".to_string()),
        Project::new("3".to_string(), "Project 3".to_string()),
        Project::new("4".to_string(), "Project 4".to_string()),
        Project::new("5".to_string(), "Project 5".to_string()),
        Project::new("6".to_string(), "Project 6".to_string()),
    ];

    let allocator = RandomFairAllocator::new(config, judges.clone(), projects.clone());
    let allocations = allocator.allocate().unwrap();

    let mut project_counts: HashMap<String, usize> = HashMap::new();

    for allocation in &allocations.allocations {
        for project in &allocation.projects {
            *project_counts.entry(project.id.clone()).or_insert(0) += 1;
        }
    }

    for project in &projects {
        assert_eq!(
            project_counts.get(&project.id),
            Some(&3),
            "Project {} was not allocated exactly twice",
            project.name
        );
    }
}

#[test]
fn test_random_allocator_error_not_enough_judges() {
    let config = Config {
        judge_amount: 3,
        ..Default::default()
    };

    let judges = vec![
        Judge::new("1".to_string(), "Judge 1".to_string()),
        Judge::new("2".to_string(), "Judge 2".to_string()),
    ];

    let projects = vec![
        Project::new("1".to_string(), "Project 1".to_string()),
        Project::new("2".to_string(), "Project 2".to_string()),
        Project::new("3".to_string(), "Project 3".to_string()),
        Project::new("4".to_string(), "Project 4".to_string()),
    ];

    let allocator = RandomFairAllocator::new(config, judges.clone(), projects.clone());
    let allocations = allocator.allocate();
    assert!(allocations.is_err());
}

#[test]
fn test_presentation_allocator_no_projects() {
    let config = Config::default();

    let judges = vec![
        Judge::new("1".to_string(), "Judge 1".to_string()),
        Judge::new("2".to_string(), "Judge 2".to_string()),
    ];

    let projects = vec![];

    let allocator = PresentationAllocator::new(config, judges, projects);

    let allocations = allocator.allocate().unwrap();
    for allocation in &allocations.allocations {
        assert_eq!(allocation.projects.len(), 0);
        assert_eq!(allocation.projects, allocator.projects);
    }
}

#[test]
fn test_presentation_allocator() {
    let config = Config::default();

    let judges = vec![
        Judge::new("1".to_string(), "Judge 1".to_string()),
        Judge::new("2".to_string(), "Judge 2".to_string()),
    ];

    let projects = vec![
        Project::new("1".to_string(), "Project 1".to_string()),
        Project::new("2".to_string(), "Project 2".to_string()),
        Project::new("3".to_string(), "Project 3".to_string()),
    ];

    let allocator = PresentationAllocator::new(config, judges, projects);

    let allocations = allocator.allocate().unwrap();
    assert_eq!(allocations.allocations.len(), 2);
    for allocation in &allocations.allocations {
        assert_eq!(allocation.projects.len(), allocator.projects.len());
        assert_eq!(allocation.projects, allocator.projects);
    }
}

#[test]
fn test_random_allocator_empty_judges() {
    let config = Config {
        judge_amount: 0,
        ..Default::default()
    };
    let projects = vec![Project::new("1".to_string(), "Project 1".to_string())];
    let allocator = RandomFairAllocator::new(config, vec![], projects);
    assert_eq!(allocator.allocate().err().unwrap(), Error::ErrNoJudges);
}

#[test]
fn test_random_allocator_empty_projects() {
    let config = Config::default();
    let judges = vec![
        Judge::new("1".to_string(), "Judge 1".to_string()),
        Judge::new("2".to_string(), "Judge 2".to_string()),
        Judge::new("3".to_string(), "Judge 3".to_string()),
    ];
    let allocator = RandomFairAllocator::new(config, judges, vec![]);
    assert_eq!(allocator.allocate().err().unwrap(), Error::ErrNoProjects);
}

#[test]
fn test_random_allocator_not_enough_judges_fields() {
    let config = Config {
        judge_amount: 5,
        ..Default::default()
    };
    let judges = vec![
        Judge::new("1".to_string(), "Judge 1".to_string()),
        Judge::new("2".to_string(), "Judge 2".to_string()),
    ];
    let projects = vec![Project::new("1".to_string(), "Project 1".to_string())];
    let allocator = RandomFairAllocator::new(config, judges, projects);
    assert_eq!(
        allocator.allocate().err().unwrap(),
        Error::NotEnoughJudges {
            judges: 2,
            projects: 1,
            judge_amount: 5
        }
    );
}

#[test]
fn test_sequence_allocator_coverage() {
    let config = Config {
        judge_amount: 2,
        ..Default::default()
    };

    let judges = vec![
        Judge::new("1".to_string(), "Judge 1".to_string()),
        Judge::new("2".to_string(), "Judge 2".to_string()),
    ];

    let projects = vec![
        Project::new("1".to_string(), "Project 1".to_string()),
        Project::new("2".to_string(), "Project 2".to_string()),
        Project::new("3".to_string(), "Project 3".to_string()),
        Project::new("4".to_string(), "Project 4".to_string()),
    ];

    let allocator = SequenceFairAllocator::new(config, judges, projects.clone());
    let allocations = allocator.allocate().unwrap();

    // Every judge receives ceil(4*2/2) = 4 projects.
    assert_eq!(allocations.allocations.len(), 2);
    for allocation in &allocations.allocations {
        assert_eq!(allocation.projects.len(), 4);
    }

    // Every project appears in exactly 2 judges' lists.
    for project in &projects {
        let count = allocations
            .allocations
            .iter()
            .filter(|a| a.projects.iter().any(|p| p.id == project.id))
            .count();
        assert_eq!(count, 2, "Project {} was not judged exactly twice", project.name);
    }
}

#[test]
fn test_sequence_allocator_staggered_offsets() {
    let config = Config {
        judge_amount: 1,
        ..Default::default()
    };

    let judges = vec![
        Judge::new("1".to_string(), "Judge 1".to_string()),
        Judge::new("2".to_string(), "Judge 2".to_string()),
    ];

    let projects = vec![
        Project::new("1".to_string(), "Project 1".to_string()),
        Project::new("2".to_string(), "Project 2".to_string()),
        Project::new("3".to_string(), "Project 3".to_string()),
        Project::new("4".to_string(), "Project 4".to_string()),
    ];

    let allocator = SequenceFairAllocator::new(config, judges, projects);
    let allocations = allocator.allocate().unwrap();

    // ceil(4*1/2) = 2 projects per judge; judge 2 starts at index 2.
    let first: Vec<&str> = allocations.allocations[0]
        .projects
        .iter()
        .map(|p| p.id.as_str())
        .collect();
    let second: Vec<&str> = allocations.allocations[1]
        .projects
        .iter()
        .map(|p| p.id.as_str())
        .collect();
    assert_eq!(first, vec!["1", "2"]);
    assert_eq!(second, vec!["3", "4"]);
}

#[test]
fn test_sequence_allocator_errors() {
    let judges = vec![
        Judge::new("1".to_string(), "Judge 1".to_string()),
        Judge::new("2".to_string(), "Judge 2".to_string()),
    ];
    let projects = vec![Project::new("1".to_string(), "Project 1".to_string())];

    let empty_judges = SequenceFairAllocator::new(Config::default(), vec![], projects.clone());
    assert_eq!(empty_judges.allocate().err().unwrap(), Error::ErrNoJudges);

    let empty_projects = SequenceFairAllocator::new(Config::default(), judges.clone(), vec![]);
    assert_eq!(empty_projects.allocate().err().unwrap(), Error::ErrNoProjects);

    let too_few = SequenceFairAllocator::new(
        Config {
            judge_amount: 3,
            ..Default::default()
        },
        judges,
        projects,
    );
    assert!(matches!(
        too_few.allocate().err().unwrap(),
        Error::NotEnoughJudges { .. }
    ));
}

#[test]
fn test_allocations_describe() {
    let allocations = Allocations::new(vec![
        Allocation::new(
            Judge::new("1".to_string(), "Judge 1".to_string()),
            vec![
                Project::new("1".to_string(), "Project 1".to_string()),
                Project::new("2".to_string(), "Project 2".to_string()),
            ],
        ),
        Allocation::new(Judge::new("2".to_string(), "Judge 2".to_string()), vec![]),
    ]);
    assert_eq!(
        allocations.describe(),
        "Judge: Judge 1\n  Project: Project 1\n  Project: Project 2\nJudge: Judge 2\n"
    );
    assert_eq!(Allocations::default().describe(), "");
}

#[test]
fn test_allocator_kind_from_str() {
    assert_eq!(AllocatorKind::from_str("random"), AllocatorKind::RandomFair);
    assert_eq!(AllocatorKind::from_str("sequence"), AllocatorKind::SequenceFair);
    assert_eq!(
        AllocatorKind::from_str("presentation"),
        AllocatorKind::Presentation
    );
    assert_eq!(AllocatorKind::from_str("bogus"), AllocatorKind::RandomFair);
    assert_eq!(AllocatorKind::from_str(""), AllocatorKind::RandomFair);
}
