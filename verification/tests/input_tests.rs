use judgers::error::Error;
use judgers::input::Input;
use judgers::judge::Judge;
use judgers::project::Project;
use judgers::Validate;

#[test]
fn test_input_validation_valid() {
    let valid_judge = Judge::new("j1".to_string(), "Judge One".to_string());
    let valid_project = Project::new("p1".to_string(), "Project One".to_string());

    let input = Input::new(vec![valid_judge.clone()], vec![valid_project.clone()]);

    assert!(input.validate().is_ok());
}

#[test]
fn test_input_validation_no_judges() {
    let valid_project = Project::new("p1".to_string(), "Project One".to_string());

    let input = Input::new(vec![], vec![valid_project.clone()]);

    assert!(input.validate().is_err());
}

#[test]
fn test_input_validation_no_projects() {
    let valid_judge = Judge::new("j1".to_string(), "Judge One".to_string());

    let input = Input::new(vec![valid_judge.clone()], vec![]);

    assert!(input.validate().is_err());
}

#[test]
fn test_input_validation_duplicate_judge_ids() {
    let valid_judge = Judge::new("j1".to_string(), "Judge One".to_string());

    let input = Input::new(vec![valid_judge.clone(), valid_judge.clone()], vec![]);

    assert!(input.validate().is_err());
}

#[test]
fn test_input_validation_duplicate_project_ids() {
    let valid_project = Project::new("p1".to_string(), "Project One".to_string());

    let input = Input::new(vec![], vec![valid_project.clone(), valid_project.clone()]);

    assert!(input.validate().is_err());
}

#[test]
fn test_input_validation_error_order_and_variants() {
    let judge = Judge::new("j1".to_string(), "Judge One".to_string());
    let project = Project::new("p1".to_string(), "Project One".to_string());

    let no_judges = Input::new(vec![], vec![project.clone()]);
    assert_eq!(no_judges.validate().err().unwrap(), Error::ErrNoJudges);

    let no_projects = Input::new(vec![judge.clone()], vec![]);
    assert_eq!(no_projects.validate().err().unwrap(), Error::ErrNoProjects);

    let blank_judge_id = Input::new(
        vec![Judge::new("   ".to_string(), "Judge One".to_string())],
        vec![project.clone()],
    );
    assert_eq!(
        blank_judge_id.validate().err().unwrap(),
        Error::ErrInvalidJudgeId
    );

    let blank_judge_name = Input::new(
        vec![Judge::new("j1".to_string(), "\t\n".to_string())],
        vec![project.clone()],
    );
    assert_eq!(
        blank_judge_name.validate().err().unwrap(),
        Error::ErrInvalidJudgeName
    );

    let dup_judges = Input::new(
        vec![
            Judge::new("j1".to_string(), "Judge One".to_string()),
            Judge::new("j1".to_string(), "Judge Two".to_string()),
        ],
        vec![project.clone()],
    );
    assert_eq!(
        dup_judges.validate().err().unwrap(),
        Error::ErrDuplicateJudgeIds
    );

    let blank_project_id = Input::new(
        vec![judge.clone()],
        vec![Project::new("".to_string(), "Project One".to_string())],
    );
    assert_eq!(
        blank_project_id.validate().err().unwrap(),
        Error::ErrInvalidProjectId
    );

    let blank_project_name = Input::new(
        vec![judge.clone()],
        vec![Project::new("p1".to_string(), " ".to_string())],
    );
    assert_eq!(
        blank_project_name.validate().err().unwrap(),
        Error::ErrInvalidProjectName
    );

    let dup_projects = Input::new(
        vec![judge.clone()],
        vec![
            Project::new("p1".to_string(), "Project One".to_string()),
            Project::new("p1".to_string(), "Project Two".to_string()),
        ],
    );
    assert_eq!(
        dup_projects.validate().err().unwrap(),
        Error::ErrDuplicateProjectIds
    );
}

#[test]
fn test_judge_and_project_validate() {
    assert!(Judge::new("j1".to_string(), "Judge One".to_string())
        .validate()
        .is_ok());
    assert_eq!(
        Judge::new("  ".to_string(), "Judge One".to_string())
            .validate()
            .err()
            .unwrap(),
        Error::ErrInvalidJudgeId
    );
    assert_eq!(
        Judge::new("\u{00A0}\u{2003}".to_string(), "Judge One".to_string())
            .validate()
            .err()
            .unwrap(),
        Error::ErrInvalidJudgeId
    );
    assert!(Project::new("p1".to_string(), "Project One".to_string())
        .validate()
        .is_ok());
    assert_eq!(
        Project::new("p1".to_string(), "".to_string())
            .validate()
            .err()
            .unwrap(),
        Error::ErrInvalidProjectName
    );
}
