//! Detection of the CI environment from plain name/value pairs.

use buildkite_test_collector::run_env::RuntimeEnvironment;

fn vars(pairs: &[(&str, &str)]) -> Vec<(String, String)> {
    pairs.iter().map(|(k, v)| (k.to_string(), v.to_string())).collect()
}

#[test]
fn detects_buildkite_environment() {
    let build_id = uuid::Uuid::new_v4().to_string();
    let url = format!("https://example.test/{}", build_id);
    let branch = "marty".to_string();
    let commit_sha = uuid::Uuid::new_v4().to_string().replace('-', "");
    let number = rand::random_range(0..999).to_string();
    let job_id = rand::random_range(0..999).to_string();
    let message = "Be excellent to each other".to_string();

    let snapshot = vars(&[
        ("BUILDKITE_BUILD_ID", build_id.as_str()),
        ("BUILDKITE_BUILD_URL", url.as_str()),
        ("BUILDKITE_BRANCH", branch.as_str()),
        ("BUILDKITE_COMMIT", commit_sha.as_str()),
        ("BUILDKITE_BUILD_NUMBER", number.as_str()),
        ("BUILDKITE_JOB_ID", job_id.as_str()),
        ("BUILDKITE_MESSAGE", message.as_str()),
    ]);

    let env = RuntimeEnvironment::detect(&snapshot).unwrap();

    assert_eq!(env.ci().as_str(), "buildkite");
    assert_eq!(env.key(), &build_id);
    assert_eq!(env.url().clone(), Some(url));
    assert_eq!(env.branch().clone(), Some(branch));
    assert_eq!(env.commit_sha().clone(), Some(commit_sha));
    assert_eq!(env.number().clone(), Some(number));
    assert_eq!(env.job_id().clone(), Some(job_id));
    assert_eq!(env.message().clone(), Some(message));
    assert_eq!(env.version().as_str(), "0.1.2");
    assert_eq!(env.collector().as_str(), "rust-buildkite-test-collector");
}

#[test]
fn detect_github_actions_environment() {
    let action = "marty".to_string();
    let run_number = rand::random_range(0..999).to_string();
    let run_attempt = rand::random_range(0..999).to_string();
    let repo = "buildkite/test-collector-rust".to_string();
    let run_id = uuid::Uuid::new_v4().to_string();
    let branch = "marty".to_string();
    let commit_sha = uuid::Uuid::new_v4().to_string().replace('-', "");

    let snapshot = vars(&[
        ("GITHUB_ACTION", action.as_str()),
        ("GITHUB_RUN_NUMBER", run_number.as_str()),
        ("GITHUB_RUN_ATTEMPT", run_attempt.as_str()),
        ("GITHUB_REPOSITORY", repo.as_str()),
        ("GITHUB_RUN_ID", run_id.as_str()),
        ("GITHUB_REF", branch.as_str()),
        ("GITHUB_SHA", commit_sha.as_str()),
    ]);

    let env = RuntimeEnvironment::detect(&snapshot).unwrap();

    assert_eq!(env.ci().as_str(), "github_actions");
    assert_eq!(
        env.key().as_str(),
        format!("{}-{}-{}", action, run_number, run_attempt).as_str()
    );
    assert_eq!(
        env.url().clone(),
        Some(format!(
            "https://github.com/{}/actions/runs/{}",
            repo, run_id
        ))
    );
    assert_eq!(env.branch().clone(), Some(branch));
    assert_eq!(env.commit_sha().clone(), Some(commit_sha));
    assert_eq!(env.number().clone(), Some(run_number));
    assert_eq!(env.job_id().clone(), None);
    assert_eq!(env.message().clone(), None);
    assert_eq!(env.version().as_str(), "0.1.2");
    assert_eq!(env.collector().as_str(), "rust-buildkite-test-collector");
}

#[test]
fn detect_circle_ci_environment() {
    let build_num = (rand::random_range(0..999) as usize).to_string();
    let workflow_id = (rand::random_range(0..999) as usize).to_string();
    let commit_sha = uuid::Uuid::new_v4().to_string().replace('-', "");
    let url = "https://example.test".to_string();
    let branch = "marty".to_string();

    let snapshot = vars(&[
        ("CIRCLE_BUILD_NUM", build_num.as_str()),
        ("CIRCLE_WORKFLOW_ID", workflow_id.as_str()),
        ("CIRCLE_BUILD_URL", url.as_str()),
        ("CIRCLE_BRANCH", branch.as_str()),
        ("CIRCLE_SHA1", commit_sha.as_str()),
    ]);

    let env = RuntimeEnvironment::detect(&snapshot).unwrap();

    assert_eq!(env.ci().as_str(), "circleci");
    assert_eq!(
        env.key().as_str(),
        format!("{}-{}", &workflow_id, &build_num).as_str()
    );
    assert_eq!(env.url().clone(), Some(url));
    assert_eq!(env.branch().clone(), Some(branch));
    assert_eq!(env.commit_sha().clone(), Some(commit_sha));
    assert_eq!(env.number().clone(), Some(build_num));
    assert_eq!(env.job_id().clone(), None);
    assert_eq!(env.message().clone(), None);
    assert_eq!(env.version().as_str(), "0.1.2");
    assert_eq!(env.collector().as_str(), "rust-buildkite-test-collector");
}

#[test]
fn detect_generic_environment() {
    let snapshot = vars(&[("CI", "true")]);

    let env = RuntimeEnvironment::detect(&snapshot).unwrap();

    assert_eq!(env.ci().as_str(), "generic");
    assert!(uuid::Uuid::parse_str(env.key().as_str()).is_ok());

    assert_eq!(env.number().clone(), None);
    assert_eq!(env.job_id().clone(), None);
    assert_eq!(env.branch().clone(), None);
    assert_eq!(env.commit_sha().clone(), None);
    assert_eq!(env.message().clone(), None);
    assert_eq!(env.url().clone(), None);
    assert_eq!(env.version().as_str(), "0.1.2");
    assert_eq!(env.collector().as_str(), "rust-buildkite-test-collector");
}

#[test]
fn detect_failed() {
    let snapshot: Vec<(String, String)> = Vec::new();
    assert!(RuntimeEnvironment::detect(&snapshot).is_none());
}

#[test]
fn detection_prefers_buildkite_over_generic() {
    let snapshot = vars(&[("CI", "true"), ("BUILDKITE_BUILD_ID", "bk-42")]);
    let env = RuntimeEnvironment::detect(&snapshot).unwrap();
    assert_eq!(env.ci().as_str(), "buildkite");
    assert_eq!(env.key().as_str(), "bk-42");
}
