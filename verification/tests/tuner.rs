use argtuner::fields::FieldMap;
use argtuner::scheduler::TrialToken;
use argtuner::trial::store::TrialStatus;
use argtuner::tuner::{
    completed_entry, search_plan, CompletedTrial, FailureAction, ScheduledRun, SearchPlan,
    TrialStart, TrialTable,
};

fn token(config_id: usize) -> TrialToken {
    TrialToken { config_id, rung: 0, bracket: 0, budget_epochs: 1 }
}

#[test]
fn scheduled_run_skips_finished_and_resumes_interrupted() {
    let mut completed = TrialTable::new();
    completed.insert((0, 0, 0), CompletedTrial { status: TrialStatus::Completed, score: Some(5), trial_id: 0 });
    completed.insert((1, 0, 0), CompletedTrial { status: TrialStatus::Error, score: None, trial_id: 1 });
    completed.insert((2, 0, 0), CompletedTrial { status: TrialStatus::Running, score: None, trial_id: 7 });
    let mut run = ScheduledRun::new(completed);
    assert_eq!(run.start(token(0)), TrialStart::Record(Some(5)));
    assert_eq!(run.start(token(1)), TrialStart::Record(None));
    assert_eq!(run.start(token(2)), TrialStart::Evaluate(Some(7)));
    assert_eq!(run.start(token(3)), TrialStart::Evaluate(None));
    run.succeeded(token(2), Some(1), 7);
    assert_eq!(run.start(token(2)), TrialStart::Record(Some(1)));
    run.failed(token(3), 8);
    assert_eq!(run.start(token(3)), TrialStart::Record(None));
    run.retried(token(3));
    assert_eq!(run.start(token(3)), TrialStart::Evaluate(None));
}

#[test]
fn completed_entry_reads_row() {
    let mut row = FieldMap::new();
    row.insert("status".to_string(), "ok".to_string());
    row.insert("config_id".to_string(), "3".to_string());
    row.insert("trial.rung".to_string(), "1".to_string());
    row.insert("trial_id".to_string(), "9".to_string());
    assert_eq!(completed_entry(&row), Some(((3, 1, 0), TrialStatus::Completed, 9)));
    row.insert("status".to_string(), "weird".to_string());
    assert_eq!(completed_entry(&row), None);
}

#[test]
fn pso_needs_fixed_scheduler() {
    let mut config = argtuner::project::ProjectConfig::from_sections(
        argtuner::project::ProjectSettings {
            metric_key: "loss".to_string(),
            goal: argtuner::project::Goal::Min,
            pruner: argtuner::project::Pruner::Disabled,
            inject_trial_placeholders: true,
            checkpoint_arg: None,
        },
        argtuner::project::SamplerConfig::default(),
        argtuner::project::SchedulerConfig::default(),
    );
    assert_eq!(search_plan(&config), Ok(SearchPlan::Pso { iters: 10, particles: 5 }));
    config.scheduler.kind = argtuner::scheduler::Scheduler::SuccessiveHalving;
    assert_eq!(
        search_plan(&config).unwrap_err(),
        "scheduler must be fixed when using the pso sampler"
    );
    config.sampler.kind = argtuner::project::Sampler::Random;
    assert_eq!(search_plan(&config), Ok(SearchPlan::Scheduled));
}

#[test]
fn failures_lead_to_retry_failure_or_exhaustion() {
    let dup = "invalid_config: duplicate_config: same as trial 0";
    let mut run = ScheduledRun::new(TrialTable::new());
    // An invalid configuration is offered back to the scheduler.
    assert_eq!(run.after_failure(token(0), 3, "invalid_config: bad", "invalid_config: bad"), FailureAction::AskRetry);
    assert_eq!(run.start(token(0)), TrialStart::Evaluate(None));
    assert_eq!(run.retry_answer(token(0), 3, true), FailureAction::Retry);
    assert_eq!(run.start(token(0)), TrialStart::Evaluate(None));
    assert_eq!(run.retry_answer(token(0), 3, false), FailureAction::Fail);
    assert_eq!(run.start(token(0)), TrialStart::Record(None));
    // Any other error fails the trial at once.
    assert_eq!(run.after_failure(token(1), 4, "boom", "boom"), FailureAction::Fail);
    assert_eq!(run.start(token(1)), TrialStart::Record(None));
    // A duplicate whose swapped configuration failed plainly counts once.
    assert_eq!(run.after_failure(token(2), 5, dup, "boom"), FailureAction::Fail);
    assert_eq!(run.duplicate_retries, 1);
    for i in 2..50 {
        assert_eq!(run.after_failure(token(10 + i), i, dup, dup), FailureAction::AskRetry);
    }
    assert_eq!(run.after_failure(token(99), 99, dup, dup), FailureAction::Exhausted);
    assert_eq!(run.duplicate_retries, 50);
}
