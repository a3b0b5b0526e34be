use std::collections::BTreeMap;

use argtuner::project::{
    FixedSchedulerConfig, Goal, ProjectConfig, Pruner, SamplerConfig, SchedulerConfig,
    SuccessiveHalvingSchedulerConfig,
};
use argtuner::scheduler::fixed::FixedScheduler;
use argtuner::scheduler::plan::{build_budgets as plan_budgets, build_plan};
use argtuner::scheduler::successive_halving::{build_budgets, SuccessiveHalvingScheduler};
use argtuner::scheduler::Scheduler;

/// The order key of a score: a `u64` that sorts as `f64::total_cmp` does,
/// none for an infinite score.
fn score_key(score: f64) -> Option<u64> {
    if score.is_infinite() {
        return None;
    }
    let bits = score.to_bits();
    Some(if bits >> 63 == 1 { !bits } else { bits | (1 << 63) })
}

#[test]
fn budgets_include_min_and_max() {
    let budgets = build_budgets(2, 9, 3);
    assert_eq!(budgets, vec![2, 6, 9]);
}

#[test]
fn budgets_real_epochs_double_per_rung() {
    let budgets = plan_budgets(1689, 1708, 2);
    let start_epoch = 1688;
    let real_epochs: Vec<usize> = budgets.iter().map(|b| b - start_epoch).collect();
    assert_eq!(real_epochs, vec![1, 2, 4, 8, 16, 20]);
    for pair in real_epochs.windows(2) {
        assert!(
            pair[1] == pair[0] * 2 || pair[1] <= pair[0] * 2,
            "real epochs should double per rung: {:?}",
            pair
        );
    }
}

fn sh_config() -> ProjectConfig {
    ProjectConfig {
        metric_key: "metric".to_string(),
        goal: Goal::Min,
        sampler: SamplerConfig::default(),
        scheduler: SchedulerConfig {
            kind: Scheduler::SuccessiveHalving,
            n_trials: 6,
            seed: 7,
            fixed: FixedSchedulerConfig::default(),
            successive_halving: SuccessiveHalvingSchedulerConfig {
                budget_placeholder: "epochs".to_string(),
                min_epochs: 2,
                max_epochs: 8,
                eta: 2,
            },
        },
        pruner: Pruner::Disabled,
        inject_trial_placeholders: true,
        checkpoint_arg: None,
    }
}

#[test]
fn plan_matches_successive_halving_budgets() {
    let config = sh_config();
    let plan = build_plan(&config, Some(0));
    let budgets = plan_budgets(2, 8, 2);
    assert_eq!(plan.tiers.len(), budgets.len());
    assert_eq!(plan.tiers[0].configs, 6);
    assert_eq!(plan.tiers[1].configs, 3);
    assert_eq!(plan.tiers[2].configs, 2);
    assert_eq!(plan.tiers[3].configs, 1);
    assert!(plan.config_plan.is_some());
}

#[test]
fn plan_renders_table() {
    let config = sh_config();
    let plan = build_plan(&config, Some(3));
    let text = plan.render(Some(3));
    assert!(text.starts_with("Scheduler: SuccessiveHalving\nTrials: 6\nEta: 2\nBudget placeholder: {epochs}\n"));
    assert!(text.contains("Rung   Budget   Increment Configs  Promote \n"));
    assert!(text.contains("0      2        0         6        3       \n"));
    assert!(text.contains("Config 3 path (assumes promotion each rung):\n  rung 0   budget 2        increment 0\n"));
    let expected_total = plan.total_budget.expect("total");
    assert_eq!(expected_total, 6 * 2 + 3 * 1 + 2 * 2 + 1 * 3);
}

#[test]
fn fixed_plan_has_one_tier() {
    let mut config = sh_config();
    config.scheduler.kind = Scheduler::Fixed;
    let plan = build_plan(&config, None);
    assert_eq!(plan.tiers.len(), 1);
    assert!(plan.config_plan.is_none());
    assert!(plan.render(None).contains("0      -        -         6        -       \n"));
}

#[test]
fn successive_halving_progresses_rungs() {
    let mut scheduler = SuccessiveHalvingScheduler::new(6, 2, 8, 2, "epochs".to_string());
    let mut seen = 0;
    while let Some(trial) = scheduler.next_trial() {
        scheduler.record_result(trial.token, score_key(seen as f64));
        seen += 1;
    }
    assert!(scheduler.is_done());
    assert!(seen > 0);
}

#[test]
fn successive_halving_starts_with_lowest_config_id() {
    let mut scheduler = SuccessiveHalvingScheduler::new(4, 1, 4, 2, "epochs".to_string());
    let mut ids = Vec::new();
    for _ in 0..4 {
        let trial = scheduler.next_trial().expect("trial");
        ids.push(trial.token.config_id);
    }
    assert_eq!(ids, vec![0, 1, 2, 3]);
}

#[test]
fn successive_halving_produces_budgeted_rungs() {
    let mut scheduler = SuccessiveHalvingScheduler::new(6, 2, 8, 2, "epochs".to_string());
    let mut counts: BTreeMap<usize, usize> = BTreeMap::new();
    while let Some(trial) = scheduler.next_trial() {
        *counts.entry(trial.token.budget_epochs).or_insert(0) += 1;
        scheduler.record_result(trial.token, score_key(trial.token.config_id as f64));
    }
    assert_eq!(counts.get(&2), Some(&6));
    assert_eq!(counts.get(&4), Some(&3));
    assert_eq!(counts.get(&8), Some(&2));
    assert!(scheduler.is_done());
}

#[test]
fn successive_halving_retries_invalid_trials() {
    let mut scheduler = SuccessiveHalvingScheduler::new(1, 2, 4, 2, "epochs".to_string());
    let trial = scheduler.next_trial().expect("trial");
    assert!(scheduler.retry_trial(trial.token));
    assert!(scheduler.next_trial().is_some());
}

#[test]
fn successive_halving_marks_resume_in_env() {
    let mut scheduler = SuccessiveHalvingScheduler::new(2, 1, 4, 2, "epochs".to_string());
    let first = scheduler.next_trial().expect("trial 0");
    assert_eq!(first.overrides.values.get("epochs").map(String::as_str), Some("1"));
    scheduler.record_result(first.token, score_key(1.0));

    let second = scheduler.next_trial().expect("trial 1");
    scheduler.record_result(second.token, score_key(2.0));

    let promoted = scheduler.next_trial().expect("trial 2");
    assert_eq!(promoted.token.rung, 1);
    assert_eq!(promoted.overrides.values.get("epochs").map(String::as_str), Some("2"));
}

#[test]
fn successive_halving_budget_accounting() {
    let mut scheduler = SuccessiveHalvingScheduler::new(4, 2, 4, 2, "epochs".to_string());
    let t1 = scheduler.next_trial().expect("t1");
    assert_eq!(t1.token.budget_epochs, 2);
    assert_eq!(t1.overrides.fields.get("tuning.budget_total").map(|s: &String| s.as_str()), Some("12"));
    assert_eq!(t1.overrides.fields.get("tuning.budget_remaining").map(|s: &String| s.as_str()), Some("10"));
    assert!(scheduler.retry_trial(t1.token));
    let t1_retry = scheduler.next_trial().expect("t1_retry");
    assert_eq!(t1_retry.overrides.fields.get("tuning.budget_remaining").map(|s: &String| s.as_str()), Some("10"));
    scheduler.record_result(t1_retry.token, score_key(1.0));
    for _ in 0..3 {
        let t = scheduler.next_trial().expect("rung0");
        scheduler.record_result(t.token, score_key(1.0));
    }
    let p1 = scheduler.next_trial().expect("p1");
    assert_eq!(p1.token.rung, 1);
    assert_eq!(p1.token.budget_epochs, 4);
    assert_eq!(p1.overrides.fields.get("tuning.budget_remaining").map(|s: &String| s.as_str()), Some("2"));
    assert!(scheduler.retry_trial(p1.token));
    let p1_retry = scheduler.next_trial().expect("p1_retry");
    assert_eq!(p1_retry.overrides.fields.get("tuning.budget_remaining").map(|s: &String| s.as_str()), Some("2"));
}

#[test]
fn successive_halving_promotes_best_scores() {
    let mut scheduler = SuccessiveHalvingScheduler::new(4, 1, 2, 2, "epochs".to_string());
    let scores = [3.0, 1.0, f64::INFINITY, 2.0];
    for i in 0..4 {
        let t = scheduler.next_trial().expect("rung 0");
        scheduler.record_result(t.token, score_key(scores[i]));
    }
    let a = scheduler.next_trial().expect("promoted");
    let b = scheduler.next_trial().expect("promoted");
    assert_eq!((a.token.config_id, b.token.config_id), (1, 3));
    assert!(scheduler.next_trial().is_none());
    assert!(scheduler.is_done());
}

#[test]
fn fixed_scheduler_emits_expected_budgets() {
    let mut scheduler = FixedScheduler::new(3, Some(5), Some("epochs".to_string()));
    let mut seen = Vec::new();
    while let Some(trial) = scheduler.next_trial() {
        seen.push(trial.token.budget_epochs);
        assert_eq!(trial.overrides.values.get("epochs").map(String::as_str), Some("5"));
        scheduler.record_result(trial.token);
    }
    assert_eq!(seen, vec![5, 5, 5]);
    assert!(scheduler.is_done());
}

#[test]
fn fixed_scheduler_retries_invalid_trials() {
    let mut scheduler = FixedScheduler::new(1, None, None);
    let trial = scheduler.next_trial().expect("trial");
    assert!(scheduler.retry_trial(trial.token));
    assert!(scheduler.next_trial().is_some());
}

#[test]
fn fixed_scheduler_budget_accounting() {
    let mut scheduler = FixedScheduler::new(3, Some(10), Some("epochs".to_string()));
    let t1 = scheduler.next_trial().expect("t1");
    assert_eq!(t1.overrides.fields.get("tuning.budget_total").map(|s: &String| s.as_str()), Some("30"));
    assert_eq!(t1.overrides.fields.get("tuning.budget_remaining").map(|s: &String| s.as_str()), Some("20"));
    assert!(scheduler.retry_trial(t1.token));
    let t1_retry = scheduler.next_trial().expect("t1_retry");
    assert_eq!(t1_retry.overrides.fields.get("tuning.budget_total").map(|s: &String| s.as_str()), Some("30"));
    assert_eq!(t1_retry.overrides.fields.get("tuning.budget_remaining").map(|s: &String| s.as_str()), Some("20"));
    scheduler.record_result(t1_retry.token);
    let t2 = scheduler.next_trial().expect("t2");
    assert_eq!(t2.overrides.fields.get("tuning.budget_remaining").map(|s: &String| s.as_str()), Some("10"));
}

#[test]
fn scheduler_binding_checks_budget_placeholder() {
    let config = sh_config();
    let binding = argtuner::scheduler::SchedulerBinding::new(&config);
    assert!(binding.allows_placeholder("epochs"));
    assert!(!binding.allows_placeholder("lr"));
    assert!(binding.validate_template(&["epochs".to_string()]).is_ok());
    assert_eq!(
        binding.validate_template(&["lr".to_string()]).unwrap_err(),
        "template missing budget placeholder {epochs}"
    );
}

#[test]
fn successive_halving_counts_shrink_by_eta() {
    let counts = argtuner::scheduler::plan::successive_halving_counts(10, 3, 4);
    assert_eq!(counts, vec![10, 4, 2, 1]);
    assert_eq!(argtuner::scheduler::plan::calculate_total_budget(4, &[2, 4], 2), 12);
}
