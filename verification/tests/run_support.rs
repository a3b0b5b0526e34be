use argtuner::space::{
    bool_value_valid, bool_values, choice_value_valid, int_value_count, int_value_valid, int_values,
};
use argtuner::inspect::describe_placeholder;
use argtuner::checkpoint::stale_running_ids;
use argtuner::command::objective::{is_duplicate_config_error, is_invalid_config_error};
use argtuner::command::subprocess::ipc::parse_output;
use argtuner::command::subprocess::runner::split_command_windows;
use argtuner::command::template::{CommandTemplate, TemplateError};
use argtuner::discover::skip_dir;
use argtuner::fields::FieldMap;
use argtuner::inspect::flatten_template;
use argtuner::project::config::{
    default_budget_placeholder, default_goal, default_halving_eta, default_halving_max_epochs,
    default_halving_min_epochs, default_inject_trial_placeholders, default_n_trials,
    default_pso_iters, default_pso_particles, default_sampler, default_scheduler, default_seed,
};
use argtuner::project::{Goal, ProjectConfig, ProjectSettings, Pruner, Sampler, SamplerConfig, SchedulerConfig};
use argtuner::sampler::{used_config, DiscreteConfigPool};
use argtuner::scheduler::plan::{build_budgets, checked_total_budget, plan_is_buildable};
use argtuner::scheduler::successive_halving::build_budgets as halving_budgets;
use argtuner::scheduler::Scheduler;
use argtuner::trial::store::{
    next_trial_id_after, ordered_headers, project_config_action, row_values, ConfigAction,
};
use argtuner::trial::TrialOverrides;
use argtuner::tuner::{ScheduledRun, TrialTable};

fn fields(pairs: &[(&str, &str)]) -> FieldMap {
    let mut m = FieldMap::new();
    for (k, v) in pairs {
        m.insert(k.to_string(), v.to_string());
    }
    m
}

fn strings(v: &[&str]) -> Vec<String> {
    v.iter().map(|s| s.to_string()).collect()
}

#[test]
fn flatten_template_joins_continued_lines() {
    let t = "python train.py \\\n  --lr {lr} \\\n\n  --epochs {epochs}  \\\\\n";
    assert_eq!(flatten_template(t), "python train.py --lr {lr} --epochs {epochs}");
    assert_eq!(flatten_template(""), "");
    assert_eq!(flatten_template("  \n \\ \n"), "");
}

#[test]
fn windows_split_handles_quotes_and_runs_of_spaces() {
    assert_eq!(
        split_command_windows("run  \"C:\\My Dir\\a.exe\" 'x y'   z").unwrap(),
        strings(&["run", "C:\\My Dir\\a.exe", "x y", "z"])
    );
    assert_eq!(split_command_windows("   ").unwrap(), Vec::<String>::new());
    assert_eq!(split_command_windows("a\"\"b").unwrap(), strings(&["ab"]));
    assert_eq!(split_command_windows("say \"hi").unwrap_err(), "unterminated quote");
}

#[test]
fn discrete_pool_hands_out_each_config_once() {
    let mut pool = DiscreteConfigPool::from_parts(
        strings(&["x", "mode"]),
        vec![strings(&["1", "a"]), strings(&["2", ""])],
    );
    let first = pool.assign_values(7).unwrap();
    assert_eq!(first, strings(&["2", ""]));
    assert_eq!(pool.assign_values(7).unwrap(), first);
    let second = pool.assign_values(8).unwrap();
    assert_eq!(second, strings(&["1", "a"]));
    assert!(pool.assign_values(9).is_none());
    pool.forget_config(7);
    assert!(pool.assign_values(7).is_none());
    assert_eq!(pool.assign_values(8).unwrap(), second);
}

#[test]
fn discrete_pool_writes_values_and_skips_inactive() {
    let pool = DiscreteConfigPool::from_parts(strings(&["x", "mode", "extra"]), Vec::new());
    let mut overrides = TrialOverrides::default();
    pool.apply_to_overrides(&strings(&["3", ""]), &mut overrides);
    assert_eq!(overrides.values.get("x").map(String::as_str), Some("3"));
    assert_eq!(overrides.fields.get("hp.x").map(String::as_str), Some("3"));
    assert!(overrides.values.get("mode").is_none());
    assert!(overrides.fields.get("hp.mode").is_none());
    assert_eq!(overrides.values.len(), 1);
    assert_eq!(overrides.fields.len(), 1);
}

#[test]
fn used_config_reads_hp_fields() {
    let row = fields(&[("hp.x", "1"), ("trial_id", "0")]);
    assert_eq!(
        used_config(&row, &strings(&["x", "mode"]), &strings(&["mode"])),
        Some(strings(&["1", ""]))
    );
    assert_eq!(used_config(&row, &strings(&["x", "mode"]), &[]), None);
    assert_eq!(used_config(&row, &[], &[]), Some(Vec::new()));
}

#[test]
fn stale_running_ids_lists_running_rows() {
    let rows = vec![
        fields(&[("trial_id", "0"), ("status", "ok")]),
        fields(&[("trial_id", "1"), ("status", "running")]),
        fields(&[("trial_id", "x"), ("status", "running")]),
        fields(&[("status", "running")]),
        fields(&[("trial_id", "4"), ("status", "running")]),
    ];
    assert_eq!(stale_running_ids(&rows), vec![1, 4]);
}

#[test]
fn config_change_is_refused_only_under_recorded_trials() {
    assert_eq!(project_config_action(None, "a", false, true), ConfigAction::Save);
    assert_eq!(project_config_action(Some("a"), "a", false, true), ConfigAction::Keep);
    assert_eq!(project_config_action(Some("a"), "b", true, true), ConfigAction::Save);
    assert_eq!(project_config_action(Some("a"), "b", false, false), ConfigAction::Save);
    assert_eq!(project_config_action(Some("a"), "b", false, true), ConfigAction::Refuse);
}

#[test]
fn row_values_follow_headers() {
    let row = fields(&[("trial_id", "3"), ("hp.x", "1")]);
    let headers = strings(&["trial_id", "status", "hp.x"]);
    assert_eq!(row_values(&row, &headers), strings(&["3", "", "1"]));
}

#[test]
fn headers_cover_new_keys() {
    let small = ordered_headers(&strings(&["hp.x"]));
    let large = ordered_headers(&strings(&["hp.x", "metric.loss", "trial.extra"]));
    for h in &small {
        assert!(large.contains(h));
    }
    for k in ["hp.x", "metric.loss", "trial.extra", "trial_id", "score"] {
        assert!(large.iter().any(|h| h == k));
    }
}

#[test]
fn next_trial_id_follows_the_largest() {
    assert_eq!(next_trial_id_after(None), 0);
    assert_eq!(next_trial_id_after(Some(4)), 5);
}

#[test]
fn project_search_skips_hidden_and_build_dirs() {
    assert!(!skip_dir(".", 0));
    assert!(!skip_dir("target", 0));
    assert!(skip_dir(".git", 1));
    assert!(skip_dir("node_modules", 2));
    assert!(skip_dir("artifacts", 1));
    assert!(!skip_dir("models", 1));
}

#[test]
fn duplicate_errors_are_invalid_configs() {
    let err = "invalid_config: duplicate_config: same hyperparameters as trial 2";
    assert!(is_duplicate_config_error(err));
    assert!(is_invalid_config_error(err));
    assert!(!is_duplicate_config_error("invalid_config: lr too high"));
}

#[test]
fn duplicate_retries_stop_at_the_limit() {
    let mut run = ScheduledRun::new(TrialTable::new());
    for _ in 0..49 {
        assert!(!run.note_duplicate());
    }
    assert!(run.note_duplicate());
    assert!(run.note_duplicate());
    assert_eq!(run.duplicate_retries, 50);
}

#[test]
fn template_errors_read_as_messages() {
    assert_eq!(TemplateError::MissingValue("lr".to_string()).message(), "missing value for placeholder `lr`");
    assert_eq!(TemplateError::UnclosedPlaceholder.message(), "unclosed placeholder in template");
    let t = CommandTemplate::new("run {lr} {epochs}");
    let err = t.render(&fields(&[("lr", "0.1")])).unwrap_err();
    assert_eq!(err.message(), "missing value for placeholder `epochs`");
    assert!(t.render(&fields(&[("lr", "0.1"), ("epochs", "3")])).is_ok());
}

#[test]
fn budget_totals_are_checked() {
    let budgets = build_budgets(1, 10, 3);
    assert_eq!(budgets, vec![1, 2, 5, 10]);
    assert_eq!(halving_budgets(1, 10, 3), vec![1, 3, 9, 10]);
    assert_eq!(checked_total_budget(9, &[1, 3, 9], 3), Some(9 + 3 * 2 + 6));
    assert_eq!(checked_total_budget(usize::MAX, &[1, 3], 3), None);
}

fn config(kind: Scheduler, n_trials: usize) -> ProjectConfig {
    let mut scheduler = SchedulerConfig::default();
    scheduler.kind = kind;
    scheduler.n_trials = n_trials;
    scheduler.successive_halving.max_epochs = usize::MAX;
    ProjectConfig::from_sections(
        ProjectSettings {
            metric_key: "metric".to_string(),
            goal: Goal::Min,
            pruner: Pruner::Disabled,
            inject_trial_placeholders: true,
            checkpoint_arg: None,
        },
        SamplerConfig::default(),
        scheduler,
    )
}

#[test]
fn plan_buildability_is_decided() {
    assert!(plan_is_buildable(&config(Scheduler::Fixed, usize::MAX)));
    assert!(plan_is_buildable(&config(Scheduler::SuccessiveHalving, 1)));
    assert!(!plan_is_buildable(&config(Scheduler::SuccessiveHalving, usize::MAX)));
}

#[test]
fn config_defaults_match_the_sections() {
    assert_eq!(default_goal(), Goal::Min);
    assert_eq!(default_sampler(), Sampler::Pso);
    assert_eq!(default_scheduler(), Scheduler::Fixed);
    assert_eq!(default_n_trials(), 0);
    assert_eq!(default_seed(), 42);
    assert_eq!(default_pso_iters(), 10);
    assert_eq!(default_pso_particles(), 5);
    assert_eq!(default_budget_placeholder(), "epochs");
    assert_eq!(default_halving_min_epochs(), 1);
    assert_eq!(default_halving_max_epochs(), 10);
    assert_eq!(default_halving_eta(), 3);
    assert!(default_inject_trial_placeholders());
}

#[test]
fn plain_lines_do_not_change_parsed_output() {
    let msg = "::ARGTUNER::{\"type\":\"result\",\"fields\":{\"metric\":\"0.5\"}}";
    let with_noise = format!("epoch 1\n{msg}\nprogress 50%\n");
    let a = parse_output(msg, "::ARGTUNER::").unwrap();
    let b = parse_output(&with_noise, "::ARGTUNER::").unwrap();
    assert_eq!(a.len(), b.len());
    assert_eq!(a.len(), 1);
}

#[test]
fn execution_summary_names_metric_sampler_and_scheduler() {
    let cfg = config(Scheduler::SuccessiveHalving, 12);
    assert_eq!(
        argtuner::inspect::execution_summary(&cfg),
        "execution:\n  metric:    metric (minimize)\n  sampler:   pso\n  scheduler: successive_halving (12 trials)\n"
    );
}

#[test]
fn placeholders_are_described() {
    assert_eq!(describe_placeholder("trial_id", None, None), "reserved: numeric trial id (auto-injected)");
    assert_eq!(
        describe_placeholder("trial_dir", None, None),
        "reserved: per-trial artifact directory (auto-injected)"
    );
    assert_eq!(
        describe_placeholder("epochs", None, Some("epochs")),
        "not in search space (passed through as a literal value); scheduler budget placeholder (overridden per rung)"
    );
    assert_eq!(describe_placeholder("lr", Some("space param Float in [0, 1]"), Some("epochs")), "space param Float in [0, 1]");
}

#[test]
fn fixed_scheduler_issues_each_config_id_once() {
    let mut scheduler = argtuner::scheduler::FixedScheduler::new(3, None, None);
    let mut ids = Vec::new();
    while let Some(trial) = scheduler.next_trial() {
        ids.push(trial.token.config_id);
    }
    assert_eq!(ids, vec![0, 1, 2]);
    assert!(scheduler.next_trial().is_none());
}

#[test]
fn integer_parameters_accept_values_on_their_steps() {
    assert!(int_value_valid("5", 0, 10, Some(5)));
    assert!(!int_value_valid("3", 0, 10, Some(5)));
    assert!(int_value_valid("3", 0, 10, None));
    assert!(int_value_valid("+7", 0, 10, Some(0)));
    assert!(!int_value_valid("11", 0, 10, None));
    assert!(int_value_valid("-3", -5, 5, Some(2)));
    assert!(!int_value_valid("abc", 0, 10, None));
    assert!(!int_value_valid("9223372036854775808", i64::MIN, i64::MAX, None));
    assert_eq!(int_value_count(0, 10, Some(4)), Some(4));
    assert_eq!(int_values(0, 10, Some(4)), Some(strings(&["0", "4", "8", "10"])));
    assert_eq!(int_values(-2, 2, None), Some(strings(&["-2", "-1", "0", "1", "2"])));
    assert_eq!(int_value_count(0, 10, Some(0)), None);
    assert_eq!(int_values(5, 1, None), Some(Vec::new()));
    assert_eq!(int_value_count(i64::MIN, i64::MAX, None), None);
    assert!(choice_value_valid(&strings(&["adam", "sgd"]), "sgd"));
    assert!(!choice_value_valid(&strings(&["adam", "sgd"]), "rmsprop"));
    assert!(bool_value_valid("true") && bool_value_valid("false") && !bool_value_valid("True"));
}

#[test]
fn i64_parsing_matches_std() {
    for s in ["0", "-0", "+12", "-9223372036854775808", "9223372036854775807", "9223372036854775808", "-", "+", "", "1_0", "--1"] {
        assert_eq!(argtuner::text::parse_i64(s), s.parse::<i64>().ok(), "{s:?}");
    }
}

#[test]
fn available_configs_enumerate_unused_combinations() {
    let lists = vec![strings(&["1", "2"]), strings(&["a", "b"])];
    let used = vec![strings(&["1", "b"])];
    assert_eq!(
        argtuner::sampler::available_configs(&lists, &used),
        vec![strings(&["1", "a"]), strings(&["2", "a"]), strings(&["2", "b"])]
    );
    assert_eq!(argtuner::sampler::available_configs(&Vec::new(), &Vec::new()), vec![Vec::<String>::new()]);
    assert!(argtuner::sampler::available_configs(&vec![Vec::new()], &Vec::new()).is_empty());
}

#[test]
fn project_paths_join_like_std_paths() {
    let p = argtuner::project::Project::new("runs/");
    assert_eq!(p.artifacts_dir(), "runs/artifacts");
    assert_eq!(p.trials_db_path(), "runs/trials.sqlite");
    let q = argtuner::project::Project::new("");
    assert_eq!(q.unified_config_path(), "argtuner.toml");
    let r = argtuner::project::Project::new("/tmp/p");
    assert_eq!(r.trials_path(), std::path::Path::new("/tmp/p").join("trials.csv").to_string_lossy());
}

#[test]
fn discrete_pool_returns_remaining_config() {
    // Space: one integer parameter `x` in 0..=99; trials 0..=98 already hold x = 0..=98.
    let params = strings(&["x"]);
    let lists = vec![int_values(0, 99, None).expect("x is discrete")];
    let mut used = Vec::new();
    for i in 0..99 {
        let value = i.to_string();
        let row = fields(&[("hp.x", value.as_str()), ("status", "ok")]);
        if let Some(config) = used_config(&row, &params, &[]) {
            used.push(config);
        }
    }
    let available = argtuner::sampler::available_configs(&lists, &used);
    let mut pool = DiscreteConfigPool::from_parts(params, available);
    let values = pool.assign_values(0).expect("unused");
    assert_eq!(values, vec!["99".to_string()]);
}

#[test]
fn bool_validates_only_true_false() {
    assert!(bool_value_valid("true"));
    assert!(bool_value_valid("false"));
    assert!(!bool_value_valid("yes"));
    assert!(!bool_value_valid("1"));
    assert!(!bool_value_valid("TRUE"));
}

#[test]
fn bool_is_discrete_with_two_values() {
    assert_eq!(bool_values().len(), 2);
    assert_eq!(bool_values(), vec!["false".to_string(), "true".to_string()]);
}

#[test]
fn misplaced_budget_placeholder_gets_a_note() {
    let m = argtuner::project::config_error_message("unknown field `budget_placeholder`, expected one of x");
    assert_eq!(
        m,
        "unknown field `budget_placeholder`, expected one of x; note: budget_placeholder belongs under [scheduler.successive_halving]"
    );
    assert_eq!(argtuner::project::config_error_message("missing field `template`"), "missing field `template`");
}
