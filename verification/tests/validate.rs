use argtuner::command::template::CommandTemplate;
use argtuner::project::{ProjectConfig, ProjectSettings, Goal, Pruner, SamplerConfig, SchedulerConfig};
use argtuner::validate::{
    template_has_checkpoint_dir, tokens_conditional_check, tokens_have_checkpoint_dir,
    validate_conditional_flags, validate_project_config,
};

#[test]
fn validate_tokens_detect_checkpoint_dir() {
    assert!(tokens_have_checkpoint_dir(
        &["--checkpoint-dir".to_string(), "{trial_dir}".to_string()],
        "--checkpoint-dir"
    ));
    assert!(tokens_have_checkpoint_dir(
        &["--checkpoint_dir={trial_dir}".to_string()],
        "--checkpoint_dir"
    ));
    assert!(!tokens_have_checkpoint_dir(
        &["--checkpoint-dir".to_string(), "/tmp".to_string()],
        "--checkpoint-dir"
    ));
}

#[test]
fn tuner_tokens_detect_checkpoint_dir() {
    assert!(tokens_have_checkpoint_dir(
        &["--checkpoint-dir".to_string(), "{trial_dir}".to_string()],
        "--checkpoint-dir"
    ));
    assert!(tokens_have_checkpoint_dir(
        &["--checkpoint_dir={trial_dir}".to_string()],
        "--checkpoint_dir"
    ));
    assert!(tokens_have_checkpoint_dir(
        &["--checkpoint-dir".to_string(), "{trial_dir}/sub".to_string()],
        "--checkpoint-dir"
    ));
    assert!(!tokens_have_checkpoint_dir(
        &["--checkpoint-dir".to_string(), "out".to_string()],
        "--checkpoint-dir"
    ));
}

#[test]
fn validate_template_detects_checkpoint_dir() {
    let template = CommandTemplate::new("train --checkpoint-dir {trial_dir}");
    assert!(template_has_checkpoint_dir(&template, "--checkpoint-dir"));
    let template = CommandTemplate::new("train --checkpoint-dir /tmp");
    assert!(!template_has_checkpoint_dir(&template, "--checkpoint-dir"));
}

#[test]
fn tuner_template_detects_checkpoint_dir() {
    let template = CommandTemplate::new("run --checkpoint-dir {trial_dir}");
    assert!(template_has_checkpoint_dir(&template, "--checkpoint-dir"));
    let template = CommandTemplate::new("run --checkpoint_dir={trial_dir}/x");
    assert!(template_has_checkpoint_dir(&template, "--checkpoint_dir"));
    let template = CommandTemplate::new("run --checkpoint-dir out");
    assert!(!template_has_checkpoint_dir(&template, "--checkpoint-dir"));
}

#[test]
fn rejects_positional_conditional_param() {
    let template = CommandTemplate::new("run {momentum}");
    let err = validate_conditional_flags(&["momentum".to_string()], &template)
        .expect_err("positional placeholder");
    assert!(err.contains("must be bound"));
}

#[test]
fn accepts_flag_bound_conditional_params() {
    let template = CommandTemplate::new("run --use {use} --momentum={momentum}");
    validate_conditional_flags(&["momentum".to_string()], &template).expect("flag-bound is valid");
}

fn config() -> ProjectConfig {
    ProjectConfig::from_sections(
        ProjectSettings {
            metric_key: "loss".to_string(),
            goal: Goal::Min,
            pruner: Pruner::Disabled,
            inject_trial_placeholders: true,
            checkpoint_arg: None,
        },
        SamplerConfig::default(),
        SchedulerConfig::default(),
    )
}

#[test]
fn project_validation_checks_placeholders() {
    let config = config();
    let template = CommandTemplate::new("train --lr {lr} --checkpoint-dir {trial_dir}");
    let phs = template.placeholders().expect("placeholders");
    assert!(validate_project_config(&config, &template, &["lr".to_string()], &[], Ok(()), &phs).is_ok());
    assert_eq!(
        validate_project_config(&config, &template, &[], &[], Ok(()), &phs).unwrap_err(),
        "template placeholder {lr} not found in search space"
    );
    assert_eq!(
        validate_project_config(&config, &template, &["lr".to_string()], &[], Err("bad space".to_string()), &phs)
            .unwrap_err(),
        "bad space"
    );
    let no_dir = CommandTemplate::new("train --lr {lr}");
    assert_eq!(
        validate_project_config(&config, &no_dir, &["lr".to_string()], &[], Ok(()), &["lr".to_string()])
            .unwrap_err(),
        "template must include --checkpoint-dir {trial_dir}"
    );
}

#[test]
fn project_validation_requires_budget_placeholder_for_halving() {
    let mut config = config();
    config.scheduler.kind = argtuner::scheduler::Scheduler::SuccessiveHalving;
    let template = CommandTemplate::new("train --lr {lr} --checkpoint-dir {trial_dir}");
    let phs = template.placeholders().expect("placeholders");
    let err = validate_project_config(&config, &template, &["lr".to_string()], &[], Ok(()), &phs)
        .unwrap_err();
    assert_eq!(
        err,
        "template missing budget placeholder {epochs}; successive_halving requires the budget placeholder {epochs} in the template. template placeholders: {lr}, {trial_dir}. Either add {epochs} to the template or set [scheduler.successive_halving].budget_placeholder to match your template."
    );
}

#[test]
fn conditional_check_reads_the_words() {
    let words = |v: &[&str]| v.iter().map(|s| s.to_string()).collect::<Vec<String>>();
    let names = words(&["a", "b"]);
    assert!(tokens_conditional_check(&words(&["run", "--a", "{a}", "--b={b}"]), &names).is_ok());
    let err = tokens_conditional_check(&words(&["run", "--a", "{a}", "x", "{b}"]), &names)
        .expect_err("b is positional");
    assert!(err.starts_with("conditional parameter 'b' must be bound"), "{err}");
    // A placeholder bound once is accepted, as config validation reads it.
    assert!(tokens_conditional_check(&words(&["{b}", "--b", "{b}"]), &names[1..]).is_ok());
}
