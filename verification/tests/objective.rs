use argtuner::command::objective::{
    apply_existing_hps, command_outcome, inherit_parent, int_text, invalid_existing_message,
    is_invalid_config_error, override_config_id, result_fields, tail_lines, without_run_fields,
    CommandOutcome,
};
use argtuner::command::objective::{final_record, TrialEnd};
use argtuner::trial::store::TrialStatus;
use argtuner::command::subprocess::runner::CommandOutput;
use argtuner::fields::FieldMap;
use argtuner::trial::TrialOverrides;

const PREFIX: &str = "::ARGTUNER::";

fn map(pairs: &[(&str, &str)]) -> FieldMap {
    let mut m = FieldMap::new();
    for (k, v) in pairs {
        m.insert(k.to_string(), v.to_string());
    }
    m
}

fn output(stdout: &str, code: i32) -> CommandOutput {
    CommandOutput { stdout: stdout.to_string(), _stderr: String::new(), exit_code: code }
}

#[test]
fn tail_lines_skips_blank_lines() {
    assert_eq!(tail_lines("a\n\nb\n  \n", 1), "b");
    assert_eq!(tail_lines("a\nb\nc\n", 2), "b\nc");
    assert_eq!(tail_lines("a\n", 0), "");
    assert_eq!(tail_lines("", 3), "");
}

#[test]
fn int_text_matches_display() {
    for v in [0, 7, -1, i32::MIN, i32::MAX] {
        assert_eq!(int_text(v), v.to_string());
    }
}

#[test]
fn failed_command_reports_exit_code_and_tail() {
    match command_outcome(&output("x\ny\n", 3), PREFIX, "0.1.0-alpha") {
        CommandOutcome::Failed(m) => assert_eq!(m, "command exited with code 3: y"),
        other => panic!("unexpected {other:?}"),
    }
    match command_outcome(&output("", -2), PREFIX, "0.1.0-alpha") {
        CommandOutcome::Failed(m) => assert_eq!(m, "command exited with code -2: <no output>"),
        other => panic!("unexpected {other:?}"),
    }
}

#[test]
fn invalid_config_and_binding_version_are_recognised() {
    let invalid = format!(
        "{PREFIX}{{\"type\":\"event\",\"name\":\"model.invalid_config\",\"fields\":{{\"error\":\"bad hp\"}}}}\n"
    );
    match command_outcome(&output(&invalid, 0), PREFIX, "0.1.0-alpha") {
        CommandOutcome::InvalidConfig { message, fields } => {
            assert_eq!(message, "invalid_config: bad hp");
            assert_eq!(fields.get("model.invalid_config").map(String::as_str), Some("true"));
        }
        other => panic!("unexpected {other:?}"),
    }
    let version = format!(
        "{PREFIX}{{\"type\":\"event\",\"name\":\"tuner.binding_version\",\"fields\":{{\"version\":\"0.0.0\"}}}}\n"
    );
    match command_outcome(&output(&version, 0), PREFIX, "0.1.0-alpha") {
        CommandOutcome::BindingMismatch { expected, got } => {
            assert_eq!(expected, "0.1.0-alpha");
            assert_eq!(got, "0.0.0");
        }
        other => panic!("unexpected {other:?}"),
    }
    let ok = format!("{PREFIX}{{\"type\":\"result\",\"fields\":{{\"loss\":\"0.1\"}}}}\n");
    match command_outcome(&output(&ok, 0), PREFIX, "0.1.0-alpha") {
        CommandOutcome::Completed(p) => assert_eq!(p.data.get("loss").map(String::as_str), Some("0.1")),
        other => panic!("unexpected {other:?}"),
    }
}

#[test]
fn parent_and_existing_hyperparameters_enter_the_overrides() {
    let mut overrides = TrialOverrides::default();
    overrides.fields.insert("trial.config_id".to_string(), "4".to_string());
    assert_eq!(override_config_id(&overrides), Some(4));
    inherit_parent(&mut overrides, Some(11));
    assert_eq!(overrides.fields.get("trial.parent_trial_id").map(String::as_str), Some("11"));
    let existing = map(&[("hp.lr", "0.1"), ("score", "1")]);
    apply_existing_hps(&mut overrides, &existing);
    assert_eq!(overrides.values.get("lr").map(String::as_str), Some("0.1"));
    assert_eq!(overrides.fields.get("hp.lr").map(String::as_str), Some("0.1"));
    assert!(!overrides.fields.contains_key("score"));
}

#[test]
fn result_fields_keep_recorded_values() {
    let base = map(&[("hp.lr", "0.2"), ("trial_id", "1")]);
    let reported = map(&[("metric.loss", "0.5"), ("trial_id", "x")]);
    let existing = map(&[("hp.lr", "0.1")]);
    let out = result_fields(&base, &reported, "loss", "0.5", "0.5", Some(&existing));
    assert_eq!(out.get("hp.lr").map(String::as_str), Some("0.1"));
    assert_eq!(out.get("trial_id").map(String::as_str), Some("1"));
    assert_eq!(out.get("metric").map(String::as_str), Some("loss"));
    assert_eq!(out.get("score").map(String::as_str), Some("0.5"));
}

#[test]
fn misc_objective_helpers() {
    assert!(is_invalid_config_error("invalid_config: duplicate_config"));
    assert!(!is_invalid_config_error("command exited"));
    assert_eq!(
        invalid_existing_message(3, "lr", "9"),
        "existing trial 3 has invalid value for lr: 9"
    );
    let f = without_run_fields(&map(&[("status", "ok"), ("trial_id", "1"), ("hp.a", "1")]));
    assert_eq!(f.len(), 1);
}

#[test]
fn final_records_carry_status_error_and_fields() {
    let rendered = map(&[("hp.lr", "0.2"), ("trial_id", "4")]);
    let existing = map(&[("hp.lr", "0.1"), ("score", "0.9")]);
    let done = final_record(
        4,
        12,
        &rendered,
        None,
        "loss",
        TrialEnd::Finished {
            reported: map(&[("metric.loss", "0.5")]),
            metric_text: "0.5".to_string(),
            score_text: "0.5".to_string(),
        },
    );
    assert_eq!(done.status, TrialStatus::Completed);
    assert_eq!(done.error, None);
    assert_eq!((done.trial_id, done.elapsed_ms), (4, 12));
    assert_eq!(done.fields.get("score").map(String::as_str), Some("0.5"));
    let failed = final_record(
        4,
        7,
        &rendered,
        Some(&existing),
        "loss",
        TrialEnd::Failed { error: "boom".to_string(), extra: map(&[("reason", "x")]) },
    );
    assert_eq!(failed.status, TrialStatus::Error);
    assert_eq!(failed.error.as_deref(), Some("boom"));
    assert_eq!(failed.fields.get("hp.lr").map(String::as_str), Some("0.1"));
    assert_eq!(failed.fields.get("score").map(String::as_str), Some("0.9"));
    assert_eq!(failed.fields.get("reason").map(String::as_str), Some("x"));
}
