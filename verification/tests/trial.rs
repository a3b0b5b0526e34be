use argtuner::command::template::CommandTemplate;
use argtuner::fields::FieldMap;
use argtuner::trial::store::{
    hp_fields, ordered_headers, record_to_map, rows_with_headers, value_for_placeholder,
    TrialRecord, TrialStatus,
};
use argtuner::trial::{
    enforce_hp_immutability, merge_error_fields, merge_running_fields, metric_value_field,
    render_trial_command_with_overrides, TrialOverrides,
};

fn map(pairs: &[(&str, &str)]) -> FieldMap {
    let mut m = FieldMap::new();
    for (k, v) in pairs {
        m.insert(k.to_string(), v.to_string());
    }
    m
}

#[test]
fn render_uses_trial_id_for_trial_dir() {
    let template = CommandTemplate::new("echo {trial_dir}");
    let mut overrides = TrialOverrides::default();
    overrides.fields.insert("trial.config_id".to_string(), "7".to_string());
    overrides.fields.insert("trial.bracket".to_string(), "2".to_string());
    let artifacts_dir = "artifacts";
    let rendered = render_trial_command_with_overrides(
        &template,
        &FieldMap::new(),
        &FieldMap::new(),
        9,
        artifacts_dir,
        true,
        &overrides,
    )
    .expect("render");
    let expected = std::path::Path::new(artifacts_dir)
        .join("trial_9")
        .to_string_lossy()
        .to_string();
    assert_eq!(
        rendered.env.get("ARGTUNER_TRIAL_DIR").map(String::as_str),
        Some(expected.as_str())
    );
    assert!(rendered.command.contains(&expected));
    assert_eq!(rendered.fields.get("trial_id").map(String::as_str), Some("9"));
    assert_eq!(rendered.env.get("ARGTUNER_TRIAL_ID").map(String::as_str), Some("9"));
}

#[test]
fn render_without_injection_keeps_values() {
    let template = CommandTemplate::new("run --lr {lr}");
    let values = map(&[("lr", "0.1")]);
    let mut overrides = TrialOverrides::default();
    overrides.values.insert("lr".to_string(), "0.2".to_string());
    let rendered = render_trial_command_with_overrides(
        &template,
        &values,
        &FieldMap::new(),
        1,
        "artifacts",
        false,
        &overrides,
    )
    .expect("render");
    assert_eq!(rendered.command, "run --lr 0.2");
    assert!(rendered.trial_dir.is_none());
    assert!(rendered.env.is_empty());
}

#[test]
fn restarting_trial_preserves_existing_score_fields() {
    let existing = map(&[
        ("score", "0.5"),
        ("metric", "metric"),
        ("hp.lr", "0.1"),
        ("status", "error"),
        ("elapsed_ms", "123"),
        ("error", "bad"),
    ]);
    let rendered = map(&[("hp.lr", "0.2")]);
    let merged = merge_running_fields(existing, &rendered);
    assert_eq!(merged.get("score").map(String::as_str), Some("0.5"));
    assert_eq!(merged.get("hp.lr").map(String::as_str), Some("0.1"));
    assert!(!merged.contains_key("status"));
    assert!(!merged.contains_key("elapsed_ms"));
    assert!(!merged.contains_key("error"));
}

#[test]
fn enforce_hp_immutability_preserves_existing_values() {
    let existing = map(&[("hp.lr", "0.1"), ("hp.batch_size", "16")]);
    let mut fields = map(&[("hp.lr", "0.9"), ("hp.batch_size", "32"), ("metric", "loss")]);
    enforce_hp_immutability(Some(&existing), &mut fields);
    assert_eq!(fields.get("hp.lr").map(String::as_str), Some("0.1"));
    assert_eq!(fields.get("hp.batch_size").map(String::as_str), Some("16"));
    assert_eq!(fields.get("metric").map(String::as_str), Some("loss"));
}

#[test]
fn enforce_hp_immutability_preserves_existing_values_even_if_missing() {
    let existing = map(&[("hp.lr", "0.2"), ("hp.steps", "10")]);
    let mut fields = map(&[("metric", "loss")]);
    enforce_hp_immutability(Some(&existing), &mut fields);
    assert_eq!(fields.get("hp.lr").map(String::as_str), Some("0.2"));
    assert_eq!(fields.get("hp.steps").map(String::as_str), Some("10"));
    assert_eq!(fields.get("metric").map(String::as_str), Some("loss"));
}

#[test]
fn merge_error_fields_preserves_existing_metric_and_score() {
    let existing = map(&[
        ("metric", "loss"),
        ("score", "0.25"),
        ("metric.loss", "0.25"),
        ("hp.lr", "0.01"),
    ]);
    let rendered = map(&[("hp.lr", "0.02"), ("hp.steps", "5")]);
    let extra_fields = map(&[("metric.error", "bad")]);
    let merged = merge_error_fields(Some(&existing), &rendered, extra_fields);
    assert_eq!(merged.get("metric").map(String::as_str), Some("loss"));
    assert_eq!(merged.get("score").map(String::as_str), Some("0.25"));
    assert_eq!(merged.get("metric.loss").map(String::as_str), Some("0.25"));
    assert_eq!(merged.get("hp.lr").map(String::as_str), Some("0.01"));
    assert_eq!(merged.get("hp.steps").map(String::as_str), Some("5"));
    assert_eq!(merged.get("metric.error").map(String::as_str), Some("bad"));
}

#[test]
fn merge_error_fields_defaults_score_to_inf() {
    let merged = merge_error_fields(None, &map(&[("hp.lr", "1")]), FieldMap::new());
    assert_eq!(merged.get("score").map(String::as_str), Some("inf"));
    assert_eq!(merged.get("hp.lr").map(String::as_str), Some("1"));
}

#[test]
fn metric_value_field_is_namespaced() {
    assert_eq!(metric_value_field("loss"), "metric.loss");
}

#[test]
fn trial_status_round_trips() {
    for s in [TrialStatus::Running, TrialStatus::Completed, TrialStatus::Error] {
        assert_eq!(TrialStatus::parse(s.as_str()), Some(s));
        assert_eq!(s.as_str().parse::<TrialStatus>(), Ok(s));
    }
    assert_eq!(TrialStatus::Completed.as_str(), "ok");
    assert_eq!(TrialStatus::parse("bogus"), None);
}

#[test]
fn record_row_has_status_time_and_fields() {
    let record = TrialRecord {
        trial_id: 4,
        status: TrialStatus::Error,
        elapsed_ms: 12,
        error: Some("boom".to_string()),
        fields: map(&[("hp.lr", "0.1")]),
    };
    let row = record_to_map(&record, "2024-01-01T00:00:00Z");
    assert_eq!(row.get("trial_id").map(String::as_str), Some("4"));
    assert_eq!(row.get("status").map(String::as_str), Some("error"));
    assert_eq!(row.get("elapsed_ms").map(String::as_str), Some("12"));
    assert_eq!(row.get("error").map(String::as_str), Some("boom"));
    assert_eq!(row.get("trial.time").map(String::as_str), Some("2024-01-01T00:00:00Z"));
    assert_eq!(row.get("hp.lr").map(String::as_str), Some("0.1"));
}

#[test]
fn headers_group_columns_in_order() {
    let keys: Vec<String> = [
        "hp.lr", "metric.loss", "trial.config_id", "trial.time", "custom", "model.epoch_end",
        "trial.budget_step",
    ]
    .iter()
    .map(|s| s.to_string())
    .collect();
    let headers = ordered_headers(&keys);
    let expected: Vec<String> = [
        "trial_id", "trial.time", "status", "trial.budget_step", "elapsed_ms", "error", "metric",
        "score", "metric.loss", "model.epoch_end", "trial.config_id", "custom", "hp.lr",
    ]
    .iter()
    .map(|s| s.to_string())
    .collect();
    assert_eq!(headers, expected);
}

#[test]
fn rows_are_filled_to_the_headers() {
    let records = vec![
        TrialRecord {
            trial_id: 0,
            status: TrialStatus::Completed,
            elapsed_ms: 1,
            error: None,
            fields: map(&[("hp.lr", "0.1")]),
        },
        TrialRecord {
            trial_id: 1,
            status: TrialStatus::Running,
            elapsed_ms: 0,
            error: None,
            fields: map(&[("hp.steps", "3")]),
        },
    ];
    let (headers, rows) = rows_with_headers(&records, "now");
    assert!(headers.contains(&"hp.lr".to_string()));
    assert!(headers.contains(&"hp.steps".to_string()));
    assert_eq!(rows[0].get("hp.steps").map(String::as_str), Some(""));
    assert_eq!(rows[1].get("hp.lr").map(String::as_str), Some(""));
    assert_eq!(rows[1].get("score").map(String::as_str), Some(""));
}

#[test]
fn placeholder_lookup_prefers_plain_then_trial_then_hp() {
    let row = map(&[("trial.epochs", "5"), ("hp.lr", "0.1"), ("seed", "7")]);
    assert_eq!(value_for_placeholder(&row, "seed"), Some(("7".to_string(), "seed".to_string())));
    assert_eq!(
        value_for_placeholder(&row, "epochs"),
        Some(("5".to_string(), "trial.epochs".to_string()))
    );
    assert_eq!(value_for_placeholder(&row, "lr"), Some(("0.1".to_string(), "hp.lr".to_string())));
    assert_eq!(value_for_placeholder(&row, "missing"), None);
}

#[test]
fn hp_fields_keep_only_hyperparameters() {
    let fields = map(&[("hp.lr", "0.1"), ("score", "1"), ("hp.x", "2")]);
    let hp = hp_fields(&fields);
    assert_eq!(hp.len(), 2);
    assert!(!hp.contains_key("score"));
}

#[test]
fn duplicate_search_finds_completed_twin() {
    let rows = vec![
        map(&[("trial_id", "0"), ("status", "error"), ("hp.lr", "0.1")]),
        map(&[("trial_id", "1"), ("status", "ok"), ("trial.config_id", "3"), ("hp.lr", "0.1")]),
        map(&[("trial_id", "2"), ("status", "ok"), ("trial.config_id", "4"), ("hp.lr", "0.1")]),
    ];
    let fields = map(&[("hp.lr", "0.1"), ("score", "9")]);
    assert_eq!(argtuner::trial::store::find_duplicate_in_rows(Some(3), &fields, &rows), Some(2));
    assert_eq!(argtuner::trial::store::find_duplicate_in_rows(None, &fields, &rows), Some(1));
    let other = map(&[("hp.lr", "0.2")]);
    assert_eq!(argtuner::trial::store::find_duplicate_in_rows(None, &other, &rows), None);
}

#[test]
fn command_is_rerendered_from_a_row() {
    let template = CommandTemplate::new("run --lr {lr} --epochs {epochs}");
    let row = map(&[("hp.lr", "0.1"), ("trial.epochs", "5")]);
    let (command, values) = argtuner::trial::store::render_command_with_values(&template, &row)
        .expect("render")
        .expect("all values present");
    assert_eq!(command, "run --lr 0.1 --epochs 5");
    assert_eq!(values.len(), 2);
    assert_eq!(values[0].name, "epochs");
    assert_eq!(values[0].source, "trial.epochs");
    let partial = map(&[("hp.lr", "0.1")]);
    assert!(argtuner::trial::store::render_command_with_values(&template, &partial)
        .expect("render")
        .is_none());
}

#[test]
fn headers_put_metrics_before_trial_fields() {
    let keys: Vec<String> =
        ["metric.loss", "trial.config_id", "hp.lr"].iter().map(|s| s.to_string()).collect();
    let expected: Vec<String> = [
        "trial_id", "status", "elapsed_ms", "error", "metric", "score", "metric.loss",
        "trial.config_id", "hp.lr",
    ]
    .iter()
    .map(|s| s.to_string())
    .collect();
    assert_eq!(ordered_headers(&keys), expected);
}
