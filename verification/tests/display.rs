use argtuner::text::i64_text;
use argtuner::display::{
    charts_window_title, display_axis_name, hparam_lines, is_multi_objective,
    metric_axis_title, metric_unit_from_key, short_axis_label, short_param_label, truncate_label,
    ChartMode, ChartView, TrialRow,
};
use argtuner::fields::FieldMap;

fn row(id: i64, pairs: &[(&str, &str)]) -> TrialRow {
    let mut fields = FieldMap::new();
    for (k, v) in pairs {
        fields.insert(k.to_string(), v.to_string());
    }
    TrialRow { trial_id: id, status: "ok".to_string(), elapsed_ms: 0, error: None, fields }
}

#[test]
fn labels_are_cut_to_their_width() {
    assert_eq!(truncate_label("learning_rate", 20), "learning_rate");
    assert_eq!(truncate_label("learning_rate", 8), "learn...");
    assert_eq!(truncate_label("learning_rate", 3), "lea");
    assert_eq!(truncate_label("learning_rate", 0), "");
    // Width counts bytes: "é" takes two.
    assert_eq!(truncate_label("ééé", 6), "ééé");
    assert_eq!(truncate_label("éééé", 6), "ééé...");
}

#[test]
fn param_labels_prefer_the_last_segment() {
    assert_eq!(short_param_label("hp.optimizer.lr_decay", 20), "lr_decay");
    assert_eq!(short_param_label("hp.model.xy", 20), "model.xy");
    assert_eq!(short_param_label("hp.batch_size", 6), "bat...");
    assert_eq!(short_axis_label("metric.loss", 10), "loss");
    assert_eq!(short_axis_label("hp.a.beta", 10), "beta");
    assert_eq!(short_axis_label("score", 10), "score");
}

#[test]
fn axis_names_drop_their_namespace() {
    assert_eq!(display_axis_name("hp.hp.lr"), "lr");
    assert_eq!(display_axis_name("metric.loss"), "loss");
    assert_eq!(display_axis_name("metric.metric.loss"), "metric.loss");
    assert_eq!(display_axis_name("score"), "score");
}

#[test]
fn metric_units_come_from_the_key() {
    assert_eq!(metric_unit_from_key("metric.time_ms"), Some("ms"));
    assert_eq!(metric_unit_from_key("metric.elapsed_s"), Some("s"));
    assert_eq!(metric_unit_from_key("metric.acc_pct"), Some("%"));
    assert_eq!(metric_unit_from_key("metric.loss"), None);
    assert_eq!(metric_axis_title("metric.time_ms"), "metric.time_ms (ms)");
    assert_eq!(metric_axis_title("metric.loss"), "metric.loss");
}

#[test]
fn chart_titles_name_the_view() {
    assert_eq!(
        charts_window_title(ChartMode::Metrics, ChartView::Focused, 0, 3, true, Some(7)),
        "Trial 7 - Metric Curve 1/3"
    );
    assert_eq!(charts_window_title(ChartMode::Metrics, ChartView::Focused, 1, 3, false, None), "Metric Curves");
    assert_eq!(charts_window_title(ChartMode::Metrics, ChartView::Summary, 1, 3, true, Some(-2)), "Trial -2 - Metric Curves");
    assert_eq!(charts_window_title(ChartMode::HyperParams, ChartView::Focused, 0, 0, true, None), "Hyperparameter Space");
    assert_eq!(
        charts_window_title(ChartMode::Metrics, ChartView::Focused, usize::MAX, 2, true, None),
        format!("Metric Curve {}/2", usize::MAX)
    );
    assert_eq!(i64_text(i64::MIN), i64::MIN.to_string());
}

#[test]
fn multi_objective_runs_have_objective_scores() {
    assert!(!is_multi_objective(&[row(0, &[("score", "1.0")])]));
    assert!(is_multi_objective(&[row(0, &[("score", "1.0")]), row(1, &[("score.loss", "0.5")])]));
    assert!(!is_multi_objective(&[]));
}

#[test]
fn hparam_lines_list_hyperparameters_in_key_order() {
    let r = row(3, &[("hp.lr", "0.1"), ("hp.batch", "32"), ("metric.loss", "0.5")]);
    assert_eq!(
        hparam_lines(&r),
        vec![
            "  Hyperparameters:".to_string(),
            format!("    {:<20} {}", "batch", "32"),
            format!("    {:<20} {}", "lr", "0.1"),
        ]
    );
    assert!(hparam_lines(&row(4, &[("score", "1")])).is_empty());
}
