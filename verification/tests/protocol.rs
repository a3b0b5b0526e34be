use argtuner::constants::EventKind;
use argtuner::command::subprocess::ipc::{
    parse_line, parse_output, parse_prefix_lines, strip_ansi, ParsedItem,
};
use argtuner::command::subprocess::runner::CommandOutput;

const PREFIX: &str = "::ARGTUNER::";

fn event_line(metric: &str) -> String {
    format!(
        r#"{PREFIX}{{"type":"event","name":"model.epoch_end","fields":{{"metric":"{metric}"}}}}"#
    )
}

#[test]
fn parse_line_plain_log_returns_empty() {
    assert!(parse_line("info: still running", PREFIX).unwrap().is_empty());
}

#[test]
fn parse_line_protocol_event() {
    let items = parse_line(&event_line("0.42"), PREFIX).unwrap();
    assert_eq!(items.len(), 1);
    match &items[0] {
        ParsedItem::Event { name, fields } => {
            assert_eq!(name, "model.epoch_end");
            assert_eq!(fields.get("metric").map(String::as_str), Some("0.42"));
        }
        other => panic!("expected event, got {other:?}"),
    }
}

#[test]
fn parse_line_glued_after_progress_fragment() {
    let line = format!("\u{1b}[2K\rtrain 1/3 [###---] step 5/10{}", event_line("0.5"));
    let items = parse_line(&line, PREFIX).unwrap();
    assert_eq!(items.len(), 1);
    match &items[0] {
        ParsedItem::Event { name, fields } => {
            assert_eq!(name, "model.epoch_end");
            assert_eq!(fields.get("metric").map(String::as_str), Some("0.5"));
        }
        other => panic!("expected event, got {other:?}"),
    }
}

#[test]
fn parse_line_trailing_cr_from_pty() {
    let items = parse_line(&format!("{}\r", event_line("0.7")), PREFIX).unwrap();
    assert_eq!(items.len(), 1);
}

#[test]
fn parse_line_prefix_without_payload_returns_empty() {
    assert!(parse_line(PREFIX, PREFIX).unwrap().is_empty());
    assert!(parse_line(&format!("{PREFIX}   "), PREFIX).unwrap().is_empty());
}

#[test]
fn parse_result_payload_uses_last_matching_line() {
    let event1 = r#"{"type":"event","name":"model.epoch_end","fields":{"metric":"0.5","epoch":"1"}}"#;
    let event2 = r#"{"type":"event","name":"model.epoch_end","fields":{"aux":"123","metric":"0.9","epoch":"2"}}"#;
    let event3 = r#"{"type":"event","name":"model.epoch_end","fields":{"metric":"0.2","epoch":"3"}}"#;
    let output_str = format!(
        "info: start\n{}{}\n{}{}\ninfo: still running\n{}{}\ndone\n",
        PREFIX, event1, PREFIX, event2, PREFIX, event3
    );
    let output = CommandOutput {
        stdout: output_str,
        _stderr: String::new(),
        exit_code: 0,
    };
    let payload = output.parse_payload(PREFIX).expect("payload");
    let metric: f64 = payload.data.get("metric").expect("metric").trim().parse().expect("numeric");
    assert_eq!(metric, 0.2);
    assert!(!payload.data.contains_key("aux"));
}

#[test]
fn strip_ansi_removes_csi_and_osc_sequences() {
    assert_eq!(strip_ansi("\u{1b}[31mred\u{1b}[0m"), "red");
    assert_eq!(strip_ansi("a\u{1b}]0;title\u{7}b"), "ab");
    assert_eq!(strip_ansi("a\u{1b}]0;title\u{1b}\\b"), "ab");
    assert_eq!(strip_ansi("a\u{1b}xb"), "axb");
    assert_eq!(strip_ansi("a\u{1b}[12"), "a");
}

#[test]
fn result_message_yields_fields_in_key_order() {
    let line = format!(r#"{PREFIX}{{"type":"result","fields":{{"b":"2","a":"1"}}}}"#);
    let items = parse_line(&line, PREFIX).unwrap();
    assert_eq!(items.len(), 2);
    match (&items[0], &items[1]) {
        (
            ParsedItem::Result { name: n0, value: v0 },
            ParsedItem::Result { name: n1, value: v1 },
        ) => {
            assert_eq!((n0.as_str(), v0.as_str()), ("a", "1"));
            assert_eq!((n1.as_str(), v1.as_str()), ("b", "2"));
        }
        other => panic!("expected results, got {other:?}"),
    }
}

#[test]
fn malformed_message_is_an_error() {
    let line = format!(r#"{PREFIX}{{"type":"bogus","fields":{{}}}}"#);
    let err = parse_line(&line, PREFIX).unwrap_err();
    assert!(err.starts_with("parse failed: "));
    let line = format!(r#"{PREFIX}{{"type":"event","fields":{{}}}}"#);
    assert_eq!(parse_line(&line, PREFIX).unwrap_err(), "parse failed: missing field `name`");
    let line = format!(r#"{PREFIX}{{"type":"event","name":"model.epoch_end","fields":{{"metric":42}}}}"#);
    assert!(parse_line(&line, PREFIX).is_err());
    let line = format!("{PREFIX}not json");
    assert!(parse_line(&line, PREFIX).unwrap_err().starts_with("parse failed: "));
}

#[test]
fn parse_output_collects_items_of_every_line() {
    let output = format!("a\n{}\nb\n{}\n", event_line("1"), event_line("2"));
    let items = parse_output(&output, PREFIX).unwrap();
    assert_eq!(items.len(), 2);
    let groups = parse_prefix_lines(&output, PREFIX).unwrap();
    assert_eq!(groups.len(), 2);
}

#[test]
fn talkback_groups_keep_empty_result_lines() {
    let output = format!("{PREFIX}{{\"type\":\"result\",\"fields\":{{}}}}\n{}\n", event_line("1"));
    let ipc_groups = parse_prefix_lines(&output, PREFIX).unwrap();
    assert_eq!(ipc_groups.len(), 1);
    let talkback_groups =
        argtuner::command::subprocess::talkback::parse_prefix_lines(&output, PREFIX).unwrap();
    assert_eq!(talkback_groups.len(), 2);
    assert!(talkback_groups[0].is_empty());
}

#[test]
fn split_lines_follows_str_lines() {
    let text = "a\r\nb\n\nc\r";
    let expected: Vec<String> = text.lines().map(str::to_string).collect();
    assert_eq!(argtuner::command::subprocess::ipc::split_lines(text), expected);
    assert!(argtuner::command::subprocess::ipc::split_lines("").is_empty());
}

#[test]
fn payload_records_events_and_invalid_config_error() {
    let stdout = format!(
        "{PREFIX}{{\"type\":\"event\",\"name\":\"model.invalid_config\",\"fields\":{{\"error\":\"bad hp\"}}}}\n"
    );
    let output = CommandOutput { stdout, _stderr: String::new(), exit_code: 0 };
    let payload = output.parse_payload(PREFIX).expect("payload");
    assert!(payload.get_bool("model.invalid_config"));
    assert_eq!(payload.data.get("error").map(String::as_str), Some("bad hp"));
    assert_eq!(payload.data.get("model.invalid_config.error").map(String::as_str), Some("bad hp"));
    let fields = payload.to_fields();
    assert_eq!(fields.get("metric.error").map(String::as_str), Some("bad hp"));
    assert_eq!(fields.get("model.invalid_config").map(String::as_str), Some("true"));
}

#[test]
fn payload_parse_error_is_reported() {
    let output = CommandOutput {
        stdout: format!("{PREFIX}{{oops\n"),
        _stderr: String::new(),
        exit_code: 0,
    };
    let err = output.parse_payload(PREFIX).unwrap_err();
    assert!(err.starts_with("parse error: parse failed: "));
}

#[test]
fn epoch_fields_are_namespaced() {
    let output = CommandOutput {
        stdout: format!("{}\n{}\n", event_line("0.5"), event_line("0.25")),
        _stderr: String::new(),
        exit_code: 0,
    };
    let payload = output.parse_payload(PREFIX).expect("payload");
    assert_eq!(payload.epoch_results.len(), 2);
    let epochs = payload.epoch_fields();
    assert_eq!(epochs[0].get("metric.metric").map(String::as_str), Some("0.5"));
    assert_eq!(epochs[1].get("model.epoch_end").map(String::as_str), Some("true"));
}

#[test]
fn event_kind_accepts_legacy_names() {
    assert_eq!(EventKind::from_name("epoch_end"), Some(EventKind::EpochEnd));
    assert_eq!(EventKind::from_name("model.epoch_end"), Some(EventKind::EpochEnd));
    assert_eq!(EventKind::from_name("model.does_not_exist"), None);
    assert_eq!(EventKind::TunerApiVersion.as_str(), "tuner.binding_version");
}

#[test]
fn output_fails_with_the_first_failing_line() {
    let bad1 = format!("{PREFIX}{{not json");
    let bad2 = format!("{PREFIX}[1,2]");
    let output = format!("log\n{}\n{bad1}\n{bad2}\n{}", event_line("0.1"), event_line("0.2"));
    let first_err = parse_line(&bad1, PREFIX).expect_err("malformed");
    assert_eq!(parse_output(&output, PREFIX).expect_err("fails"), first_err);
    assert_eq!(parse_prefix_lines(&output, PREFIX).expect_err("fails"), first_err);
    let good = format!("{}\nlog\n{PREFIX}\n{}", event_line("0.1"), event_line("0.2"));
    let mut flat = Vec::new();
    let mut groups = Vec::new();
    for line in good.lines() {
        let items = parse_line(line, PREFIX).expect("line parses");
        flat.extend(items.iter().map(|i| i.clone_item()));
        if !items.is_empty() {
            groups.push(items);
        }
    }
    assert_eq!(format!("{:?}", parse_output(&good, PREFIX).expect("parses")), format!("{flat:?}"));
    assert_eq!(
        format!("{:?}", parse_prefix_lines(&good, PREFIX).expect("parses")),
        format!("{groups:?}")
    );
    assert_eq!(groups.len(), 2);
}
