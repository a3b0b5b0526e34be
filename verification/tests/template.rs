use argtuner::command::template::{strip_tokens, CommandTemplate, TemplateError};
use argtuner::fields::FieldMap;

fn values(pairs: &[(&str, &str)]) -> FieldMap {
    let mut m = FieldMap::new();
    for (k, v) in pairs {
        m.insert(k.to_string(), v.to_string());
    }
    m
}

#[test]
fn render_replaces_placeholders() {
    let template = CommandTemplate::new("run --lr {lr} --steps {steps}");
    let values = values(&[("lr", "0.01"), ("steps", "100")]);
    let rendered = template.render(&values).expect("rendered");
    assert_eq!(rendered, "run --lr 0.01 --steps 100");
}

#[test]
fn render_handles_escaped_braces() {
    let template = CommandTemplate::new("echo {{braces}} {value}");
    let values = values(&[("value", "ok")]);
    let rendered = template.render(&values).expect("rendered");
    assert_eq!(rendered, "echo {braces} ok");
}

#[test]
fn render_quotes_values_with_spaces() {
    let template = CommandTemplate::new("run --out {dir}");
    let values = values(&[("dir", "with spaces")]);
    let rendered = template.render(&values).expect("rendered");
    assert_eq!(rendered, "run --out 'with spaces'");
}

#[test]
fn strip_inactive_flags_removes_two_token_segment() {
    let template = CommandTemplate::new("run --lr {lr} --momentum {momentum} --steps {steps}");
    let stripped = template
        .strip_inactive_flags(&["momentum".to_string()])
        .expect("stripped");
    assert_eq!(stripped, "run --lr {lr} --steps {steps}");
}

#[test]
fn strip_inactive_flags_removes_eq_form() {
    let template = CommandTemplate::new("run --lr {lr} --momentum={momentum}");
    let stripped = template
        .strip_inactive_flags(&["momentum".to_string()])
        .expect("stripped");
    assert_eq!(stripped, "run --lr {lr}");
}

#[test]
fn strip_inactive_flags_preserves_quoted_literals() {
    let template = CommandTemplate::new("run --out \"my dir\" --momentum {momentum}");
    let stripped = template
        .strip_inactive_flags(&["momentum".to_string()])
        .expect("stripped");
    assert_eq!(stripped, "run --out 'my dir'");
}

#[test]
fn render_reports_missing_value() {
    let template = CommandTemplate::new("run {a} {b}");
    let values = values(&[("a", "1")]);
    match template.render(&values) {
        Err(argtuner::command::template::TemplateError::MissingValue(name)) => assert_eq!(name, "b"),
        other => panic!("expected a missing value, got {other:?}"),
    }
}

#[test]
fn render_reports_unclosed_placeholder() {
    let template = CommandTemplate::new("run {a");
    let values = values(&[("a", "1")]);
    assert!(matches!(
        template.render(&values),
        Err(argtuner::command::template::TemplateError::UnclosedPlaceholder)
    ));
}

#[test]
fn render_trims_placeholder_names() {
    let template = CommandTemplate::new("run { a }");
    let values = values(&[("a", "x")]);
    assert_eq!(template.render(&values).expect("rendered"), "run x");
}

#[test]
fn placeholders_are_sorted_and_distinct() {
    let template = CommandTemplate::new("run {b} {a} {{c}} {b}");
    assert_eq!(template.placeholders().expect("names"), vec!["a".to_string(), "b".to_string()]);
    let broken = CommandTemplate::new("run {b");
    assert!(broken.placeholders().is_err());
}

#[test]
fn strip_inactive_flags_reports_unbalanced_quotes() {
    let template = CommandTemplate::new("run --out \"unterminated");
    match template.strip_inactive_flags(&[]) {
        Err(argtuner::command::template::TemplateError::InvalidConditional(msg)) => {
            assert_eq!(msg, "template tokenize failed: missing closing quote")
        }
        other => panic!("expected a tokenize failure, got {other:?}"),
    }
}

#[test]
fn embed_json_doubles_braces() {
    assert_eq!(CommandTemplate::embed_json("{\"a\":{}}"), "{{\"a\":{{}}}}");
    assert_eq!(
        CommandTemplate::embed_json_for_toml("{\"a\":1}"),
        "{{\\\"a\\\":1}}"
    );
}

#[test]
fn as_str_returns_the_template() {
    let template = CommandTemplate::new("run {x}");
    assert_eq!(template.as_str(), "run {x}");
}

#[test]
fn strip_inactive_flags_rejects_positional_placeholder() {
    let template = CommandTemplate::new("run {momentum}");
    match template.strip_inactive_flags(&["momentum".to_string()]) {
        Err(argtuner::command::template::TemplateError::InvalidConditional(msg)) => {
            assert!(msg.contains("'momentum' must be bound to a named --flag"), "{msg}")
        }
        other => panic!("expected an invalid conditional, got {other:?}"),
    }
    // The first inactive name that is loose is the one reported.
    let template = CommandTemplate::new("run --a {a} {b} {c}");
    match template.strip_inactive_flags(&["a".to_string(), "c".to_string(), "b".to_string()]) {
        Err(argtuner::command::template::TemplateError::InvalidConditional(msg)) => {
            assert!(msg.starts_with("conditional parameter 'c'"), "{msg}")
        }
        other => panic!("expected an invalid conditional, got {other:?}"),
    }
}

#[test]
fn quoting_escapes_single_quotes_and_keeps_plain_words() {
    let template = CommandTemplate::new("run --msg {m} --n {n}");
    let rendered = template.render(&values(&[("m", "it's here"), ("n", "a=b")])).expect("rendered");
    // `a=b` has no white space, so render leaves it alone.
    assert_eq!(rendered, "run --msg 'it'\\''s here' --n a=b");
    // Stripping re-quotes every kept token: `a=b` holds `=`, an empty word is `''`.
    let t = CommandTemplate::new("run a=b '' plain --x {x}");
    assert_eq!(t.strip_inactive_flags(&["x".to_string()]).expect("stripped"), "run 'a=b' '' plain");
}

#[test]
fn strip_tokens_works_on_given_words() {
    let words = |v: &[&str]| v.iter().map(|s| s.to_string()).collect::<Vec<String>>();
    let inactive = words(&["m"]);
    assert_eq!(
        strip_tokens(&words(&["run", "--m", "{m}", "--out", "my dir", "--k={m}"]), &inactive).expect("stripped"),
        "run --out 'my dir'"
    );
    match strip_tokens(&words(&["run", "{m}"]), &inactive) {
        Err(TemplateError::InvalidConditional(msg)) => assert!(msg.contains("'m' must be bound"), "{msg}"),
        other => panic!("expected an invalid conditional, got {other:?}"),
    }
}
