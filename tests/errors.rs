use git_cliff_core::casing::upper_first;
use git_cliff_core::error::{parse_error, render_error, translate_error, ChangelogError, Stage};
use std::collections::HashMap;

#[test]
fn cause_becomes_parse_error() {
    let e = tera::Error::msg("outer");
    match translate_error(Stage::Parse, Some("inner".to_string()), e) {
        ChangelogError::TemplateParseError(m) => assert_eq!(m, "inner"),
        other => panic!("unexpected {:?}", other),
    }
}

#[test]
fn cause_becomes_render_error() {
    let e = tera::Error::msg("outer");
    match translate_error(Stage::Render, Some("inner".to_string()), e) {
        ChangelogError::TemplateRenderError(m) => assert_eq!(m, "inner"),
        other => panic!("unexpected {:?}", other),
    }
}

#[test]
fn no_cause_wraps_engine_error() {
    let e = tera::Error::msg("plain");
    match translate_error(Stage::Render, None, e) {
        ChangelogError::TemplateError(inner) => assert_eq!(inner.to_string(), "plain"),
        other => panic!("unexpected {:?}", other),
    }
    match parse_error(tera::Error::msg("plain")) {
        ChangelogError::TemplateError(inner) => assert_eq!(inner.to_string(), "plain"),
        other => panic!("unexpected {:?}", other),
    }
}

#[test]
fn unclosed_loop_gives_parse_error_with_inner_message() {
    let mut engine = tera::Tera::default();
    let e = engine
        .add_raw_template("template", "{% for c in commits %}{{ c.message }}")
        .unwrap_err();
    match parse_error(e) {
        ChangelogError::TemplateParseError(m) => {
            assert!(!m.is_empty());
            assert!(!m.contains("Failed to parse"));
        }
        other => panic!("unexpected {:?}", other),
    }
}

#[test]
fn unknown_variable_gives_render_error() {
    let mut engine = tera::Tera::default();
    engine.add_raw_template("template", "{{ missing }}").unwrap();
    let e = engine.render("template", &tera::Context::new()).unwrap_err();
    match render_error(e) {
        ChangelogError::TemplateRenderError(m) => {
            assert!(m.contains("missing"));
            assert!(!m.contains("Failed to render"));
        }
        other => panic!("unexpected {:?}", other),
    }
}

#[test]
fn upper_first_filter_in_a_template() {
    let mut engine = tera::Tera::default();
    engine
        .add_raw_template(
            "template",
            "{% for c in commits %}{{ c.message | upper_first }}\n{% endfor %}",
        )
        .unwrap();
    engine.register_filter(
        "upper_first",
        |v: &tera::Value, _: &HashMap<String, tera::Value>| match v.as_str() {
            Some(s) => Ok(tera::Value::String(upper_first(s))),
            None => Err(tera::Error::msg("not a string")),
        },
    );
    let mut commits = Vec::new();
    for m in ["add xyz", "fix abc"] {
        let mut c = HashMap::new();
        c.insert("message".to_string(), m.to_string());
        commits.push(c);
    }
    let mut context = tera::Context::new();
    context.insert("commits", &commits);
    assert_eq!(engine.render("template", &context).unwrap(), "Add xyz\nFix abc\n");
}
