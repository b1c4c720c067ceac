//! Store bindings: scalar JSON parsing, rendering, ingest and output.
use sp_runtime::json::{parse_json_value, render_json, render_value};
use sp_runtime::runtime::{ingest_input, now, render_output, IngestError, InputMapping, OutputMapping};
use sp_runtime::snapshot::Json;
use sp_runtime::state::{SpError, StateSpace};
use sp_runtime::value::Value;

#[test]
fn input_value_reaches_state_path_before_sweep() {
    let mut space = StateSpace::new();
    let m = InputMapping { key: "sensor/x".to_string(), var: "robot1.active".to_string() };
    ingest_input(&mut space, &m, "true").unwrap();
    assert_eq!(space.get("robot1.active").unwrap(), Value::Bool(true));
}

#[test]
fn output_renders_value_with_its_expiry() {
    let mut space = StateSpace::new();
    space.set("scratch.counter", Value::Int(3)).unwrap();
    let m = OutputMapping {
        key: "out/counter".to_string(),
        var: "scratch.counter".to_string(),
        ttl: 5,
    };
    let text = render_output(&space, &m).unwrap();
    assert_eq!(text, "3");
    assert_eq!(m.ttl, 5);
    assert_eq!(m.key, "out/counter");
}

#[test]
fn malformed_input_is_skipped_and_changes_nothing() {
    let mut space = StateSpace::new();
    let m = InputMapping { key: "k".to_string(), var: "a.b".to_string() };
    assert_eq!(ingest_input(&mut space, &m, "tru"), Err(IngestError::Malformed));
    assert_eq!(ingest_input(&mut space, &m, ""), Err(IngestError::Malformed));
    assert_eq!(ingest_input(&mut space, &m, "1.5"), Err(IngestError::Malformed));
    assert!(space.get("a.b").is_err());
}

#[test]
fn input_through_a_leaf_is_a_path_error() {
    let mut space = StateSpace::new();
    space.set("a", Value::Int(1)).unwrap();
    let m = InputMapping { key: "k".to_string(), var: "a.b".to_string() };
    assert_eq!(
        ingest_input(&mut space, &m, "2"),
        Err(IngestError::Path(SpError::TypeMismatch))
    );
    assert_eq!(space.get("a").unwrap(), Value::Int(1));
}

#[test]
fn missing_output_path_is_skipped() {
    let space = StateSpace::new();
    let m = OutputMapping { key: "k".to_string(), var: "no.such".to_string(), ttl: 10 };
    assert!(render_output(&space, &m).is_none());
}

#[test]
fn opaque_output_is_skipped() {
    let mut space = StateSpace::new();
    space.set("cb", Value::Opaque).unwrap();
    let m = OutputMapping { key: "k".to_string(), var: "cb".to_string(), ttl: 10 };
    assert!(render_output(&space, &m).is_none());
}

#[test]
fn interior_output_renders_the_subtree() {
    let mut space = StateSpace::new();
    space.set("sub.a", Value::Int(1)).unwrap();
    space.set("sub.b", Value::Str("x".to_string())).unwrap();
    let m = OutputMapping { key: "k".to_string(), var: "sub".to_string(), ttl: 10 };
    assert_eq!(render_output(&space, &m).unwrap(), "{\"a\":1,\"b\":\"x\"}");
}

#[test]
fn parse_accepts_the_scalar_grammar() {
    assert_eq!(parse_json_value("null"), Some(Value::Null));
    assert_eq!(parse_json_value("true"), Some(Value::Bool(true)));
    assert_eq!(parse_json_value("false"), Some(Value::Bool(false)));
    assert_eq!(parse_json_value("0"), Some(Value::Int(0)));
    assert_eq!(parse_json_value("-42"), Some(Value::Int(-42)));
    assert_eq!(
        parse_json_value("9223372036854775807"),
        Some(Value::Int(9223372036854775807))
    );
    assert_eq!(
        parse_json_value("-9223372036854775808"),
        Some(Value::Int(-9223372036854775808))
    );
    assert_eq!(parse_json_value("\"hi\""), Some(Value::Str("hi".to_string())));
    assert_eq!(parse_json_value("\"\""), Some(Value::Str(String::new())));
    assert_eq!(
        parse_json_value("\"a\\\"b\\\\c\""),
        Some(Value::Str("a\"b\\c".to_string()))
    );
}

#[test]
fn parse_rejects_malformed_texts() {
    assert_eq!(parse_json_value(""), None);
    assert_eq!(parse_json_value("-"), None);
    assert_eq!(parse_json_value("-0"), None);
    assert_eq!(parse_json_value("01"), None);
    assert_eq!(parse_json_value("12a"), None);
    assert_eq!(parse_json_value("9223372036854775808"), None);
    assert_eq!(parse_json_value("-9223372036854775809"), None);
    assert_eq!(parse_json_value("\"unterminated"), None);
    assert_eq!(parse_json_value("\"dangling\\\""), None);
    assert_eq!(parse_json_value("\"bad\\x\""), None);
    assert_eq!(parse_json_value("nope"), None);
    assert_eq!(parse_json_value("True"), None);
}

#[test]
fn render_scalar_values() {
    assert_eq!(render_value(&Value::Null).unwrap(), "null");
    assert_eq!(render_value(&Value::Bool(false)).unwrap(), "false");
    assert_eq!(render_value(&Value::Int(-42)).unwrap(), "-42");
    assert_eq!(
        render_value(&Value::Int(-9223372036854775808)).unwrap(),
        "-9223372036854775808"
    );
    assert_eq!(render_value(&Value::Str("a\"b\\c".to_string())).unwrap(), "\"a\\\"b\\\\c\"");
    assert!(render_value(&Value::Opaque).is_none());
}

#[test]
fn render_json_trees() {
    let j = Json::Object(vec![
        ("a".to_string(), Json::Int(1)),
        ("b".to_string(), Json::Object(vec![("c".to_string(), Json::Null)])),
    ]);
    assert_eq!(render_json(&j), "{\"a\":1,\"b\":{\"c\":null}}");
    assert_eq!(render_json(&Json::Object(vec![])), "{}");
}

#[test]
fn parse_render_round_trip_on_scalars() {
    for text in ["null", "true", "false", "0", "7", "-13", "\"robot\"", "\"a\\\"b\""] {
        let v = parse_json_value(text).unwrap();
        assert_eq!(render_value(&v).unwrap(), text);
    }
}

#[test]
fn clock_reads_a_positive_time() {
    assert!(now().as_millis() > 0);
}
