use agent_hooks::ctk_engine::{
    assert_vector, lookup, scripted_intercept, scripted_resolve, should_skip, values_equal, write_debug_str,
    IdentityPair, RunRecord,
};
use agent_hooks::json::{JsonMap, JsonNumber, JsonValue};

fn conv(v: serde_json::Value) -> JsonValue {
    match v {
        serde_json::Value::Null => JsonValue::Null,
        serde_json::Value::Bool(b) => JsonValue::Bool(b),
        serde_json::Value::Number(n) => {
            if let Some(u) = n.as_u64() {
                JsonValue::Number(JsonNumber::PosInt(u))
            } else if let Some(i) = n.as_i64() {
                JsonValue::Number(JsonNumber::NegInt(i))
            } else {
                JsonValue::Number(JsonNumber::Float(n.to_string()))
            }
        }
        serde_json::Value::String(s) => JsonValue::String(s),
        serde_json::Value::Array(a) => JsonValue::Array(a.into_iter().map(conv).collect()),
        serde_json::Value::Object(m) => JsonValue::Object(JsonMap {
            entries: m.into_iter().map(|(k, v)| (k, conv(v))).collect(),
        }),
    }
}

fn j(text: &str) -> JsonValue {
    conv(serde_json::from_str(text).expect("test JSON parses"))
}

fn field<'a>(v: &'a JsonValue, k: &str) -> &'a JsonValue {
    v.get(k).unwrap_or_else(|| panic!("missing {k}"))
}

fn empty_run(outcome: &str) -> RunRecord {
    RunRecord {
        outcome: outcome.into(),
        final_output: JsonValue::Null,
        tool_invocations: vec![],
        error: None,
        identities: vec![],
        records: vec![],
    }
}

#[test]
fn lookup_dotted() {
    let v = j(r#"{"a": {"b": [10, {"c": "x"}]}}"#);
    assert_eq!(lookup(&v, "a.b[1].c"), Some(&j(r#""x""#)));
    assert_eq!(lookup(&v, "a.b[0]"), Some(&j("10")));
    assert_eq!(lookup(&v, "a.missing"), None);
}

#[test]
fn lookup_out_of_range_and_non_container() {
    let v = j(r#"{"a": [1], "s": "str"}"#);
    assert_eq!(lookup(&v, "a[5]"), None);
    assert_eq!(lookup(&v, "s.x"), None);
    assert_eq!(lookup(&v, "a[0]"), Some(&j("1")));
}

#[test]
fn values_equal_is_structural() {
    assert!(values_equal(&j(r#"{"a": [1, "x", null]}"#), &j(r#"{"a": [1, "x", null]}"#)));
    assert!(!values_equal(&j(r#"{"a": 1}"#), &j(r#"{"a": 2}"#)));
    assert!(!values_equal(&j("[1, 2]"), &j("[1]")));
    assert!(!values_equal(&j("1"), &j(r#""1""#)));
}

#[test]
fn scripted_intercept_first_match() {
    let rules = vec![
        j(r#"{"at": "pre_tool_call", "match": {"tool_call.name": "x"}, "return": {"decision": "deny"}}"#),
        j(r#"{"at": "pre_tool_call", "return": {"decision": "allow", "warnings": [{"reason": "ctk:advisory"}]}}"#),
    ];
    let c = j(r#"{"interception_point": "pre_tool_call", "tool_call": {"name": "x"}}"#);
    assert_eq!(*field(&scripted_intercept(&rules, &c), "decision"), j(r#""deny""#));
    let c2 = j(r#"{"interception_point": "pre_tool_call", "tool_call": {"name": "y"}}"#);
    let v2 = scripted_intercept(&rules, &c2);
    assert_eq!(*field(&v2, "decision"), j(r#""allow""#));
    let w = field(&v2, "warnings").as_array().unwrap();
    assert_eq!(*field(&w[0], "reason"), j(r#""ctk:advisory""#));
    let c3 = j(r#"{"interception_point": "input"}"#);
    assert_eq!(*field(&scripted_intercept(&rules, &c3), "decision"), j(r#""allow""#));
}

#[test]
fn scripted_resolve_echoes_identity() {
    let rules = vec![j(r#"{"resolve": {"outcome": "approve", "verdict": {"decision": "allow"}}}"#)];
    let out = scripted_resolve(&rules, &j("{}"), "sha256:abc");
    assert_eq!(*field(&out, "context_identity"), j(r#""sha256:abc""#));
    assert_eq!(*field(&out, "outcome"), j(r#""approve""#));
}

#[test]
fn scripted_intercept_fault_sentinels() {
    let rules = vec![
        j(r#"{"at": "input", "fault": "raise"}"#),
        j(r#"{"at": "output", "fault": "malformed_verdict"}"#),
    ];
    let raised = scripted_intercept(&rules, &j(r#"{"interception_point": "input"}"#));
    assert_eq!(*field(&raised, "__ctk_fault__"), j(r#""raise""#));
    let malformed = scripted_intercept(&rules, &j(r#"{"interception_point": "output"}"#));
    assert_eq!(*field(&malformed, "decision"), j(r#""transform""#));
    assert!(malformed.get("transform").is_none());
}

#[test]
fn scripted_resolve_fault_and_identity_override() {
    let raise_rules = vec![j(r#"{"resolve": {"fault": "raise"}}"#)];
    let out = scripted_resolve(&raise_rules, &j("{}"), "sha256:abc");
    assert_eq!(*field(&out, "__ctk_fault__"), j(r#""raise""#));
    let override_rules = vec![j(
        r#"{"resolve": {"outcome": "approve", "verdict": {"decision": "allow"}, "identity_override": "sha256:0000"}}"#,
    )];
    let out = scripted_resolve(&override_rules, &j("{}"), "sha256:abc");
    assert_eq!(*field(&out, "context_identity"), j(r#""sha256:0000""#));
    assert_eq!(*field(&out, "outcome"), j(r#""approve""#));
}

#[test]
fn should_skip_subset() {
    let v = j(r#"{"capabilities": ["tool_calls"]}"#);
    assert!(should_skip(&v, &vec!["model_calls".to_string()]).is_some());
    assert!(should_skip(&v, &vec!["model_calls".to_string(), "tool_calls".to_string()]).is_none());
    assert!(should_skip(&j("{}"), &vec![]).is_none());
}

#[test]
fn assert_vector_pass() {
    let vector = j(
        r#"{"id": "T", "title": "t", "expect": {"interceptions": [{"interception_point": "input"}],
            "sequence_strict": true, "run_outcome": "completed"}}"#,
    );
    let recorded = vec![j(
        r#"{"spec": "agent-hooks/0.1", "interception_point": "input", "timestamp": "t", "sequence": 0,
            "agent": {"id":"a","framework":"x"}, "session": {"id":"s"}, "target": {}}"#,
    )];
    let rr = empty_run("completed");
    let r = assert_vector(&vector, &recorded, &rr);
    assert_eq!(r.status, "pass", "{:?}", r.failures);
    assert_eq!(r.id, "T");
    assert_eq!(r.title, "t");
}

#[test]
fn assert_vector_reports_outcome_mismatch() {
    let vector = j(r#"{"id": "T2", "expect": {"run_outcome": "completed"}}"#);
    let rr = empty_run("blocked");
    let r = assert_vector(&vector, &vec![], &rr);
    assert_eq!(r.status, "fail");
    assert!(!r.failures.is_empty());
}

#[test]
fn assert_vector_checks_identity_expectations() {
    let vector = j(r#"{"id": "T3", "expect": {"identities_equal": true, "run_outcome": "completed"}}"#);
    let mut rr = empty_run("completed");
    rr.identities.push(IdentityPair { input_identity: Some("sha256:a".into()), enforced_identity: Some("sha256:b".into()) });
    let r = assert_vector(&vector, &vec![], &rr);
    let mut rr2 = empty_run("completed");
    rr2.identities.push(IdentityPair { input_identity: Some("sha256:a".into()), enforced_identity: Some("sha256:a".into()) });
    let r2 = assert_vector(&vector, &vec![], &rr2);
    assert_eq!(
        r.failures,
        vec!["identities_equal: expected input==enforced at every interception, but they differ at indices [0]".to_string()]
    );
    assert_eq!(r2.status, "pass");
}

#[test]
fn diagnostic_strings_quote_like_debug() {
    for text in ["plain", "q\"uote\\", "tab\tnl\ncr\rnul\0", "ctl\u{1}\u{1b}\u{1f}del\u{7f}", "é✓"] {
        let mut out = String::new();
        write_debug_str(text, &mut out);
        assert_eq!(out, format!("{:?}", text));
    }
}
