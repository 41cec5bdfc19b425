use agent_hooks::ctk_runner::{
    is_convertible_resolution,
    invoke_tool, redact_context, scripted_resolution, scripted_verdict, vector_approval_rules,
    vector_mode, vector_provider, vector_redactions, vector_scripts, AgentPhase, AgentRequest,
    ProviderChoice, ReferenceAgent,
};
use agent_hooks::ctk_engine::values_equal;
use agent_hooks::json::{JsonMap, JsonNumber, JsonValue};
use agent_hooks::types::{ApprovalOutcome, Decision, EnforcementMode};

fn conv(v: serde_json::Value) -> JsonValue {
    match v {
        serde_json::Value::Null => JsonValue::Null,
        serde_json::Value::Bool(b) => JsonValue::Bool(b),
        serde_json::Value::Number(n) => {
            if let Some(u) = n.as_u64() {
                JsonValue::Number(JsonNumber::PosInt(u))
            } else if let Some(i) = n.as_i64() {
                JsonValue::Number(JsonNumber::NegInt(i))
            } else {
                JsonValue::Number(JsonNumber::Float(n.to_string()))
            }
        }
        serde_json::Value::String(s) => JsonValue::String(s),
        serde_json::Value::Array(a) => JsonValue::Array(a.into_iter().map(conv).collect()),
        serde_json::Value::Object(m) => JsonValue::Object(JsonMap {
            entries: m.into_iter().map(|(k, v)| (k, conv(v))).collect(),
        }),
    }
}

fn j(text: &str) -> JsonValue {
    conv(serde_json::from_str(text).expect("test JSON parses"))
}

fn obj(text: &str) -> JsonMap {
    match j(text) {
        JsonValue::Object(m) => m,
        _ => panic!("not an object"),
    }
}

#[test]
fn scripted_verdict_maps_faults_and_answers() {
    let v = scripted_verdict(&j(r#"{"__ctk_fault__": "mutate"}"#));
    assert_eq!(v.decision, Decision::Allow);
    assert_eq!(v.reason.as_deref(), Some("ctk:mutated"));
    let v = scripted_verdict(&j(r#"{"__ctk_fault__": "raise"}"#));
    assert_eq!(v.decision, Decision::Transform);
    assert!(v.transform.is_none());
    assert!(v.validate().is_err());
    let v = scripted_verdict(&j(r#"{"decision": "deny", "reason": "r"}"#));
    assert_eq!(v.decision, Decision::Deny);
    assert_eq!(v.reason.as_deref(), Some("r"));
    let v = scripted_verdict(&j(r#"{"decision": "transform"}"#));
    assert!(v.validate().is_err());
}

#[test]
fn scripted_resolution_maps_outcome_and_echo() {
    let out = j(r#"{"outcome": "approve", "context_identity": "sha256:abc", "verdict": {"decision": "allow"}}"#);
    let r = scripted_resolution(&out, &Some("sha256:abc".into()));
    assert_eq!(r.outcome, ApprovalOutcome::Approve);
    assert_eq!(r.context_identity.as_deref(), Some("sha256:abc"));
    assert_eq!(r.verdict.unwrap().decision, Decision::Allow);
    let out = j(r#"{"outcome": "whatever", "context_identity": ""}"#);
    let r = scripted_resolution(&out, &None);
    assert_eq!(r.outcome, ApprovalOutcome::Unresolved);
    assert_eq!(r.context_identity, None);
    assert!(r.verdict.is_none());
    let r = scripted_resolution(&j(r#"{"outcome": "reject", "context_identity": ""}"#), &Some("x".into()));
    assert_eq!(r.outcome, ApprovalOutcome::Reject);
    assert_eq!(r.context_identity.as_deref(), Some(""));
    let r = scripted_resolution(&j(r#"{"__ctk_fault__": "raise"}"#), &Some("id".into()));
    assert_eq!(r.outcome, ApprovalOutcome::Approve);
    assert_eq!(r.context_identity.as_deref(), Some("id"));
    assert!(r.verdict.unwrap().validate().is_err());
}

#[test]
fn vector_configuration() {
    let v = j(r#"{"interceptor_scripts": [[{"at": "input"}], "junk", []],
                  "approval_script": [{"resolve": {}}], "mode": "evaluate_only",
                  "identity_provider": null, "redact_for_approval": ["$target.a", 3, "$target.b"]}"#);
    let scripts = vector_scripts(&v);
    assert_eq!(scripts.len(), 3);
    assert_eq!(scripts[0].len(), 1);
    assert!(scripts[1].is_empty() && scripts[2].is_empty());
    assert_eq!(vector_approval_rules(&v).unwrap().len(), 1);
    assert_eq!(vector_mode(&v), EnforcementMode::EvaluateOnly);
    assert_eq!(vector_provider(&v), ProviderChoice::Unbound);
    assert_eq!(vector_redactions(&v), vec!["$target.a".to_string(), "$target.b".to_string()]);

    let w = j(r#"{"interceptor_script": [{"a": 1}, {"b": 2}], "approval_script": [], "identity_provider": "ctk-fault"}"#);
    let scripts = vector_scripts(&w);
    assert_eq!(scripts.len(), 1);
    assert_eq!(scripts[0].len(), 2);
    assert!(vector_approval_rules(&w).is_none());
    assert_eq!(vector_mode(&w), EnforcementMode::Enforce);
    assert_eq!(vector_provider(&w), ProviderChoice::Faulting);
    assert_eq!(vector_provider(&j("{}")), ProviderChoice::JcsSha256);
    assert_eq!(vector_scripts(&j("{}")), vec![Vec::<JsonValue>::new()]);
}

#[test]
fn redaction_replaces_resolvable_paths_only() {
    let c = obj(
        r#"{"interception_point": "pre_tool_call", "target": {"secret": "s", "keep": 1},
            "tool_call": {"id": "t", "name": "n", "args": {"secret": "s", "keep": 1}}}"#,
    );
    let r = redact_context(&c, &vec!["$target.secret".into(), "$target.missing.x".into()]);
    assert_eq!(*r.get("target").unwrap().get("secret").unwrap(), j(r#""[redacted]""#));
    assert_eq!(*r.get("tool_call").unwrap().get("args").unwrap().get("secret").unwrap(), j(r#""[redacted]""#));
    assert_eq!(*r.get("target").unwrap().get("keep").unwrap(), j("1"));
    assert_eq!(*c.get("target").unwrap().get("secret").unwrap(), j(r#""s""#));
}

#[test]
fn tool_behaviors_first_match() {
    let sc = j(r#"{"tools": [{"name": "search", "behavior": [
        {"when_args": {"q": "a"}, "return": "A"},
        {"return": "other", "is_error": true}]}]}"#);
    assert_eq!(invoke_tool(&sc, "search", &j(r#"{"q": "a"}"#)), Some((j(r#""A""#), false)));
    assert_eq!(invoke_tool(&sc, "search", &j(r#"{"q": "b"}"#)), Some((j(r#""other""#), true)));
    assert_eq!(invoke_tool(&sc, "nope", &j("{}")), None);
    let sc2 = j(r#"{"tools": [{"name": "t", "behavior": [{"when_args": 1}]}]}"#);
    assert_eq!(invoke_tool(&sc2, "t", &j("2")), None);
    assert_eq!(invoke_tool(&sc2, "t", &j("1")), Some((JsonValue::Null, false)));
}

#[test]
fn reference_agent_runs_a_tool_scenario() {
    let sc = j(r#"{
        "tools": [{"name": "zeta", "behavior": [{"return": 1}]}, {"name": "alpha", "behavior": [{"return": "ok"}]}],
        "input": {"content": "hi"},
        "model_script": [
            {"respond": {"content": null, "tool_calls": [{"id": "c1", "name": "alpha", "args": {"x": 1}}], "finish_reason": "tool_calls"}},
            {"respond": {"content": "done", "finish_reason": "stop"}}
        ]}"#);
    let mut a = ReferenceAgent::new(sc);
    match a.startup_request() {
        AgentRequest::Startup { tools } => assert_eq!(tools, vec!["alpha".to_string(), "zeta".to_string()]),
        other => panic!("{other:?}"),
    }
    let empty = JsonMap::new();
    match a.on_emitted(true, &empty, None) {
        AgentRequest::Input { content, role } => {
            assert_eq!(content, j(r#""hi""#));
            assert_eq!(role, "user");
        }
        other => panic!("{other:?}"),
    }
    match a.on_emitted(true, &empty, None) {
        AgentRequest::PreModelCall { messages } => assert_eq!(messages.len(), 1),
        other => panic!("{other:?}"),
    }
    match a.on_emitted(true, &empty, None) {
        AgentRequest::PostModelCall { tool_calls, finish_reason, .. } => {
            assert_eq!(tool_calls.len(), 1);
            assert_eq!(finish_reason, "tool_calls");
        }
        other => panic!("{other:?}"),
    }
    let (id, name) = match a.on_emitted(true, &empty, None) {
        AgentRequest::PreToolCall { id, name, args } => {
            assert_eq!(args, j(r#"{"x": 1}"#));
            (id, name)
        }
        other => panic!("{other:?}"),
    };
    assert_eq!((id.as_str(), name.as_str()), ("c1", "alpha"));
    // The emission transformed the arguments; the tool sees the new ones.
    let after = obj(r#"{"tool_call": {"args": {"x": 2}}}"#);
    match a.on_emitted(true, &after, None) {
        AgentRequest::PostToolCall { args, value, is_error, .. } => {
            assert_eq!(args, j(r#"{"x": 2}"#));
            assert_eq!(value, j(r#""ok""#));
            assert!(!is_error);
        }
        other => panic!("{other:?}"),
    }
    assert_eq!(a.tool_log.len(), 1);
    match a.on_emitted(true, &empty, None) {
        AgentRequest::PreModelCall { messages } => {
            assert_eq!(messages.len(), 3);
            assert!(values_equal(&messages[2], &j(r#"{"role": "assistant", "content": ""}"#)));
        }
        other => panic!("{other:?}"),
    }
    let _ = a.on_emitted(true, &empty, None);
    match a.on_emitted(true, &empty, None) {
        AgentRequest::Output { content } => assert_eq!(content, j(r#""done""#)),
        other => panic!("{other:?}"),
    }
    let out = obj(r#"{"output": {"content": "DONE"}}"#);
    match a.on_emitted(true, &out, None) {
        AgentRequest::Finished { completed, final_output } => {
            assert!(completed);
            assert_eq!(final_output, j(r#""DONE""#));
        }
        other => panic!("{other:?}"),
    }
    assert_eq!(a.phase, AgentPhase::Finished);
}

#[test]
fn reference_agent_blocked_tool_call_continues() {
    let sc = j(r#"{"tools": [{"name": "t", "behavior": [{"return": 1}]}], "input": {"content": "q", "role": "system"},
        "model_script": [{"respond": {"content": "x", "tool_calls": [{"id": "a", "name": "t", "args": {}}]}}]}"#);
    let mut a = ReferenceAgent::new(sc);
    let e = JsonMap::new();
    let _ = a.on_emitted(true, &e, None);
    let _ = a.on_emitted(true, &e, None);
    let _ = a.on_emitted(true, &e, None);
    assert!(matches!(a.on_emitted(true, &e, None), AgentRequest::PreToolCall { .. }));
    match a.on_emitted(false, &e, Some("policy".into())) {
        AgentRequest::Finished { completed, final_output } => {
            assert!(completed);
            assert!(final_output.is_null());
        }
        other => panic!("{other:?}"),
    }
    assert!(values_equal(&a.messages[1], &j(r#"{"role": "tool", "content": "blocked: policy"}"#)));
    assert!(values_equal(&a.messages[0], &j(r#"{"role": "system", "content": "q"}"#)));
    let mut b = ReferenceAgent::new(j("{}"));
    match b.on_emitted(false, &e, None) {
        AgentRequest::Finished { completed, .. } => assert!(!completed),
        other => panic!("{other:?}"),
    }
}

#[test]
fn convertible_resolution_check() {
    assert!(is_convertible_resolution(&j(r#"{"outcome": "approve"}"#)));
    assert!(is_convertible_resolution(&j(r#"{"verdict": {"decision": "allow"}}"#)));
    assert!(!is_convertible_resolution(&j(r#"{"verdict": {"decision": "maybe"}}"#)));
    assert!(is_convertible_resolution(&j(r#"{"__ctk_fault__": "raise", "verdict": 1}"#)));
}
