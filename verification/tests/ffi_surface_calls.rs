use agent_hooks::composition::{CompositionConfig, CompositionProfile, OnApproval, SynthesisPolicy};
use agent_hooks::ffi_surface::{
    apply_transform, apply_transform_ctx, canonical_json, compose_aggregate, context_identity, finalize,
    parse_mode, spec_version, validate_envelope, validate_transform_ctx, validate_verdict,
};
use agent_hooks::json::{JsonMap, JsonNumber, JsonValue};
use agent_hooks::types::{Decision, EnforcementMode, Verdict};
use agent_hooks::verdict::from_wire;

fn conv(v: serde_json::Value) -> JsonValue {
    match v {
        serde_json::Value::Null => JsonValue::Null,
        serde_json::Value::Bool(b) => JsonValue::Bool(b),
        serde_json::Value::Number(n) => {
            if let Some(u) = n.as_u64() {
                JsonValue::Number(JsonNumber::PosInt(u))
            } else if let Some(i) = n.as_i64() {
                JsonValue::Number(JsonNumber::NegInt(i))
            } else {
                JsonValue::Number(JsonNumber::Float(n.to_string()))
            }
        }
        serde_json::Value::String(s) => JsonValue::String(s),
        serde_json::Value::Array(a) => JsonValue::Array(a.into_iter().map(conv).collect()),
        serde_json::Value::Object(m) => JsonValue::Object(JsonMap {
            entries: m.into_iter().map(|(k, v)| (k, conv(v))).collect(),
        }),
    }
}

fn j(text: &str) -> JsonValue {
    conv(serde_json::from_str(text).expect("test JSON parses"))
}

fn obj(text: &str) -> JsonMap {
    match j(text) {
        JsonValue::Object(m) => m,
        _ => panic!("not an object"),
    }
}

fn verdicts(text: &str) -> Vec<Verdict> {
    match j(text) {
        JsonValue::Array(a) => a.iter().map(|v| from_wire(v).expect("valid verdict")).collect(),
        _ => panic!("not an array"),
    }
}

fn strictest(on_conflict: Option<SynthesisPolicy>) -> CompositionConfig {
    CompositionConfig {
        profile: CompositionProfile::ParallelStrictest,
        on_approval: None,
        on_disagreement: None,
        on_transform_conflict: on_conflict,
    }
}

#[test]
fn compose_aggregate_strictest_winner() {
    let out = compose_aggregate(
        strictest(None),
        verdicts(r#"[{"decision": "allow"}, {"decision": "deny", "reason": "nope"}, {"decision": "deny", "approval": {}}]"#),
    )
    .unwrap();
    assert_eq!(out.decided_by, Some(1));
    assert!(!out.consult);
    assert_eq!(out.combined.decision, Decision::Deny);
    assert_eq!(out.verdicts.len(), 3);
}

#[test]
fn compose_aggregate_liftable_consult() {
    let out = compose_aggregate(
        strictest(None),
        verdicts(r#"[{"decision": "allow"}, {"decision": "deny", "approval": {}}]"#),
    )
    .unwrap();
    assert!(out.consult);
    assert_eq!(out.decided_by, Some(1));
}

#[test]
fn compose_aggregate_transform_conflict() {
    let t = r#"{"decision": "transform", "transform": {"path": "$target.x", "value": 1}}"#;
    let two = format!("[{t}, {t}]");
    let out = compose_aggregate(strictest(Some(SynthesisPolicy::Deny)), verdicts(&two)).unwrap();
    assert_eq!(out.combined.reason.as_deref(), Some("host_error:transform_conflict"));
    assert!(!out.consult);
    let out = compose_aggregate(strictest(Some(SynthesisPolicy::Approval)), verdicts(&two)).unwrap();
    assert!(out.consult);
}

#[test]
fn compose_aggregate_unanimous() {
    let cfg = CompositionConfig::unanimous(SynthesisPolicy::Deny, SynthesisPolicy::Deny);
    let out = compose_aggregate(
        cfg,
        verdicts(r#"[{"decision": "allow"}, {"decision": "transform", "transform": {"path": "$target.x", "value": 1}}]"#),
    )
    .unwrap();
    assert_eq!(out.combined.reason.as_deref(), Some("host_error:composition_disagreement"));
    let out = compose_aggregate(
        cfg,
        verdicts(r#"[{"decision": "allow"}, {"decision": "allow", "result_labels": ["l"]}]"#),
    )
    .unwrap();
    assert_eq!(out.combined.decision, Decision::Allow);
    assert_eq!(out.combined.result_labels, vec!["l"]);
}

#[test]
fn compose_aggregate_parallel_single_transform_flagged() {
    let out = compose_aggregate(
        strictest(None),
        verdicts(r#"[{"decision": "allow"}, {"decision": "transform", "transform": {"path": "$target.x", "value": 1}}]"#),
    )
    .unwrap();
    assert!(out.apply_transform);
    assert_eq!(out.decided_by, Some(1));
}

#[test]
fn compose_aggregate_errors() {
    let (code, detail) = compose_aggregate(strictest(None), vec![]).unwrap_err();
    assert_eq!(code, "host_error:no_interceptor");
    assert_eq!(detail, "empty verdict list");
    let bad = Verdict { decision: Decision::Transform, ..Verdict::allow() };
    let (code, detail) = compose_aggregate(strictest(None), vec![Verdict::allow(), bad]).unwrap_err();
    assert_eq!(code, "host_error:verdict_invalid");
    assert_eq!(detail, "verdicts[1]: fails the §5 gate");
}

#[test]
fn compose_sequential_run_all_last_transform_wins() {
    let cfg = CompositionConfig::run_all();
    let out = compose_aggregate(
        cfg,
        verdicts(r#"[{"decision": "transform", "transform": {"path": "$target.x", "value": 1}},
                     {"decision": "transform", "transform": {"path": "$target.x", "value": 2}}]"#),
    )
    .unwrap();
    assert_eq!(out.decided_by, Some(1));
    assert!(!out.apply_transform);
}

fn input_ctx_text() -> &'static str {
    r#"{"spec": "agent-hooks/0.1", "interception_point": "input", "timestamp": "t", "sequence": 0,
        "agent": {"id": "a", "framework": "x"}, "session": {"id": "s"},
        "target": {"content": "hi", "role": "user"}, "input": {"content": "hi", "role": "user"}}"#
}

#[test]
fn finalize_options_shape() {
    let text = input_ctx_text();
    let c = obj(text);
    let input_id = context_identity(&c, text).unwrap();
    let mut opts = obj(r#"{"identity_provider": "jcs-sha256", "decided_by": null, "fold_truncated": false}"#);
    opts.insert("input_identity".into(), JsonValue::String(input_id));
    let cfg = CompositionConfig::first_deny(OnApproval::Stop);
    let r = finalize(
        &c,
        text,
        from_wire(&j(r#"{"decision": "allow"}"#)).unwrap(),
        parse_mode("enforce").unwrap(),
        &JsonValue::Object(opts),
        cfg,
        vec![],
    )
    .unwrap();
    assert_eq!(r.input_identity, r.enforced_identity);
    assert_eq!(r.identity_provider.as_deref(), Some("jcs-sha256"));
    assert_eq!(r.composition.profile.as_str(), "sequential/first_deny");
    assert_eq!(r.fold_truncated, Some(false));
}

#[test]
fn finalize_rejects_bad_provider_name() {
    let text = input_ctx_text();
    let c = obj(text);
    let opts = j(r#"{"identity_provider": "Bad Name"}"#);
    let (code, detail) = finalize(&c, text, Verdict::allow(), EnforcementMode::Enforce, &opts, CompositionConfig::default(), vec![])
        .unwrap_err();
    assert_eq!(code, "host_error:context_invalid");
    assert!(detail.starts_with("options.identity_provider: "), "{detail}");
    let opts = j(r#"{"identity_provider": "host-hash", "enforced_identity": "h:2", "resolved_by": "approval", "interceptors_registered": 3}"#);
    let r = finalize(&c, text, Verdict::allow(), EnforcementMode::EvaluateOnly, &opts, CompositionConfig::default(), vec![]).unwrap();
    assert_eq!(r.enforced_identity.as_deref(), Some("h:2"));
    assert_eq!(r.resolved_by, Some("approval"));
    assert_eq!(r.interceptors_registered, 3);
    assert_eq!(r.mode, EnforcementMode::EvaluateOnly);
}

#[test]
fn finalize_raw_scan_rejection_gives_null_identities() {
    let text = r#"{"spec":"agent-hooks/0.1","interception_point":"pre_tool_call","timestamp":"t","sequence":0,"agent":{"id":"a","framework":"x"},"session":{"id":"s"},"target":{"id":18446744073709551616},"tool_call":{"id":"tc","name":"t","args":{}}}"#;
    let c = obj(text);
    let opts = j(r#"{"identity_provider": "jcs-sha256"}"#);
    let r = finalize(&c, text, Verdict::allow(), EnforcementMode::Enforce, &opts, CompositionConfig::default(), vec![]).unwrap();
    assert!(r.input_identity.is_none());
    assert!(r.enforced_identity.is_none());
    assert_eq!(r.identity_provider.as_deref(), Some("jcs-sha256"));
}

#[test]
fn context_identity_rejects_big_int() {
    let text = r#"{"spec": "agent-hooks/0.1", "interception_point": "pre_tool_call", "timestamp": "t", "sequence": 0,
        "agent": {"id": "a", "framework": "x"}, "session": {"id": "s"},
        "target": {"id": 9007199254740993}, "tool_call": {"id": "tc", "name": "t", "args": {"id": 9007199254740993}}}"#;
    let (code, detail) = context_identity(&obj(text), text).unwrap_err();
    assert_eq!(code, "host_error:context_invalid");
    assert!(detail.contains("string-encode"), "{detail}");
}

#[test]
fn context_identity_raw_scan_runs_first() {
    let text = r#"{"spec":"agent-hooks/0.1","interception_point":"pre_tool_call","timestamp":"t","sequence":0,"agent":{"id":"a","framework":"x"},"session":{"id":"s"},"target":{"id":18446744073709551616},"tool_call":{"id":"tc","name":"t","args":{}}}"#;
    let (code, detail) = context_identity(&obj(text), text).unwrap_err();
    assert_eq!(code, "host_error:context_invalid");
    assert!(detail.contains("18446744073709551616"), "{detail}");
}

#[test]
fn happy_path_still_works() {
    let v = j(r#"{"b":1,"a":2}"#);
    assert_eq!(canonical_json(&v, r#"{"b":1,"a":2}"#).unwrap(), r#"{"a":2,"b":1}"#);
    let (code, _) = canonical_json(&j(r#"{"a":1}"#), r#"{"a":99999999999999999999}"#).unwrap_err();
    assert_eq!(code, "host_error:context_invalid");
}

#[test]
fn surface_helpers() {
    assert_eq!(spec_version(), "agent-hooks/0.1");
    assert_eq!(parse_mode("evaluate_only").unwrap(), EnforcementMode::EvaluateOnly);
    let (code, detail) = parse_mode("loud").unwrap_err();
    assert_eq!(code, "host_error:context_invalid");
    assert_eq!(detail, "mode: loud");
    let v = validate_verdict(&j(r#"{"decision": "deny", "reason": "r"}"#)).unwrap();
    assert_eq!(v.decision, Decision::Deny);
    let (code, _) = validate_verdict(&j(r#"{"decision": "nah"}"#)).unwrap_err();
    assert_eq!(code, "host_error:verdict_invalid");
    let out = apply_transform(j(r#"{"a": [1, 2]}"#), "$target.a[0]", j("7")).unwrap();
    assert_eq!(out, j(r#"{"a": [7, 2]}"#));
    let (code, _) = apply_transform(j("{}"), "$nope", j("7")).unwrap_err();
    assert_eq!(code, "host_error:transform_target_forbidden");
    let text = input_ctx_text();
    assert!(validate_envelope(&obj(text)).is_ok());
    let c = apply_transform_ctx(obj(text), "$target.content", j(r#""bye""#)).unwrap();
    assert_eq!(*c.get("input").unwrap().get("content").unwrap(), j(r#""bye""#));
    let (code, _) = validate_transform_ctx(&obj(text), "$target.nope.deeper", j("1")).unwrap_err();
    assert_eq!(code, "host_error:transform_invalid");
}
