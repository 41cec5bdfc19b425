use agent_hooks::composition::OnApproval;
use agent_hooks::enforce::{
    apply_transform_to_ctx, finalize, payload_free_projection, truncate_message, validate_transform,
    FinalizeMeta,
};
use agent_hooks::json::{JsonMap, JsonNumber, JsonValue};
use agent_hooks::types::{Decision, EnforcementMode, HostError, Transform, Verdict, JCS_SHA256};
use agent_hooks::context_identity;

fn conv(v: serde_json::Value) -> JsonValue {
    match v {
        serde_json::Value::Null => JsonValue::Null,
        serde_json::Value::Bool(b) => JsonValue::Bool(b),
        serde_json::Value::Number(n) => {
            if let Some(u) = n.as_u64() {
                JsonValue::Number(JsonNumber::PosInt(u))
            } else if let Some(i) = n.as_i64() {
                JsonValue::Number(JsonNumber::NegInt(i))
            } else {
                JsonValue::Number(JsonNumber::Float(n.to_string()))
            }
        }
        serde_json::Value::String(s) => JsonValue::String(s),
        serde_json::Value::Array(a) => JsonValue::Array(a.into_iter().map(conv).collect()),
        serde_json::Value::Object(m) => JsonValue::Object(JsonMap {
            entries: m.into_iter().map(|(k, v)| (k, conv(v))).collect(),
        }),
    }
}

fn j(text: &str) -> JsonValue {
    conv(serde_json::from_str(text).expect("test JSON parses"))
}

fn ctx(ip: &str, target: JsonValue) -> JsonMap {
    let text = format!(
        r#"{{"spec": "agent-hooks/0.1", "interception_point": "{ip}",
            "timestamp": "2026-01-01T00:00:00Z", "sequence": 0,
            "agent": {{"id": "a", "framework": "test"}}, "session": {{"id": "s"}}}}"#
    );
    let mut m = match j(&text) {
        JsonValue::Object(m) => m,
        _ => unreachable!(),
    };
    let mut tc = match j(r#"{"id": "tc-1", "name": "t"}"#) {
        JsonValue::Object(m) => m,
        _ => unreachable!(),
    };
    tc.insert("args".into(), target.deep_clone());
    m.insert("target".into(), target);
    m.insert("tool_call".into(), JsonValue::Object(tc));
    m
}

fn default_meta(c: &JsonMap) -> FinalizeMeta {
    FinalizeMeta {
        input_identity: context_identity(c).ok(),
        identity_provider: Some(JCS_SHA256.to_owned()),
        ..FinalizeMeta::default()
    }
}

fn at<'a>(m: &'a JsonMap, outer: &str, inner: &str) -> &'a JsonValue {
    m.get(outer).unwrap().get(inner).unwrap()
}

#[test]
fn record_copies_timestamp_and_echoes_trace() {
    let mut c = ctx("pre_tool_call", j(r#"{"url": "x"}"#));
    c.insert(
        "trace".into(),
        j(r#"{"trace_id": "0af7651916cd43dd8448eb211c80319c", "span_id": "b7ad6b7169203331"}"#),
    );
    let m = default_meta(&c);
    let r = finalize(&c, Verdict::allow(), EnforcementMode::Enforce, m);
    assert_eq!(r.timestamp.as_deref(), Some("2026-01-01T00:00:00Z"));
    let t = r.trace.expect("trace echoed");
    assert_eq!(t.trace_id.as_deref(), Some("0af7651916cd43dd8448eb211c80319c"));
    assert_eq!(t.span_id.as_deref(), Some("b7ad6b7169203331"));
    let c2 = ctx("pre_tool_call", j(r#"{"url": "x"}"#));
    let m2 = default_meta(&c2);
    let r2 = finalize(&c2, Verdict::allow(), EnforcementMode::Enforce, m2);
    assert!(r2.trace.is_none(), "trace absent without context trace");
    assert!(r2.timestamp.is_some());
}

#[test]
fn trace_with_foreign_members_only_is_absent() {
    let mut c = ctx("pre_tool_call", j(r#"{"url": "x"}"#));
    c.insert("trace".into(), j(r#"{"vendor": "x"}"#));
    let m = default_meta(&c);
    let r = finalize(&c, Verdict::allow(), EnforcementMode::Enforce, m);
    assert!(r.trace.is_none());
}

#[test]
fn allow_identities_equal() {
    let c = ctx("pre_tool_call", j(r#"{"url": "x"}"#));
    let m = default_meta(&c);
    let r = finalize(&c, Verdict::allow(), EnforcementMode::Enforce, m);
    assert_eq!(r.input_identity, r.enforced_identity);
    assert!(r.input_identity.is_some());
    assert_eq!(r.identity_provider.as_deref(), Some(JCS_SHA256));
    assert!(r.proceeds());
    assert_eq!(r.session_id, "s");
    assert_eq!(r.sequence, 0);
}

#[test]
fn null_provider_null_identities() {
    let c = ctx("pre_tool_call", j(r#"{"url": "x"}"#));
    let r = finalize(&c, Verdict::allow(), EnforcementMode::Enforce, FinalizeMeta::default());
    assert!(r.input_identity.is_none());
    assert!(r.enforced_identity.is_none());
    assert!(r.identity_provider.is_none());
}

#[test]
fn custom_provider_uses_supplied_identity() {
    let c = ctx("pre_tool_call", j(r#"{"url": "x"}"#));
    let meta = FinalizeMeta {
        input_identity: Some("host:1".into()),
        enforced_identity: Some("host:1".into()),
        identity_provider: Some("host-hash".into()),
        ..FinalizeMeta::default()
    };
    let r = finalize(&c, Verdict::allow(), EnforcementMode::Enforce, meta);
    assert_eq!(r.enforced_identity.as_deref(), Some("host:1"));
    assert_eq!(r.identity_provider.as_deref(), Some("host-hash"));
}

#[test]
fn transform_applies_and_writes_back() {
    let mut c = ctx("pre_tool_call", j(r#"{"url": "evil"}"#));
    let input_id = context_identity(&c).ok();
    let t = Transform { path: "$target.url".into(), value: j(r#""safe""#) };
    apply_transform_to_ctx(&mut c, &t).unwrap();
    assert_eq!(*at(&c, "target", "url"), j(r#""safe""#));
    assert_eq!(*c.get("tool_call").unwrap().get("args").unwrap().get("url").unwrap(), j(r#""safe""#));
    let v = Verdict { decision: Decision::Transform, transform: Some(t), ..Verdict::allow() };
    let meta = FinalizeMeta {
        input_identity: input_id,
        identity_provider: Some(JCS_SHA256.to_owned()),
        ..FinalizeMeta::default()
    };
    let r = finalize(&c, v, EnforcementMode::Enforce, meta);
    assert_ne!(r.input_identity, r.enforced_identity);
}

#[test]
fn transform_write_back_per_point() {
    let mut c = ctx("input", j(r#"{"content": "a", "role": "user"}"#));
    let t = Transform { path: "$target.content".into(), value: j(r#""b""#) };
    apply_transform_to_ctx(&mut c, &t).unwrap();
    assert_eq!(*c.get("input").unwrap(), j(r#"{"content": "b", "role": "user"}"#));
    let mut c = ctx("output", j(r#"{"content": "a"}"#));
    let t = Transform { path: "$target".into(), value: j(r#"{"content": "z"}"#) };
    apply_transform_to_ctx(&mut c, &t).unwrap();
    assert_eq!(*c.get("output").unwrap(), j(r#"{"content": "z"}"#));
}

#[test]
fn transform_forbidden_at_startup() {
    let mut c = ctx("agent_startup", j("{}"));
    let t = Transform { path: "$target.x".into(), value: j("1") };
    assert_eq!(apply_transform_to_ctx(&mut c, &t), Err(HostError::TransformTargetForbidden));
}

#[test]
fn evaluate_only_validates_without_applying() {
    let c = ctx("pre_tool_call", j(r#"{"url": "evil"}"#));
    let t = Transform { path: "$target.url".into(), value: j(r#""safe""#) };
    validate_transform(&c, &t).unwrap();
    assert_eq!(*at(&c, "target", "url"), j(r#""evil""#));
    assert_eq!(
        validate_transform(&c, &Transform { path: "$target.missing.x".into(), value: j("0") }),
        Err(HostError::TransformInvalid)
    );
}

#[test]
fn transform_on_context_without_point_is_context_invalid() {
    let mut c = ctx("pre_tool_call", j("{}"));
    c.remove("interception_point");
    let t = Transform { path: "$target".into(), value: j("1") };
    assert_eq!(validate_transform(&c, &t), Err(HostError::ContextInvalid));
    assert_eq!(apply_transform_to_ctx(&mut c, &t), Err(HostError::ContextInvalid));
}

#[test]
fn projection_drops_transform_value_and_strips_approval() {
    let mut approval = JsonMap::new();
    approval.insert("ticket".into(), j(r#""T-1""#));
    let v = Verdict {
        decision: Decision::Transform,
        transform: Some(Transform { path: "$target.url".into(), value: j(r#"{"secret": "payload"}"#) }),
        approval: None,
        message: Some("x".repeat(300)),
        ..Verdict::allow()
    };
    let p = payload_free_projection(&v);
    let t = p.transform.expect("path kept");
    assert_eq!(t.path, "$target.url");
    assert!(t.value.is_null());
    let msg = p.message.expect("message kept");
    assert!(msg.ends_with('…') && msg.len() <= 256 + '…'.len_utf8());

    let d = Verdict { approval: Some(approval), ..Verdict::escalate(Some("r".into()), None) };
    let pd = payload_free_projection(&d);
    assert_eq!(pd.approval, Some(JsonMap::new()));
}

#[test]
fn projection_truncates_on_char_boundary() {
    let v = Verdict { message: Some("é".repeat(200)), ..Verdict::allow() };
    let m = payload_free_projection(&v).message.unwrap();
    assert!(m.len() <= 256 + '…'.len_utf8());
    assert!(m.ends_with('…'));
    assert!(m.chars().all(|c| c == 'é' || c == '…'));
}

#[test]
fn truncate_message_exact_bounds() {
    assert_eq!(truncate_message("short"), "short");
    let at_cap = "a".repeat(256);
    assert_eq!(truncate_message(&at_cap), at_cap);
    let over = "a".repeat(257);
    assert_eq!(truncate_message(&over), format!("{}…", "a".repeat(256)));
    let mixed = format!("{}é", "a".repeat(255));
    assert_eq!(truncate_message(&mixed), format!("{}…", "a".repeat(255)));
}

#[test]
fn finalize_records_projected_verdict() {
    let mut c = ctx("pre_tool_call", j(r#"{"url": "evil"}"#));
    let t = Transform { path: "$target.url".into(), value: j(r#""safe""#) };
    apply_transform_to_ctx(&mut c, &t).unwrap();
    let v = Verdict { decision: Decision::Transform, transform: Some(t), ..Verdict::allow() };
    let r = finalize(&c, v, EnforcementMode::Enforce, FinalizeMeta::default());
    let rt = r.verdict.transform.expect("path kept on record");
    assert!(rt.value.is_null());
}

#[test]
fn post_fold_rejection_fails_closed() {
    let mut c = ctx("pre_tool_call", j(r#"{"id": 1}"#));
    let input_id = context_identity(&c).ok();
    c.insert("target".into(), j(r#"{"id": 9007199254740993}"#));
    let meta = FinalizeMeta {
        input_identity: input_id,
        identity_provider: Some(JCS_SHA256.to_owned()),
        ..FinalizeMeta::default()
    };
    let r = finalize(&c, Verdict::allow(), EnforcementMode::Enforce, meta);
    assert!(!r.proceeds());
    assert_eq!(r.verdict.reason.as_deref(), Some("host_error:context_invalid"));
    assert!(r.enforced_identity.is_none());
    assert!(r.input_identity.is_some());
}

#[test]
fn jcs_input_rejected_with_clean_input_fails_closed() {
    let c = ctx("pre_tool_call", j(r#"{"id": 1}"#));
    let meta = FinalizeMeta {
        input_identity: Some("sha256:00".into()),
        identity_provider: Some(JCS_SHA256.to_owned()),
        jcs_input_rejected: true,
        ..FinalizeMeta::default()
    };
    let r = finalize(&c, Verdict::allow(), EnforcementMode::Enforce, meta);
    assert_eq!(r.verdict.reason.as_deref(), Some("host_error:context_invalid"));
    assert!(r.enforced_identity.is_none());
}

#[test]
fn unchanged_since_input_reuses_identity() {
    let c = ctx("pre_tool_call", j(r#"{"id": 1}"#));
    let meta = FinalizeMeta {
        input_identity: Some("sha256:reused".into()),
        identity_provider: Some(JCS_SHA256.to_owned()),
        unchanged_since_input: true,
        ..FinalizeMeta::default()
    };
    let r = finalize(&c, Verdict::allow(), EnforcementMode::Enforce, meta);
    assert_eq!(r.enforced_identity.as_deref(), Some("sha256:reused"));
}

#[test]
fn envelope_invalid_never_plausible() {
    let mut c = ctx("pre_tool_call", j("{}"));
    c.remove("session");
    let meta = FinalizeMeta {
        input_identity: Some("sha256:beef".into()),
        identity_provider: Some(JCS_SHA256.to_owned()),
        ..FinalizeMeta::default()
    };
    let r = finalize(&c, Verdict::allow(), EnforcementMode::Enforce, meta);
    assert!(!r.proceeds());
    assert_eq!(r.verdict.reason.as_deref(), Some("host_error:context_invalid"));
    assert!(r.input_identity.is_none() && r.enforced_identity.is_none());
    assert_eq!(r.session_id, "");
}

#[test]
fn knob_defaults_recorded() {
    let c = ctx("pre_tool_call", j("{}"));
    let m = default_meta(&c);
    let r = finalize(&c, Verdict::allow(), EnforcementMode::Enforce, m);
    assert_eq!(r.composition.on_approval, Some(OnApproval::Stop));
    assert!(r.composition.on_disagreement.is_none());
}

#[test]
fn evaluate_only_deny_still_proceeds() {
    let c = ctx("pre_tool_call", j("{}"));
    let r = finalize(&c, Verdict::escalate(None, None), EnforcementMode::EvaluateOnly, FinalizeMeta::default());
    assert!(r.proceeds());
    let r = finalize(&c, Verdict::escalate(None, None), EnforcementMode::Enforce, FinalizeMeta::default());
    assert!(!r.proceeds());
}

#[test]
fn validation_agrees_with_application() {
    for (ip, path) in [
        ("pre_tool_call", "$target.url"),
        ("pre_tool_call", "$target.nope.deeper"),
        ("agent_shutdown", "$target"),
        ("input", "$other.x"),
        ("output", "$target"),
    ] {
        let c = ctx(ip, j(r#"{"url": "u"}"#));
        let t = Transform { path: path.into(), value: j("0") };
        let validated = validate_transform(&c, &t);
        let mut c2 = ctx(ip, j(r#"{"url": "u"}"#));
        let applied = apply_transform_to_ctx(&mut c2, &t);
        assert_eq!(validated, applied, "{ip} {path}");
        if applied.is_err() {
            assert_eq!(c2, ctx(ip, j(r#"{"url": "u"}"#)));
        }
    }
}
