use agent_hooks::canonical::{evidence_canonical, evidence_value};
use agent_hooks::composition::{
    aggregate_strictest, all_denies_liftable, is_unanimous_allow, severity, summaries, union_labels,
    union_warnings, with_unions, Aggregate, CompositionConfig, CompositionProfile, OnApproval,
    SynthesisPolicy,
};
use agent_hooks::json::{JsonMap, JsonNumber, JsonValue};
use agent_hooks::types::{Decision, Evidence, HostError, InterceptionPoint, Transform, Verdict};
use agent_hooks::verdict::from_wire;
use agent_hooks::{canonical_json, EVIDENCE_MAX_BYTES};

fn conv(v: serde_json::Value) -> JsonValue {
    match v {
        serde_json::Value::Null => JsonValue::Null,
        serde_json::Value::Bool(b) => JsonValue::Bool(b),
        serde_json::Value::Number(n) => {
            if let Some(u) = n.as_u64() {
                JsonValue::Number(JsonNumber::PosInt(u))
            } else if let Some(i) = n.as_i64() {
                JsonValue::Number(JsonNumber::NegInt(i))
            } else {
                JsonValue::Number(JsonNumber::Float(n.to_string()))
            }
        }
        serde_json::Value::String(s) => JsonValue::String(s),
        serde_json::Value::Array(a) => JsonValue::Array(a.into_iter().map(conv).collect()),
        serde_json::Value::Object(m) => JsonValue::Object(JsonMap {
            entries: m.into_iter().map(|(k, v)| (k, conv(v))).collect(),
        }),
    }
}

fn j(text: &str) -> JsonValue {
    conv(serde_json::from_str(text).expect("test JSON parses"))
}

fn t() -> Verdict {
    Verdict {
        decision: Decision::Transform,
        transform: Some(Transform { path: "$target.x".into(), value: j("1") }),
        ..Verdict::allow()
    }
}

fn deny() -> Verdict {
    Verdict { decision: Decision::Deny, ..Verdict::allow() }
}

// ---- validation ---------------------------------------------------------------

#[test]
fn transform_without_body_invalid() {
    let v = Verdict { decision: Decision::Transform, ..Verdict::allow() };
    assert_eq!(v.validate(), Err(HostError::VerdictInvalid));
}

#[test]
fn body_on_non_transform_invalid() {
    let v = Verdict {
        transform: Some(Transform { path: "$target.x".into(), value: j("1") }),
        ..Verdict::allow()
    };
    assert_eq!(v.validate(), Err(HostError::VerdictInvalid));
}

#[test]
fn reserved_reason_invalid() {
    let v = Verdict { reason: Some("host_error:x".into()), ..Verdict::allow() };
    assert_eq!(v.validate(), Err(HostError::VerdictInvalid));
}

#[test]
fn approval_only_on_deny() {
    let v = Verdict { approval: Some(JsonMap::new()), ..Verdict::allow() };
    assert_eq!(v.validate(), Err(HostError::VerdictInvalid));
    assert!(Verdict::escalate(None, None).validate().is_ok());
    assert!(Verdict::escalate(None, None).is_liftable());
}

#[test]
fn warn_sugar_is_allow_with_warning() {
    let v = Verdict::warn(Some("pii".into()), None);
    assert_eq!(v.decision, Decision::Allow);
    assert_eq!(v.warnings.len(), 1);
    assert!(v.validate().is_ok());
}

#[test]
fn host_error_verdicts_carry_reserved_reason() {
    let v = Verdict::host_error(HostError::InterceptorTimeout, Some("slow".into()));
    assert_eq!(v.decision, Decision::Deny);
    assert_eq!(v.reason.as_deref(), Some("host_error:interceptor_timeout"));
    assert!(!v.is_liftable());
    let l = Verdict::host_error_liftable(HostError::TransformConflict, None);
    assert!(l.is_liftable());
    assert_eq!(l.reason.as_deref(), Some("host_error:transform_conflict"));
}

// ---- evidence cap ---------------------------------------------------------------

fn with_artefact(len: usize) -> Verdict {
    Verdict {
        evidence: Some(Evidence { artefact: Some("x".repeat(len)), ..Default::default() }),
        ..Verdict::allow()
    }
}

fn canonical_len(v: &Verdict) -> usize {
    let e = v.evidence.as_ref().expect("evidence present");
    canonical_json(&evidence_value(e)).len()
}

#[test]
fn root_export_is_the_spec_value() {
    assert_eq!(EVIDENCE_MAX_BYTES, 10240);
}

#[test]
fn root_export_is_the_bound_validate_enforces() {
    let framing = canonical_len(&with_artefact(0));
    let at_cap = with_artefact(EVIDENCE_MAX_BYTES - framing);
    assert_eq!(canonical_len(&at_cap), EVIDENCE_MAX_BYTES);
    assert_eq!(at_cap.validate(), Ok(()));
    let over = with_artefact(EVIDENCE_MAX_BYTES - framing + 1);
    assert_eq!(canonical_len(&over), EVIDENCE_MAX_BYTES + 1);
    assert_eq!(over.validate(), Err(HostError::VerdictInvalid));
}

#[test]
fn evidence_cap_enforced_by_struct_validate() {
    let v = Verdict {
        evidence: Some(Evidence {
            artefact: Some("x".repeat(EVIDENCE_MAX_BYTES + 1)),
            verification_pointers: Default::default(),
        }),
        ..Verdict::allow()
    };
    assert_eq!(v.validate(), Err(HostError::VerdictInvalid));
}

#[test]
fn evidence_canonical_form() {
    let e = Evidence {
        artefact: Some("a".into()),
        verification_pointers: vec![("z".into(), "1".into()), ("b".into(), "2".into())],
    };
    assert_eq!(evidence_canonical(&e), r#"{"artefact":"a","verification_pointers":{"b":"2","z":"1"}}"#);
    assert_eq!(evidence_canonical(&Evidence::default()), "{}");
}

// ---- the wire funnel ---------------------------------------------------------------

#[test]
fn from_wire_allow() {
    let v = from_wire(&j(r#"{"decision": "allow"}"#)).unwrap();
    assert_eq!(v.decision, Decision::Allow);
}

#[test]
fn from_wire_transform_roundtrip() {
    let v = from_wire(&j(
        r#"{"decision": "transform", "reason": "redact",
            "transform": {"path": "$target.url", "value": "x"}, "result_labels": ["pii"]}"#,
    ))
    .unwrap();
    assert_eq!(v.decision, Decision::Transform);
    assert_eq!(v.transform.as_ref().unwrap().path, "$target.url");
    assert_eq!(v.result_labels, vec!["pii"]);
}

#[test]
fn from_wire_rejects_bad_decision() {
    assert!(from_wire(&j(r#"{"decision": "maybe"}"#)).is_err());
}

#[test]
fn from_wire_rejects_removed_decisions() {
    assert!(from_wire(&j(r#"{"decision": "warn"}"#)).is_err());
    assert!(from_wire(&j(r#"{"decision": "escalate"}"#)).is_err());
}

#[test]
fn from_wire_liftable_deny() {
    let v = from_wire(&j(r#"{"decision": "deny", "approval": {}}"#)).unwrap();
    assert!(v.is_liftable());
    let v = from_wire(&j(r#"{"decision": "deny"}"#)).unwrap();
    assert!(!v.is_liftable());
}

#[test]
fn from_wire_approval_only_on_deny() {
    assert!(from_wire(&j(r#"{"decision": "allow", "approval": {}}"#)).is_err());
    assert!(from_wire(&j(r#"{"decision": "deny", "approval": []}"#)).is_err());
}

#[test]
fn from_wire_warnings() {
    let v = from_wire(&j(
        r#"{"decision": "allow", "warnings": [{"reason": "pii", "message": "found ssn"}]}"#,
    ))
    .unwrap();
    assert_eq!(v.warnings.len(), 1);
    assert_eq!(v.warnings[0].reason.as_deref(), Some("pii"));
    assert!(from_wire(&j(r#"{"decision": "allow", "warnings": ["x"]}"#)).is_err());
    assert!(from_wire(&j(r#"{"decision": "allow", "warnings": [{"reason": "host_error:x"}]}"#)).is_err());
}

#[test]
fn from_wire_rejects_host_error_reason() {
    let e = from_wire(&j(r#"{"decision": "deny", "reason": "host_error:x"}"#)).unwrap_err();
    assert_eq!(e.0, HostError::VerdictInvalid);
}

#[test]
fn from_wire_transform_body_required() {
    assert!(from_wire(&j(r#"{"decision": "transform"}"#)).is_err());
}

#[test]
fn from_wire_transform_body_forbidden() {
    assert!(from_wire(&j(r#"{"decision": "allow", "transform": {"path": "$target.x", "value": 1}}"#)).is_err());
}

#[test]
fn evidence_over_cap_fails_wire_gate() {
    let mut raw = j(r#"{"decision": "allow"}"#);
    if let JsonValue::Object(m) = &mut raw {
        let mut ev = JsonMap::new();
        ev.insert("artefact".into(), JsonValue::String("x".repeat(EVIDENCE_MAX_BYTES + 1)));
        m.insert("evidence".into(), JsonValue::Object(ev));
    }
    let (e, d) = from_wire(&raw).unwrap_err();
    assert_eq!(e, HostError::VerdictInvalid);
    assert!(d.contains("exceeds 10240"));
}

#[test]
fn evidence_at_cap_passes() {
    let mut raw = j(r#"{"decision": "allow"}"#);
    if let JsonValue::Object(m) = &mut raw {
        let mut ev = JsonMap::new();
        ev.insert("artefact".into(), JsonValue::String("x".repeat(EVIDENCE_MAX_BYTES - 15)));
        m.insert("evidence".into(), JsonValue::Object(ev));
    }
    assert!(from_wire(&raw).is_ok());
}

#[test]
fn from_wire_non_object_and_type_errors() {
    let (e, _) = from_wire(&j("[]")).unwrap_err();
    assert_eq!(e, HostError::VerdictInvalid);
    assert!(from_wire(&j(r#"{"decision": 1}"#)).is_err());
    assert!(from_wire(&j(r#"{"decision": "allow", "reason": 3}"#)).is_err());
    assert!(from_wire(&j(r#"{"decision": "allow", "reason": null}"#)).is_ok());
    assert!(from_wire(&j(r#"{"decision": "allow", "result_labels": [1]}"#)).is_err());
}

// ---- composition ---------------------------------------------------------------

#[test]
fn severity_order() {
    assert_eq!(severity(&deny()), 3);
    assert_eq!(severity(&Verdict::escalate(None, None)), 2);
    assert_eq!(severity(&t()), 1);
    assert_eq!(severity(&Verdict::allow()), 0);
}

#[test]
fn strictest_plain_deny_dominates_liftable() {
    let vs = vec![Verdict::escalate(None, None), deny()];
    assert_eq!(aggregate_strictest(&vs, false), Aggregate::Winner(1));
}

#[test]
fn strictest_block_tie_lowest_index() {
    let vs = vec![deny(), deny()];
    assert_eq!(aggregate_strictest(&vs, false), Aggregate::Winner(0));
}

#[test]
fn parallel_transform_tie_is_conflict() {
    let vs = vec![t(), Verdict::allow(), t()];
    assert_eq!(aggregate_strictest(&vs, false), Aggregate::TransformConflict(vec![0, 2]));
}

#[test]
fn sequential_transform_tie_last_wins() {
    let vs = vec![t(), t()];
    assert_eq!(aggregate_strictest(&vs, true), Aggregate::Winner(1));
}

#[test]
fn strictest_all_allow_first_wins() {
    let vs = vec![Verdict::allow(), Verdict::allow(), Verdict::allow()];
    assert_eq!(aggregate_strictest(&vs, false), Aggregate::Winner(0));
}

#[test]
fn unanimous_and_liftable_checks() {
    assert!(is_unanimous_allow(&vec![Verdict::allow(), Verdict::allow()]));
    assert!(!is_unanimous_allow(&vec![Verdict::allow(), t()]));
    assert!(all_denies_liftable(&vec![Verdict::escalate(None, None), Verdict::allow()]));
    assert!(!all_denies_liftable(&vec![Verdict::escalate(None, None), deny()]));
}

#[test]
fn unions_first_seen_order() {
    let mut a = Verdict::warn(Some("w1".into()), None);
    a.result_labels = vec!["l1".into(), "l2".into()];
    let mut b = Verdict::warn(Some("w1".into()), None);
    b.result_labels = vec!["l2".into(), "l3".into()];
    let d = Verdict { result_labels: vec!["dropped".into()], ..deny() };
    let all = vec![a, b, d];
    assert_eq!(union_warnings(&all).len(), 1);
    assert_eq!(union_labels(&all), vec!["l1", "l2", "l3"]);
}

#[test]
fn with_unions_keeps_decision_and_merges() {
    let mut a = Verdict::warn(Some("w1".into()), None);
    a.result_labels = vec!["l1".into()];
    let b = Verdict::warn(Some("w2".into()), None);
    let pool = vec![a, b];
    let c = with_unions(Verdict::allow(), &pool);
    assert_eq!(c.decision, Decision::Allow);
    assert_eq!(c.warnings.len(), 2);
    assert_eq!(c.result_labels, vec!["l1"]);
    let s = summaries(&pool);
    assert_eq!(s.len(), 2);
    assert_eq!(s[1].decision, Decision::Allow);
}

#[test]
fn config_defaults_and_knobs() {
    let c = CompositionConfig::default();
    assert_eq!(c.profile, CompositionProfile::SequentialFirstDeny);
    assert_eq!(c.profile.as_str(), "sequential/first_deny");
    let d = c.with_knob_defaults();
    assert_eq!(d.on_approval, Some(OnApproval::Stop));
    let u = CompositionConfig::unanimous(SynthesisPolicy::Approval, SynthesisPolicy::Deny);
    assert_eq!(u.profile, CompositionProfile::ParallelUnanimous);
    assert_eq!(u.on_disagreement, Some(SynthesisPolicy::Approval));
    assert_eq!(u.on_transform_conflict, Some(SynthesisPolicy::Deny));
    assert_eq!(u.on_approval, None);
    assert!(!CompositionProfile::ParallelStrictest.is_sequential());
    assert!(CompositionProfile::SequentialRunAll.is_sequential());
    let s = CompositionConfig { profile: CompositionProfile::ParallelStrictest, on_approval: Some(OnApproval::Resume), on_disagreement: None, on_transform_conflict: None };
    let s = s.with_knob_defaults();
    assert_eq!(s.on_approval, None);
    assert_eq!(s.on_transform_conflict, Some(SynthesisPolicy::Deny));
}

#[test]
fn host_error_variants_match_reserved_reasons_registry() {
    let variants = [
        HostError::ContextInvalid,
        HostError::InterceptorFailed,
        HostError::InterceptorTimeout,
        HostError::VerdictInvalid,
        HostError::TransformInvalid,
        HostError::TransformTargetForbidden,
        HostError::TransformConflict,
        HostError::CompositionDisagreement,
        HostError::ApprovalResolverFailed,
        HostError::ApprovalUnresolved,
        HostError::ApprovalIdentityMismatch,
        HostError::AdapterUnsupported,
        HostError::NoInterceptor,
        HostError::StreamingUnsupported,
    ];
    let emitted: std::collections::BTreeSet<String> = variants.iter().map(|v| v.to_string()).collect();
    assert_eq!(emitted.len(), variants.len(), "duplicate reason strings");
    assert!(emitted.iter().all(|s| s.starts_with("host_error:")));
    assert!(emitted.contains("host_error:approval_identity_mismatch"));
}

#[test]
fn interception_point_names_roundtrip() {
    for name in [
        "agent_startup", "input", "pre_model_call", "post_model_call", "pre_tool_call",
        "post_tool_call", "output", "agent_shutdown",
    ] {
        let ip = InterceptionPoint::from_name(name).unwrap();
        assert_eq!(ip.as_str(), name);
    }
    assert_eq!(InterceptionPoint::from_name("nope"), Err(HostError::ContextInvalid));
    assert!(!InterceptionPoint::AgentStartup.transform_permitted());
    assert!(InterceptionPoint::PreToolCall.transform_permitted());
    assert!(Decision::Transform.permits());
    assert!(!Decision::Deny.permits());
}

#[test]
fn knob_defaults_are_idempotent() {
    for c in [
        CompositionConfig::default(),
        CompositionConfig::run_all(),
        CompositionConfig::strictest(SynthesisPolicy::Approval),
        CompositionConfig::unanimous(SynthesisPolicy::Approval, SynthesisPolicy::Approval),
        CompositionConfig {
            profile: CompositionProfile::SequentialRunAll,
            on_approval: Some(OnApproval::Resume),
            on_disagreement: Some(SynthesisPolicy::Deny),
            on_transform_conflict: Some(SynthesisPolicy::Approval),
        },
    ] {
        let once = c.with_knob_defaults();
        assert_eq!(once.with_knob_defaults(), once);
    }
    let r = CompositionConfig::unanimous(SynthesisPolicy::Approval, SynthesisPolicy::Approval).with_knob_defaults();
    assert_eq!(r.on_transform_conflict, None);
    assert_eq!(r.on_disagreement, Some(SynthesisPolicy::Approval));
}

#[test]
fn liftable_winner_implies_every_deny_liftable() {
    let vs = vec![Verdict::allow(), Verdict::escalate(None, None), Verdict::escalate(Some("b".into()), None)];
    match aggregate_strictest(&vs, false) {
        Aggregate::Winner(i) => {
            assert!(vs[i].is_liftable());
            assert!(all_denies_liftable(&vs));
        }
        other => panic!("{other:?}"),
    }
}

#[test]
fn admitted_wire_verdicts_validate() {
    for text in [
        r#"{"decision": "allow", "warnings": [{"reason": "w"}]}"#,
        r#"{"decision": "deny", "approval": {"ticket": "T"}}"#,
        r#"{"decision": "transform", "transform": {"path": "$target", "value": 1}, "result_labels": ["a"]}"#,
    ] {
        let v = from_wire(&j(text)).unwrap();
        assert_eq!(v.validate(), Ok(()));
    }
}

fn detail_of(text: &str) -> String {
    let (e, d) = from_wire(&j(text)).unwrap_err();
    assert_eq!(e, HostError::VerdictInvalid);
    d
}

#[test]
fn from_wire_details_name_the_rule() {
    assert_eq!(detail_of("[1]"), "verdict must be a JSON object");
    assert_eq!(detail_of(r#"{"decision": "maybe"}"#), r#"verdict.decision invalid: Some("maybe") (§5.1: allow|deny|transform)"#);
    assert_eq!(detail_of(r#"{"decision": 3}"#), "verdict.decision invalid: None (§5.1: allow|deny|transform)");
    assert_eq!(detail_of(r#"{"decision": "allow", "reason": 1}"#), "verdict.reason must be string or null");
    assert_eq!(detail_of(r#"{"decision": "allow", "message": []}"#), "verdict.message must be string or null");
    assert_eq!(detail_of(r#"{"decision": "allow", "warnings": [{"reason": "host_error:x"}]}"#), "warnings[].reason must be a non-reserved string");
    assert_eq!(detail_of(r#"{"decision": "allow", "warnings": [{"message": 1}]}"#), "warnings[].message must be string or null");
    assert_eq!(detail_of(r#"{"decision": "allow", "warnings": ["x"]}"#), "warnings must be an array of objects (§5)");
    assert_eq!(detail_of(r#"{"decision": "allow", "approval": {}}"#), "approval block permitted only on deny (§5.1)");
    assert_eq!(detail_of(r#"{"decision": "deny", "approval": 1}"#), "verdict.approval must be an object (§5)");
    assert_eq!(detail_of(r#"{"decision": "transform", "transform": {"value": 1}}"#), "transform.path missing");
    assert_eq!(detail_of(r#"{"decision": "transform", "transform": 1}"#), "verdict.transform must be {path, value}");
    assert_eq!(detail_of(r#"{"decision": "transform"}"#), "transform body REQUIRED when decision=='transform' (§5)");
    assert_eq!(detail_of(r#"{"decision": "deny", "transform": {"path": "$target"}}"#), "transform body FORBIDDEN when decision!='transform' (§5)");
    assert_eq!(detail_of(r#"{"decision": "allow", "evidence": 1}"#), "verdict.evidence must be an object");
    assert_eq!(detail_of(r#"{"decision": "allow", "result_labels": [1]}"#), "result_labels must be an array of strings");
}

#[test]
fn from_wire_transform_outside_target_is_verdict_invalid() {
    let d = detail_of(r#"{"decision": "transform", "transform": {"path": "$snapshot.x", "value": 1}}"#);
    assert_eq!(d, r#"transform.path must be rooted at $target (got "$snapshot.x")"#);
}

#[test]
fn from_wire_evidence_type_details() {
    assert_eq!(detail_of(r#"{"decision": "allow", "evidence": {"artefact": 5}}"#), "evidence: invalid type: integer `5`, expected a string");
    assert_eq!(detail_of(r#"{"decision": "allow", "evidence": {"artefact": true}}"#), "evidence: invalid type: boolean `true`, expected a string");
    assert_eq!(detail_of(r#"{"decision": "allow", "evidence": {"verification_pointers": null}}"#), "evidence: invalid type: null, expected a map");
    assert_eq!(detail_of(r#"{"decision": "allow", "evidence": {"verification_pointers": ["a"]}}"#), "evidence: invalid type: sequence, expected a map");
    assert_eq!(detail_of(r#"{"decision": "allow", "evidence": {"verification_pointers": {"k": {}}}}"#), "evidence: invalid type: map, expected a string");
    let over = format!(r#"{{"decision": "allow", "evidence": {{"artefact": "{}"}}}}"#, "x".repeat(10241));
    assert_eq!(detail_of(&over), "evidence canonical size 10256 exceeds 10240 bytes (§5.3)");
}

#[test]
fn from_wire_absent_transform_value_is_null() {
    let a = from_wire(&j(r#"{"decision": "transform", "transform": {"path": "$target.x"}}"#)).unwrap();
    let b = from_wire(&j(r#"{"decision": "transform", "transform": {"path": "$target.x", "value": null}}"#)).unwrap();
    assert_eq!(a, b);
    assert_eq!(a.transform.unwrap().value, JsonValue::Null);
}
