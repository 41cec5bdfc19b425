use agent_hooks::composition::{CompositionConfig, OnApproval, SynthesisPolicy};
use agent_hooks::emitter::{
    early_outcome,
    blocked_description,
    admit_verdict, aggregate_plan, judge_resolution, needs_consult, record_host_failure, resume_aggregate,
    run_all_step, unanimous_plan, AggregateStep, Consultation, DispatchOutcome, FirstDenyFold, FoldStep,
    HostFailure, RecordBuffer,
};
use agent_hooks::json::{JsonMap, JsonNumber, JsonValue};
use agent_hooks::types::{
    ApprovalOutcome, ApprovalResolution, Decision, EnforcementMode, HostError, InterceptionPoint, Transform,
    Verdict, JCS_SHA256,
};

fn conv(v: serde_json::Value) -> JsonValue {
    match v {
        serde_json::Value::Null => JsonValue::Null,
        serde_json::Value::Bool(b) => JsonValue::Bool(b),
        serde_json::Value::Number(n) => {
            if let Some(u) = n.as_u64() {
                JsonValue::Number(JsonNumber::PosInt(u))
            } else if let Some(i) = n.as_i64() {
                JsonValue::Number(JsonNumber::NegInt(i))
            } else {
                JsonValue::Number(JsonNumber::Float(n.to_string()))
            }
        }
        serde_json::Value::String(s) => JsonValue::String(s),
        serde_json::Value::Array(a) => JsonValue::Array(a.into_iter().map(conv).collect()),
        serde_json::Value::Object(m) => JsonValue::Object(JsonMap {
            entries: m.into_iter().map(|(k, v)| (k, conv(v))).collect(),
        }),
    }
}

fn j(text: &str) -> JsonValue {
    conv(serde_json::from_str(text).expect("test JSON parses"))
}

fn ctx(ip: &str) -> JsonMap {
    let text = format!(
        r#"{{"spec": "agent-hooks/0.1", "interception_point": "{ip}", "timestamp": "t", "sequence": 0,
            "agent": {{"id": "a", "framework": "x"}}, "session": {{"id": "s"}},
            "target": {{"url": "evil"}}, "tool_call": {{"id": "tc", "name": "t", "args": {{"url": "evil"}}}}}}"#
    );
    match j(&text) {
        JsonValue::Object(m) => m,
        _ => unreachable!(),
    }
}

fn deny() -> Verdict {
    Verdict { decision: Decision::Deny, ..Verdict::allow() }
}

fn transform(path: &str, value: &str) -> Verdict {
    Verdict {
        decision: Decision::Transform,
        transform: Some(Transform { path: path.into(), value: j(value) }),
        ..Verdict::allow()
    }
}

fn done(s: FoldStep) -> DispatchOutcome {
    match s {
        FoldStep::Done(o) => o,
        other => panic!("expected Done, got {other:?}"),
    }
}

#[test]
fn admit_substitutes_invalid_verdicts() {
    let v = admit_verdict(Ok(Verdict { reason: Some("host_error:x".into()), ..Verdict::allow() }));
    assert_eq!(v.reason.as_deref(), Some("host_error:verdict_invalid"));
    assert_eq!(v.decision, Decision::Deny);
    let v = admit_verdict(Ok(Verdict::allow()));
    assert_eq!(v, Verdict::allow());
    let f = Verdict::host_error(HostError::InterceptorTimeout, None);
    assert_eq!(admit_verdict(Err(f.clone())), f);
}

#[test]
fn first_deny_no_resolver_liftable_deny_stands() {
    let mut c = ctx("pre_tool_call");
    let mut fold = FirstDenyFold::new(1, None);
    let o = done(fold.on_verdict(&mut c, EnforcementMode::Enforce, false, Verdict::escalate(Some("check".into()), None)));
    assert_eq!(o.combined.decision, Decision::Deny);
    assert_eq!(o.combined.reason.as_deref(), Some("check"));
    assert!(o.combined.is_liftable());
    assert_eq!(o.resolved_by, None);
    assert_eq!(o.decided_by, Some(0));
}

#[test]
fn first_deny_stop_truncates_after_approval() {
    let mut c = ctx("pre_tool_call");
    let mut fold = FirstDenyFold::new(2, Some(OnApproval::Stop));
    let liftable = match fold.on_verdict(&mut c, EnforcementMode::Enforce, true, Verdict::escalate(None, None)) {
        FoldStep::Consult(v) => v,
        other => panic!("expected Consult, got {other:?}"),
    };
    assert!(liftable.is_liftable());
    let id = Some("sha256:1".to_string());
    let res = ApprovalResolution { outcome: ApprovalOutcome::Approve, context_identity: id.clone(), verdict: Some(Verdict::allow()) };
    let consult = judge_resolution(&id, res);
    let o = done(fold.on_consultation(&mut c, EnforcementMode::Enforce, consult));
    assert_eq!(o.combined.decision, Decision::Allow);
    assert_eq!(o.fold_truncated, Some(true));
    assert_eq!(o.resolved_by, Some("approval"));
    assert_eq!(o.decided_by, Some(0));
}

#[test]
fn first_deny_resume_runs_the_rest() {
    let mut c = ctx("pre_tool_call");
    let mut fold = FirstDenyFold::new(2, Some(OnApproval::Resume));
    assert!(matches!(
        fold.on_verdict(&mut c, EnforcementMode::Enforce, true, Verdict::escalate(None, None)),
        FoldStep::Consult(_)
    ));
    let step = fold.on_consultation(
        &mut c,
        EnforcementMode::Enforce,
        Consultation::Substituted { verdict: Verdict::allow(), permitted: true },
    );
    assert!(matches!(step, FoldStep::Continue));
    let o = done(fold.on_verdict(&mut c, EnforcementMode::Enforce, true, deny()));
    assert_eq!(o.combined.decision, Decision::Deny);
    assert_eq!(o.decided_by, Some(1));
    assert_eq!(o.resolved_by, Some("approval"));
    assert_eq!(o.fold_truncated, Some(false));
}

#[test]
fn first_deny_transform_folds_and_finish_attributes_it() {
    let mut c = ctx("pre_tool_call");
    let mut fold = FirstDenyFold::new(2, None);
    assert!(matches!(
        fold.on_verdict(&mut c, EnforcementMode::Enforce, false, transform("$target.url", r#""safe""#)),
        FoldStep::Continue
    ));
    assert_eq!(*c.get("target").unwrap().get("url").unwrap(), j(r#""safe""#));
    assert!(matches!(fold.on_verdict(&mut c, EnforcementMode::Enforce, false, Verdict::allow()), FoldStep::Continue));
    let o = fold.finish();
    assert_eq!(o.combined.decision, Decision::Transform);
    assert_eq!(o.decided_by, Some(0));
    assert_eq!(o.fold_truncated, Some(false));
    assert_eq!(o.verdicts.len(), 2);
}

#[test]
fn first_deny_bad_transform_path_fails_closed() {
    let mut c = ctx("pre_tool_call");
    let mut fold = FirstDenyFold::new(1, None);
    let o = done(fold.on_verdict(&mut c, EnforcementMode::Enforce, false, transform("$target.nope.x", "1")));
    assert_eq!(o.combined.reason.as_deref(), Some("host_error:transform_invalid"));
    assert_eq!(o.combined.message.as_deref(), Some("$target.nope.x"));
    assert_eq!(o.decided_by, None);
}

#[test]
fn echo_rule_violation_is_identity_mismatch() {
    let id = Some("sha256:real".to_string());
    let res = ApprovalResolution {
        outcome: ApprovalOutcome::Approve,
        context_identity: Some("sha256:forged".into()),
        verdict: Some(Verdict::allow()),
    };
    match judge_resolution(&id, res) {
        Consultation::Substituted { verdict, permitted } => {
            assert!(!permitted);
            assert_eq!(verdict.reason.as_deref(), Some("host_error:approval_identity_mismatch"));
        }
        other => panic!("unexpected {other:?}"),
    }
}

#[test]
fn judge_rejects_inconsistent_resolutions() {
    let id = None;
    let approve_deny = ApprovalResolution { outcome: ApprovalOutcome::Approve, context_identity: None, verdict: Some(deny()) };
    match judge_resolution(&id, approve_deny) {
        Consultation::Substituted { verdict, permitted } => {
            assert!(!permitted);
            assert_eq!(verdict.reason.as_deref(), Some("host_error:verdict_invalid"));
        }
        other => panic!("unexpected {other:?}"),
    }
    let unresolved = ApprovalResolution { outcome: ApprovalOutcome::Unresolved, context_identity: None, verdict: Some(deny()) };
    match judge_resolution(&id, unresolved) {
        Consultation::Substituted { verdict, .. } => {
            assert_eq!(verdict.reason.as_deref(), Some("host_error:approval_unresolved"))
        }
        other => panic!("unexpected {other:?}"),
    }
    let reject = ApprovalResolution { outcome: ApprovalOutcome::Reject, context_identity: None, verdict: Some(deny()) };
    match judge_resolution(&id, reject) {
        Consultation::Substituted { verdict, permitted } => {
            assert!(!permitted);
            assert_eq!(verdict.decision, Decision::Deny);
            assert_eq!(verdict.reason, None);
        }
        other => panic!("unexpected {other:?}"),
    }
}

#[test]
fn shutdown_never_consults() {
    let c = ctx("agent_shutdown");
    assert!(!needs_consult(&Verdict::escalate(None, None), EnforcementMode::Enforce, &c, true));
    let c = ctx("pre_tool_call");
    assert!(needs_consult(&Verdict::escalate(None, None), EnforcementMode::Enforce, &c, true));
    assert!(!needs_consult(&Verdict::escalate(None, None), EnforcementMode::EvaluateOnly, &c, true));
    assert!(!needs_consult(&deny(), EnforcementMode::Enforce, &c, true));
}

#[test]
fn run_all_collects_everything() {
    let mut c = ctx("pre_tool_call");
    let mut all = Vec::new();
    assert!(run_all_step(&mut c, EnforcementMode::Enforce, &mut all, deny()).is_none());
    assert!(run_all_step(&mut c, EnforcementMode::Enforce, &mut all, Verdict::allow()).is_none());
    assert_eq!(all.len(), 2);
    let o = run_all_step(&mut c, EnforcementMode::Enforce, &mut all, transform("$target.missing.x", "1")).unwrap();
    assert_eq!(o.combined.reason.as_deref(), Some("host_error:transform_invalid"));
    assert_eq!(o.verdicts.len(), 3);
}

#[test]
fn parallel_strictest_conflict_synthesizes_deny() {
    let mut c = ctx("pre_tool_call");
    let all = vec![transform("$target.url", r#""a""#), transform("$target.url", r#""b""#)];
    match aggregate_plan(&mut c, EnforcementMode::Enforce, false, all, false, None, Some(SynthesisPolicy::Deny)) {
        AggregateStep::Done(o) => {
            assert_eq!(o.combined.reason.as_deref(), Some("host_error:transform_conflict"));
            assert_eq!(o.combined.message.as_deref(), Some("conflicting transforms from interceptors [0, 1]"));
            assert_eq!(o.decided_by, None);
        }
        other => panic!("unexpected {other:?}"),
    }
    assert_eq!(*c.get("target").unwrap().get("url").unwrap(), j(r#""evil""#));
}

#[test]
fn parallel_strictest_single_transform_is_applied() {
    let mut c = ctx("pre_tool_call");
    let all = vec![Verdict::allow(), transform("$target.url", r#""safe""#)];
    match aggregate_plan(&mut c, EnforcementMode::Enforce, false, all, false, None, None) {
        AggregateStep::Done(o) => {
            assert_eq!(o.combined.decision, Decision::Transform);
            assert_eq!(o.decided_by, Some(1));
        }
        other => panic!("unexpected {other:?}"),
    }
    assert_eq!(*c.get("target").unwrap().get("url").unwrap(), j(r#""safe""#));
    assert_eq!(*c.get("tool_call").unwrap().get("args").unwrap().get("url").unwrap(), j(r#""safe""#));
}

#[test]
fn parallel_liftable_winner_consults_then_resumes() {
    let mut c = ctx("pre_tool_call");
    let all = vec![Verdict::allow(), Verdict::escalate(Some("hold".into()), None)];
    let p = match aggregate_plan(&mut c, EnforcementMode::Enforce, true, all, false, None, None) {
        AggregateStep::Consult(p) => p,
        other => panic!("unexpected {other:?}"),
    };
    assert_eq!(p.winner, Some(1));
    let o = resume_aggregate(&mut c, EnforcementMode::Enforce, p, Consultation::Substituted { verdict: Verdict::allow(), permitted: true });
    assert_eq!(o.combined.decision, Decision::Allow);
    assert_eq!(o.resolved_by, Some("approval"));
}

#[test]
fn unanimous_disagreement_synthesizes() {
    let c = ctx("pre_tool_call");
    let all = vec![Verdict::allow(), transform("$target.url", r#""x""#)];
    match unanimous_plan(&c, EnforcementMode::Enforce, false, all, Some(SynthesisPolicy::Deny)) {
        AggregateStep::Done(o) => {
            assert_eq!(o.combined.reason.as_deref(), Some("host_error:composition_disagreement"));
            assert_eq!(o.combined.message.as_deref(), Some("non-unanimous outcome under parallel/unanimous"));
        }
        other => panic!("unexpected {other:?}"),
    }
    match unanimous_plan(&c, EnforcementMode::Enforce, false, vec![Verdict::allow(), Verdict::allow()], None) {
        AggregateStep::Done(o) => assert_eq!(o.combined.decision, Decision::Allow),
        other => panic!("unexpected {other:?}"),
    }
}

#[test]
fn host_failure_record_shape() {
    let r = record_host_failure(
        InterceptionPoint::PreToolCall,
        HostFailure {
            detail: Some("InvalidOperationException".into()),
            session_id: Some("s".into()),
            sequence: Some(7),
            timestamp: Some("2026-01-01T00:00:00Z".into()),
        },
        Some(JCS_SHA256.to_string()),
        EnforcementMode::Enforce,
        CompositionConfig::default(),
        1,
    );
    assert!(!r.proceeds());
    assert_eq!(r.interception_point, InterceptionPoint::PreToolCall);
    assert_eq!(r.verdict.reason.as_deref(), Some("host_error:context_invalid"));
    assert_eq!(r.verdict.message.as_deref(), Some("InvalidOperationException"));
    assert_eq!(r.identity_provider.as_deref(), Some(JCS_SHA256));
    assert!(r.input_identity.is_none() && r.enforced_identity.is_none());
    assert_eq!(r.decided_by, None);
    assert!(r.verdicts.is_empty());
    assert_eq!(r.interceptors_registered, 1);
    assert_eq!(r.session_id, "s");
    assert_eq!(r.sequence, 7);
    assert_eq!(r.timestamp.as_deref(), Some("2026-01-01T00:00:00Z"));
}

#[test]
fn host_failure_defaults_and_truncation() {
    let r = record_host_failure(
        InterceptionPoint::Output,
        HostFailure::default(),
        None,
        EnforcementMode::EvaluateOnly,
        CompositionConfig::default(),
        0,
    );
    assert_eq!(r.session_id, "");
    assert_eq!(r.sequence, -1);
    assert!(r.timestamp.is_none());
    assert!(r.verdict.message.is_none());
    assert_eq!(r.mode, EnforcementMode::EvaluateOnly);
    let r = record_host_failure(
        InterceptionPoint::PreToolCall,
        HostFailure { detail: Some("x".repeat(300)), ..HostFailure::default() },
        None,
        EnforcementMode::Enforce,
        CompositionConfig::default(),
        0,
    );
    let m = r.verdict.message.unwrap();
    assert!(m.ends_with('…') && m.len() <= 256 + '…'.len_utf8());
}

#[test]
fn ring_buffer_evicts_oldest() {
    let mut b = RecordBuffer::new();
    b.max_records = Some(2);
    for seq in 0..5 {
        let rec = record_host_failure(
            InterceptionPoint::Input,
            HostFailure { sequence: Some(seq), ..HostFailure::default() },
            None,
            EnforcementMode::Enforce,
            CompositionConfig::default(),
            0,
        );
        let back = b.deliver(rec);
        assert_eq!(back.sequence, seq);
    }
    assert_eq!(b.records.len(), 2);
    assert_eq!(b.dropped, 3);
    assert_eq!(b.records[0].sequence, 3);
    assert_eq!(b.records[1].sequence, 4);
}

#[test]
fn blocked_description_text() {
    let r = record_host_failure(
        InterceptionPoint::PreToolCall,
        HostFailure::default(),
        None,
        EnforcementMode::Enforce,
        CompositionConfig::default(),
        0,
    );
    assert_eq!(blocked_description(&r), "pre_tool_call blocked: deny (host_error:context_invalid)");
    let mut r2 = r.clone();
    r2.verdict.reason = None;
    assert_eq!(blocked_description(&r2), "pre_tool_call blocked: deny (no reason)");
}

#[test]
fn early_outcome_fails_closed_before_dispatch() {
    let ok: Result<(), (HostError, String)> = Ok(());
    let bad: Result<(), (HostError, String)> = Err((HostError::ContextInvalid, "envelope".into()));
    let id_ok: Result<Option<String>, (HostError, String)> = Ok(Some("sha256:1".into()));
    let id_bad: Result<Option<String>, (HostError, String)> = Err((HostError::ContextInvalid, "domain".into()));
    let o = early_outcome(&bad, &id_ok, 3).unwrap();
    assert_eq!(o.combined.message.as_deref(), Some("envelope"));
    let o = early_outcome(&ok, &id_bad, 3).unwrap();
    assert_eq!(o.combined.message.as_deref(), Some("domain"));
    assert_eq!(o.combined.reason.as_deref(), Some("host_error:context_invalid"));
    let o = early_outcome(&ok, &id_ok, 0).unwrap();
    assert_eq!(o.combined.reason.as_deref(), Some("host_error:no_interceptor"));
    assert!(o.decided_by.is_none() && o.verdicts.is_empty());
    assert!(early_outcome(&ok, &id_ok, 1).is_none());
}
