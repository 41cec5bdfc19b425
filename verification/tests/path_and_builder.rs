use agent_hooks::builder::{civil_from_days, rfc3339_from_unix, AgentContextBuilder};
use agent_hooks::json::{JsonMap, JsonNumber, JsonValue};
use agent_hooks::path::{apply, parse, resolve, Segment};
use agent_hooks::types::HostError;

fn conv(v: serde_json::Value) -> JsonValue {
    match v {
        serde_json::Value::Null => JsonValue::Null,
        serde_json::Value::Bool(b) => JsonValue::Bool(b),
        serde_json::Value::Number(n) => {
            if let Some(u) = n.as_u64() {
                JsonValue::Number(JsonNumber::PosInt(u))
            } else if let Some(i) = n.as_i64() {
                JsonValue::Number(JsonNumber::NegInt(i))
            } else {
                JsonValue::Number(JsonNumber::Float(n.to_string()))
            }
        }
        serde_json::Value::String(s) => JsonValue::String(s),
        serde_json::Value::Array(a) => JsonValue::Array(a.into_iter().map(conv).collect()),
        serde_json::Value::Object(m) => JsonValue::Object(JsonMap {
            entries: m.into_iter().map(|(k, v)| (k, conv(v))).collect(),
        }),
    }
}

fn j(text: &str) -> JsonValue {
    conv(serde_json::from_str(text).expect("test JSON parses"))
}

#[test]
fn root_only() {
    assert_eq!(parse("$target").unwrap(), vec![]);
}

#[test]
fn dot_and_index() {
    assert_eq!(
        parse("$target.a.b[0].c").unwrap(),
        vec![
            Segment::Member("a".into()),
            Segment::Member("b".into()),
            Segment::Index(0),
            Segment::Member("c".into()),
        ]
    );
}

#[test]
fn bracket_member() {
    assert_eq!(
        parse(r#"$target["weird-key"]"#).unwrap(),
        vec![Segment::Member("weird-key".into())]
    );
}

#[test]
fn policy_target_alias() {
    assert_eq!(parse("$policy_target.x").unwrap(), vec![Segment::Member("x".into())]);
}

#[test]
fn foreign_root_forbidden() {
    assert_eq!(parse("$snapshot.x"), Err(HostError::TransformTargetForbidden));
}

#[test]
fn resolve_and_apply() {
    let t = j(r#"{"a": {"b": [10, 20]}}"#);
    assert_eq!(*resolve(&t, "$target.a.b[1]").unwrap(), j("20"));
    let t2 = apply(t, "$target.a.b[1]", j("99")).unwrap();
    let b = t2.get("a").unwrap().get("b").unwrap().as_array().unwrap();
    assert_eq!(b[1], j("99"));
}

#[test]
fn apply_root() {
    let out = apply(j(r#"{"x": 1}"#), "$target", j(r#""new""#)).unwrap();
    assert_eq!(out, j(r#""new""#));
}

#[test]
fn apply_unresolvable() {
    assert_eq!(
        apply(j(r#"{"a": 1}"#), "$target.missing.deeper", j("0")),
        Err(HostError::TransformInvalid)
    );
}

#[test]
fn apply_missing_leaf() {
    assert_eq!(apply(j(r#"{"a": 1}"#), "$target.b", j("0")), Err(HostError::TransformInvalid));
}

#[test]
fn parse_rejects_malformed_segments() {
    assert_eq!(parse("$target."), Err(HostError::TransformInvalid));
    assert_eq!(parse("$target[x]"), Err(HostError::TransformInvalid));
    assert_eq!(parse("$target[\"open"), Err(HostError::TransformInvalid));
    assert_eq!(parse("$targetx"), Err(HostError::TransformInvalid));
    assert_eq!(parse("target.x"), Err(HostError::TransformTargetForbidden));
}

#[test]
fn parse_index_and_quoted_member_mix() {
    assert_eq!(
        parse(r#"$target[12]["k-y"].z"#).unwrap(),
        vec![Segment::Index(12), Segment::Member("k-y".into()), Segment::Member("z".into())]
    );
    assert_eq!(parse(r#"$target["k.y"]"#), Err(HostError::TransformInvalid));
}

#[test]
fn resolve_errors_and_root() {
    let t = j(r#"{"a": [1]}"#);
    assert_eq!(*resolve(&t, "$target").unwrap(), t);
    assert_eq!(resolve(&t, "$target.a[3]"), Err(HostError::TransformInvalid));
    assert_eq!(resolve(&t, "$target.a.b"), Err(HostError::TransformInvalid));
    assert_eq!(resolve(&t, "$other"), Err(HostError::TransformTargetForbidden));
}

#[test]
fn apply_then_resolve_reads_back_the_write() {
    let t = j(r#"{"a": {"b": [1, {"c": 2}]}}"#);
    let t2 = apply(t, "$target.a.b[1].c", j(r#"{"new": true}"#)).unwrap();
    assert_eq!(*resolve(&t2, "$target.a.b[1].c").unwrap(), j(r#"{"new": true}"#));
    assert_eq!(*resolve(&t2, "$target.a.b[0]").unwrap(), j("1"));
}

#[test]
fn civil_epoch_and_leap() {
    assert_eq!(civil_from_days(0), (1970, 1, 1));
    assert_eq!(civil_from_days(19_723), (2024, 1, 1));
    assert_eq!(civil_from_days(19_782), (2024, 2, 29));
}

#[test]
fn civil_before_epoch_and_century_rules() {
    assert_eq!(civil_from_days(-1), (1969, 12, 31));
    assert_eq!(civil_from_days(-719_468), (0, 3, 1));
    assert_eq!(civil_from_days(11_016), (2000, 2, 29));
    assert_eq!(civil_from_days(47_541), (2100, 3, 1));
}

#[test]
fn rfc3339_formats_millis() {
    assert_eq!(rfc3339_from_unix(0, 0), "1970-01-01T00:00:00.000Z");
    assert_eq!(rfc3339_from_unix(1_767_225_600, 7), "2026-01-01T00:00:00.007Z");
    assert_eq!(rfc3339_from_unix(951_782_399, 999), "2000-02-28T23:59:59.999Z");
}

#[test]
fn sequence_monotonic_and_required_complete() {
    let mut b = AgentContextBuilder::new("a", "test", "s");
    let ts = "2026-01-01T00:00:00.000Z".to_string();
    let c0 = b.agent_startup(ts.clone(), vec!["t".into()]);
    let c1 = b.input(ts, j(r#""hi""#), "user");
    assert_eq!(*c0.get("sequence").unwrap(), j("0"));
    assert_eq!(*c1.get("sequence").unwrap(), j("1"));
    for k in ["spec", "interception_point", "timestamp", "sequence", "agent", "session", "target"] {
        assert!(c1.contains_key(k), "missing {k}");
    }
    assert_eq!(*c1.get("input").unwrap().get("role").unwrap(), j(r#""user""#));
}

#[test]
fn builder_envelope_fields_and_optional_members() {
    let mut b = AgentContextBuilder::new("agent-1", "fw", "sess-9");
    b.with_optional("extensions", j(r#"{"host": 1}"#));
    let c = b.pre_tool_call("t0".into(), "call-1", "search", j(r#"{"q": "x"}"#));
    assert_eq!(*c.get("spec").unwrap(), j(r#""agent-hooks/0.1""#));
    assert_eq!(*c.get("interception_point").unwrap(), j(r#""pre_tool_call""#));
    assert_eq!(*c.get("timestamp").unwrap(), j(r#""t0""#));
    assert_eq!(*c.get("agent").unwrap().get("id").unwrap(), j(r#""agent-1""#));
    assert_eq!(*c.get("session").unwrap().get("id").unwrap(), j(r#""sess-9""#));
    assert_eq!(*c.get("target").unwrap(), j(r#"{"q": "x"}"#));
    assert_eq!(*c.get("tool_call").unwrap().get("name").unwrap(), j(r#""search""#));
    assert_eq!(*c.get("extensions").unwrap(), j(r#"{"host": 1}"#));
    let s = b.agent_shutdown("t1".into(), "completed");
    assert_eq!(*s.get("sequence").unwrap(), j("1"));
    assert_eq!(*s.get("summary").unwrap().get("reason").unwrap(), j(r#""completed""#));
}

#[test]
fn every_built_context_has_a_valid_envelope() {
    let mut b = AgentContextBuilder::new("a", "fw", "s");
    let ts = || "2026-01-01T00:00:00.000Z".to_string();
    let all = vec![
        b.agent_startup(ts(), vec!["x".into()]),
        b.input(ts(), j(r#""hi""#), "user"),
        b.pre_model_call(ts(), "m", vec![j(r#"{"role": "user", "content": "hi"}"#)]),
        b.post_model_call(ts(), "m", j("null"), vec![], "stop"),
        b.pre_tool_call(ts(), "c", "t", j("{}")),
        b.post_tool_call(ts(), "c", "t", j("{}"), j("1"), false),
        b.output(ts(), j(r#""bye""#)),
        b.agent_shutdown(ts(), "completed"),
    ];
    for (i, c) in all.iter().enumerate() {
        assert!(agent_hooks::canonical::validate_envelope(c).is_ok(), "context {i}");
        assert_eq!(*c.get("sequence").unwrap(), JsonValue::Number(JsonNumber::PosInt(i as u64)));
    }
}

fn civil_reference(z: i64) -> (i64, u32, u32) {
    let z = z as i128 + 719_468;
    let era = z.div_euclid(146_097);
    let doe = z - era * 146_097;
    let yoe = (doe - doe / 1460 + doe / 36_524 - doe / 146_096) / 365;
    let y = yoe + era * 400;
    let doy = doe - (365 * yoe + yoe / 4 - yoe / 100);
    let mp = (5 * doy + 2) / 153;
    let d = (doy - (153 * mp + 2) / 5 + 1) as u32;
    let m = if mp < 10 { mp + 3 } else { mp - 9 } as u32;
    ((if m <= 2 { y + 1 } else { y }) as i64, m, d)
}

#[test]
fn civil_from_days_at_the_extremes() {
    for z in [i64::MIN, i64::MIN + 1, -719_469, -719_468, -1, 1, 1 << 40, i64::MAX - 719_468] {
        assert_eq!(civil_from_days(z), civil_reference(z), "{z}");
    }
}

#[test]
fn apply_leaves_other_paths_alone() {
    let t = j(r#"{"a": {"x": 1, "y": [1, 2]}, "b": 2}"#);
    let t2 = apply(t.clone(), "$target.a.y[1]", j("9")).unwrap();
    assert_eq!(resolve(&t2, "$target.a.x").unwrap(), resolve(&t, "$target.a.x").unwrap());
    assert_eq!(resolve(&t2, "$target.a.y[0]").unwrap(), resolve(&t, "$target.a.y[0]").unwrap());
    assert_eq!(resolve(&t2, "$target.b").unwrap(), resolve(&t, "$target.b").unwrap());
    assert_eq!(resolve(&t2, "$target.a.y[1]").unwrap(), &j("9"));
}

#[test]
fn policy_target_parses_as_target() {
    for rest in ["", ".a", "[\"k-1\"][3].b", ".", "[x]", "nope"] {
        assert_eq!(parse(&format!("$policy_target{rest}")), parse(&format!("$target{rest}")), "{rest}");
    }
}

#[test]
fn rendered_segments_parse_back() {
    let segs = vec![
        Segment::Member("ab-c_1".into()),
        Segment::Index(12),
        Segment::Member("Z".into()),
        Segment::Index(0),
        Segment::Index(usize::MAX),
    ];
    let mut text = String::from("$target");
    for s in &segs {
        match s {
            Segment::Member(m) => text.push_str(&format!(".{m}")),
            Segment::Index(i) => text.push_str(&format!("[{i}]")),
        }
    }
    assert_eq!(parse(&text).unwrap(), segs);
}
