use agent_hooks::canonical::{
    canonical_json, check_depth, context_identity, scan_projection_raw, scan_raw_integer_domain,
    validate_envelope, MAX_DEPTH,
};
use agent_hooks::json::{JsonMap, JsonNumber, JsonValue};
use agent_hooks::types::HostError;
use sha2::Digest;

fn conv(v: serde_json::Value) -> JsonValue {
    match v {
        serde_json::Value::Null => JsonValue::Null,
        serde_json::Value::Bool(b) => JsonValue::Bool(b),
        serde_json::Value::Number(n) => {
            if let Some(u) = n.as_u64() {
                JsonValue::Number(JsonNumber::PosInt(u))
            } else if let Some(i) = n.as_i64() {
                JsonValue::Number(JsonNumber::NegInt(i))
            } else {
                JsonValue::Number(JsonNumber::Float(n.to_string()))
            }
        }
        serde_json::Value::String(s) => JsonValue::String(s),
        serde_json::Value::Array(a) => JsonValue::Array(a.into_iter().map(conv).collect()),
        serde_json::Value::Object(m) => JsonValue::Object(JsonMap {
            entries: m.into_iter().map(|(k, v)| (k, conv(v))).collect(),
        }),
    }
}

fn j(text: &str) -> JsonValue {
    conv(serde_json::from_str(text).expect("test JSON parses"))
}

fn obj(text: &str) -> JsonMap {
    match j(text) {
        JsonValue::Object(m) => m,
        _ => panic!("not an object"),
    }
}

fn ctx(target: JsonValue) -> JsonMap {
    let mut m = obj(
        r#"{"spec": "agent-hooks/0.1", "interception_point": "pre_tool_call",
            "timestamp": "t", "sequence": 0,
            "agent": {"id": "a", "framework": "x"}, "session": {"id": "s"}}"#,
    );
    let mut tc = obj(r#"{"id": "tc", "name": "t"}"#);
    tc.insert("args".into(), target.deep_clone());
    m.insert("target".into(), target);
    m.insert("tool_call".into(), JsonValue::Object(tc));
    m
}

fn remove_nested(m: &mut JsonMap, outer: &str, inner: &str) {
    let pos = m.find(outer).unwrap();
    if let JsonValue::Object(o) = &mut m.entries[pos].1 {
        o.remove(inner);
    }
}

#[test]
fn jcs_key_order_utf16() {
    let v = JsonValue::Object(JsonMap {
        entries: vec![
            ("\u{e000}".to_string(), JsonValue::Number(JsonNumber::PosInt(1))),
            ("\u{10000}".to_string(), JsonValue::Number(JsonNumber::PosInt(2))),
        ],
    });
    assert_eq!(canonical_json(&v), "{\"\u{10000}\":2,\"\u{e000}\":1}");
}

#[test]
fn canonical_sorts_and_escapes() {
    assert_eq!(canonical_json(&j(r#"{"b": 1, "a": [true, null, "x\ny"]}"#)), "{\"a\":[true,null,\"x\\ny\"],\"b\":1}");
    assert_eq!(canonical_json(&j(r#""\u0001""#)), "\"\\u0001\"");
    assert_eq!(canonical_json(&j("-42")), "-42");
}

#[test]
fn nested_optional_fields_stripped() {
    let c = obj(
        r#"{"spec": "agent-hooks/0.1", "interception_point": "post_tool_call",
            "timestamp": "t", "sequence": 5,
            "agent": {"id": "a", "framework": "x", "name": "optional"},
            "session": {"id": "s", "turn": 3},
            "target": "v",
            "tool_call": {"id": "tc", "name": "t", "args": {}, "content_hash": "sha256:00"},
            "tool_result": {"value": "v", "is_error": false, "duration_ms": 12.5}}"#,
    );
    let mut bare = c.copy();
    remove_nested(&mut bare, "tool_result", "duration_ms");
    remove_nested(&mut bare, "tool_call", "content_hash");
    remove_nested(&mut bare, "agent", "name");
    remove_nested(&mut bare, "session", "turn");
    assert_eq!(context_identity(&c).unwrap(), context_identity(&bare).unwrap());
}

#[test]
fn identity_has_sha256_shape_and_depends_on_required_fields() {
    let a = context_identity(&ctx(j(r#"{"u": 1}"#))).unwrap();
    let b = context_identity(&ctx(j(r#"{"u": 2}"#))).unwrap();
    assert!(a.starts_with("sha256:"));
    assert_eq!(a.len(), 7 + 64);
    assert!(a[7..].chars().all(|c| c.is_ascii_hexdigit() && !c.is_ascii_uppercase()));
    assert_ne!(a, b);
}

#[test]
fn identity_digest_matches_known_value() {
    // SHA-256 of the canonical projection `{"target":{}}` plus the
    // required core below, computed independently.
    let c = ctx(j("{}"));
    let id = context_identity(&c).unwrap();
    let canon = r#"{"agent":{"framework":"x","id":"a"},"interception_point":"pre_tool_call","sequence":0,"session":{"id":"s"},"spec":"agent-hooks/0.1","target":{},"timestamp":"t","tool_call":{"args":{},"id":"tc","name":"t"}}"#;
    let d = <sha2::Sha256 as Digest>::digest(canon.as_bytes());
    let hex: String = d.iter().map(|b| format!("{b:02x}")).collect();
    assert_eq!(id, format!("sha256:{hex}"));
}

#[test]
fn rejects_integer_beyond_2_53() {
    let c = ctx(j(r#"{"id": 9007199254740993}"#));
    let (e, detail) = context_identity(&c).unwrap_err();
    assert_eq!(e, HostError::ContextInvalid);
    assert!(detail.contains("string-encode 64-bit identifiers"), "{detail}");

    let c = ctx(j(r#"{"id": -9007199254740993}"#));
    assert!(context_identity(&c).is_err());

    let c = ctx(j(r#"{"id": 18446744073709551615}"#));
    assert!(context_identity(&c).is_err());
}

#[test]
fn rejection_detail_names_the_path() {
    let c = ctx(j(r#"{"xs": [1, 9007199254740992]}"#));
    let (_, detail) = context_identity(&c).unwrap_err();
    assert!(detail.starts_with("$.target.xs[1]: integer 9007199254740992 exceeds 2^53"), "{detail}");
}

#[test]
fn accepts_boundary_and_string_encoded() {
    let c = ctx(j(r#"{"id": 9007199254740991}"#));
    assert!(context_identity(&c).is_ok());
    let c = ctx(j(r#"{"id": "9007199254740993"}"#));
    assert!(context_identity(&c).is_ok());
    let c = ctx(j(r#"{"id": -9007199254740991}"#));
    assert!(context_identity(&c).is_ok());
}

#[test]
fn optional_fields_not_checked() {
    let mut c = ctx(j(r#"{"ok": 1}"#));
    c.insert("extensions".into(), j(r#"{"host": {"big": 9007199254740993}}"#));
    assert!(context_identity(&c).is_ok());
}

#[test]
fn raw_scan_catches_beyond_u64_literals() {
    let c = r#"{"spec":"agent-hooks/0.1","interception_point":"pre_tool_call","timestamp":"t","sequence":0,"agent":{"id":"a","framework":"x"},"session":{"id":"s"},"target":{"id":18446744073709551616},"tool_call":{"id":"tc","name":"t","args":{"id":18446744073709551616}}}"#;
    let (e, d) = scan_projection_raw(c).unwrap_err();
    assert_eq!(e, HostError::ContextInvalid);
    assert!(d.contains("18446744073709551616"), "{d}");

    assert!(scan_raw_integer_domain(r#"{"id":18446744073709551616}"#).is_err());
    assert!(scan_raw_integer_domain(r#"{"id":18446744073709551617}"#).is_err());
    assert!(scan_raw_integer_domain(r#"{"id":-18446744073709551616}"#).is_err());
}

#[test]
fn raw_scan_respects_syntax_classes() {
    assert!(scan_raw_integer_domain(r#"{"x":1.8446744073709552e19}"#).is_ok());
    assert!(scan_raw_integer_domain(r#"{"x":9007199254740993.0}"#).is_ok());
    assert!(scan_raw_integer_domain(r#"{"x":9007199254740991}"#).is_ok());
    assert!(scan_raw_integer_domain(r#"{"x":9007199254740993}"#).is_err());
    assert!(scan_raw_integer_domain(r#"{"x":-9007199254740991}"#).is_ok());
    assert!(scan_raw_integer_domain(r#"{"x":"18446744073709551616","y":"a\"18446744073709551616"}"#).is_ok());
}

#[test]
fn raw_scan_detail_text() {
    let (e, d) = scan_raw_integer_domain(r#"[1, -90071992547409920]"#).unwrap_err();
    assert_eq!(e, HostError::ContextInvalid);
    assert_eq!(d, "integer -90071992547409920 exceeds 2^53; string-encode 64-bit identifiers, see spec §4.4");
}

#[test]
fn raw_scan_scoped_to_projection() {
    let c = r#"{"spec":"agent-hooks/0.1","interception_point":"pre_tool_call","timestamp":"t","sequence":0,"agent":{"id":"a","framework":"x"},"session":{"id":"s"},"target":{},"tool_call":{"id":"tc","name":"t","args":{},"content_hash":"h"},"extensions":{"host":{"big":18446744073709551616}},"usage":{"prompt_tokens":18446744073709551616}}"#;
    assert!(scan_projection_raw(c).is_ok());
    let c = r#"{"spec":"agent-hooks/0.1","interception_point":"pre_tool_call","timestamp":"t","sequence":0,"agent":{"id":"a","framework":"x"},"session":{"id":"s"},"target":{},"tool_call":{"id":"tc","name":"t","args":{"id":18446744073709551616}}}"#;
    assert!(scan_projection_raw(c).is_err());
}

#[test]
fn raw_scan_non_object_subfield_scanned_whole() {
    let c = r#"{"interception_point":"pre_tool_call","tool_call":[99999999999999999]}"#;
    assert!(scan_projection_raw(c).is_err());
    let c = r#"{"interception_point":"input","tool_call":[99999999999999999]}"#;
    assert!(scan_projection_raw(c).is_ok());
}

#[test]
fn depth_cap_fails_closed() {
    let mut v = j("1");
    for _ in 0..(MAX_DEPTH + 4) {
        v = JsonValue::Array(vec![v]);
    }
    let c = ctx(v);
    let (e, d) = context_identity(&c).unwrap_err();
    assert_eq!(e, HostError::ContextInvalid);
    assert!(d.contains("nests deeper"), "{d}");
    let mut v = j("1");
    for _ in 0..(MAX_DEPTH - 8) {
        v = JsonValue::Array(vec![v]);
    }
    assert!(context_identity(&ctx(v)).is_ok());
}

#[test]
fn check_depth_boundary() {
    let mut v = j("1");
    for _ in 0..(MAX_DEPTH - 1) {
        v = JsonValue::Array(vec![v]);
    }
    assert!(check_depth(&v).is_ok());
    let v = JsonValue::Array(vec![v]);
    assert_eq!(
        check_depth(&v),
        Err((HostError::ContextInvalid, "context nests deeper than 128 levels, see spec §12.3".to_string()))
    );
}

#[test]
fn envelope_validation() {
    assert!(validate_envelope(&ctx(j("{}"))).is_ok());
    let mut c = ctx(j("{}"));
    c.remove("session");
    let (e, d) = validate_envelope(&c).unwrap_err();
    assert_eq!(e, HostError::ContextInvalid);
    assert!(d.contains("`session.id`") || d.contains("`session`"), "{d}");
    let mut c = ctx(j("{}"));
    c.insert("interception_point".into(), j(r#""sideways""#));
    assert!(validate_envelope(&c).is_err());
}

#[test]
fn canonical_text_ignores_member_order() {
    let a = JsonValue::Object(JsonMap {
        entries: vec![
            ("b".into(), j(r#"{"y": [1, {"q": 1, "p": 2}], "x": null}"#)),
            ("a".into(), j("1")),
        ],
    });
    let b = JsonValue::Object(JsonMap {
        entries: vec![
            ("a".into(), j("1")),
            (
                "b".into(),
                JsonValue::Object(JsonMap {
                    entries: vec![
                        ("x".into(), JsonValue::Null),
                        (
                            "y".into(),
                            JsonValue::Array(vec![
                                j("1"),
                                JsonValue::Object(JsonMap {
                                    entries: vec![("p".into(), j("2")), ("q".into(), j("1"))],
                                }),
                            ]),
                        ),
                    ],
                }),
            ),
        ],
    });
    assert_eq!(canonical_json(&a), canonical_json(&b));
    assert_eq!(canonical_json(&a), r#"{"a":1,"b":{"x":null,"y":[1,{"p":2,"q":1}]}}"#);
}

#[test]
fn identity_ignores_member_order() {
    let a = ctx(j(r#"{"path": "/tmp/x", "mode": {"r": true, "w": false}}"#));
    let mut entries = a.entries.clone();
    entries.reverse();
    for (k, v) in entries.iter_mut() {
        if k.as_str() == "agent" || k.as_str() == "target" {
            if let JsonValue::Object(m) = v {
                m.entries.reverse();
            }
        }
    }
    let b = JsonMap { entries };
    assert_ne!(a.entries[0].0, b.entries[0].0);
    assert_eq!(context_identity(&a).unwrap(), context_identity(&b).unwrap());

    let mut c = ctx(j(r#"{"id": 9007199254740993, "k": 1}"#));
    let d = JsonMap { entries: c.entries.iter().rev().cloned().collect() };
    assert!(context_identity(&d).is_err());
    c.entries.reverse();
    assert!(context_identity(&c).is_err());
}

#[test]
fn identity_ignores_nested_optional_members() {
    let a = ctx(j(r#"{"k": 1}"#));
    let mut b = ctx(j(r#"{"k": 1}"#));
    for (k, v) in b.entries.iter_mut() {
        if let JsonValue::Object(m) = v {
            match k.as_str() {
                "agent" => { m.insert("name".into(), j(r#""bot""#)); }
                "session" => { m.insert("turn".into(), j("7")); }
                "tool_call" => { m.insert("content_hash".into(), j(r#"{"big": 9007199254740993}"#)); }
                _ => {}
            }
        }
    }
    assert_ne!(a, b);
    assert_eq!(context_identity(&a).unwrap(), context_identity(&b).unwrap());
}

#[test]
fn identity_ignores_removed_optional_members() {
    let mut a = ctx(j(r#"{"k": 1}"#));
    a.insert("extensions".into(), j(r#"{"host": {"x": 1}}"#));
    if let Some(JsonValue::Object(agent)) = a.entries.iter_mut().find(|e| e.0 == "agent").map(|e| &mut e.1) {
        agent.insert("name".into(), j(r#""bot""#));
    }
    let b = ctx(j(r#"{"k": 1}"#));
    assert_ne!(a, b);
    assert_eq!(context_identity(&a).unwrap(), context_identity(&b).unwrap());
}

#[test]
fn object_maps_keep_keys_ascending() {
    let mut m = JsonMap::new();
    for k in ["b", "a", "é", "B", "ab", "", "a"] {
        m.insert(k.into(), JsonValue::Null);
    }
    let keys: Vec<&str> = m.entries.iter().map(|e| e.0.as_str()).collect();
    assert_eq!(keys, vec!["", "B", "a", "ab", "b", "é"]);
    m.remove("ab");
    let keys: Vec<&str> = m.entries.iter().map(|e| e.0.as_str()).collect();
    assert_eq!(keys, vec!["", "B", "a", "b", "é"]);
}
