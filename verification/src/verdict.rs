//! Admission of an interceptor's JSON return value as a [`Verdict`].
use vstd::prelude::*;
use crate::json::{group_json_view, jv_entries, jv_seq, map_get, member, Entries, JNum, JView, JsonMap, JsonNumber, JsonValue};
use crate::jcs::{canon_number, decimal};
use crate::ctk_engine::{debug_str, write_debug_str};
use crate::text::{has_prefix, starts_with, push_str, to_owned};
use crate::types::{
    opt_str_view, reserved_reason, strings_view, warnings_view, Decision, Evidence, EvidenceView,
    HostError, Transform, TransformView, Verdict, VerdictView, Warning, WarningView,
    EVIDENCE_MAX_BYTES, HOST_ERROR_PREFIX,
};

verus! {

broadcast use group_json_view;

/// An admission failure: the error code and a detail message.
pub type WireError = (HostError, String);

/// An optional string member: absent or `null` is `None`, a string is
/// `Some`, anything else fails.
pub open spec fn spec_opt_string(v: Option<JView>) -> Result<Option<Seq<char>>, ()> {
    match v {
        None => Ok(None),
        Some(JView::Null) => Ok(None),
        Some(JView::Str(s)) => Ok(Some(s)),
        _ => Err(()),
    }
}

/// How a JSON value that was not expected is named in a type error
/// (`null`, ``boolean `true` ``, ``integer `5` ``, `string "x"`, `sequence`,
/// `map`).
pub open spec fn unexpected_text(v: JView) -> Seq<char> {
    match v {
        JView::Null => "null"@,
        JView::Bool(b) => if b {
            "boolean `true`"@
        } else {
            "boolean `false`"@
        },
        JView::Number(n) => match n {
            JNum::Float(_) => "floating point `"@ + canon_number(n) + "`"@,
            _ => "integer `"@ + canon_number(n) + "`"@,
        },
        JView::Str(s) => "string "@ + debug_str(s),
        JView::Array(_) => "sequence"@,
        JView::Object(_) => "map"@,
    }
}

/// The detail for an evidence member of the wrong type.
pub open spec fn evidence_type_detail(v: JView, expected: Seq<char>) -> Seq<char> {
    "evidence: invalid type: "@ + unexpected_text(v) + ", expected "@ + expected
}

/// The detail for a `warnings` member that is not an array of objects.
pub open spec fn warnings_shape_detail() -> Seq<char> {
    "warnings must be an array of objects (§5)"@
}

/// One element of `warnings`, or the detail of its first fault.
pub open spec fn spec_warning(v: JView) -> Result<WarningView, Seq<char>> {
    match v {
        JView::Object(m) => {
            let reason = match map_get(m, "reason"@) {
                None => Ok(None),
                Some(JView::Null) => Ok(None),
                Some(JView::Str(s)) => if has_prefix(s, HOST_ERROR_PREFIX@) {
                    Err(())
                } else {
                    Ok(Some(s))
                },
                _ => Err(()),
            };
            match reason {
                Ok(r) => match spec_opt_string(map_get(m, "message"@)) {
                    Ok(msg) => Ok(WarningView { reason: r, message: msg }),
                    Err(_) => Err("warnings[].message must be string or null"@),
                },
                Err(_) => Err("warnings[].reason must be a non-reserved string"@),
            }
        },
        _ => Err(warnings_shape_detail()),
    }
}

/// The elements of `warnings` from index 0 up to `n`, or the detail of the
/// first faulty one.
pub open spec fn spec_warning_items(items: Seq<JView>, n: int) -> Result<Seq<WarningView>, Seq<char>>
    decreases n,
{
    if n <= 0 {
        Ok(Seq::empty())
    } else {
        match spec_warning_items(items, n - 1) {
            Ok(ws) => match spec_warning(items[n - 1]) {
                Ok(w) => Ok(ws.push(w)),
                Err(d) => Err(d),
            },
            Err(d) => Err(d),
        }
    }
}

/// The `warnings` member.
pub open spec fn spec_warnings(v: Option<JView>) -> Result<Seq<WarningView>, Seq<char>> {
    match v {
        None => Ok(Seq::empty()),
        Some(JView::Null) => Ok(Seq::empty()),
        Some(JView::Array(items)) => spec_warning_items(items, items.len() as int),
        _ => Err(warnings_shape_detail()),
    }
}

/// The `result_labels` elements from index 0 up to `n`.
pub open spec fn spec_label_items(items: Seq<JView>, n: int) -> Result<Seq<Seq<char>>, ()>
    decreases n,
{
    if n <= 0 {
        Ok(Seq::empty())
    } else {
        match spec_label_items(items, n - 1) {
            Ok(ls) => match items[n - 1] {
                JView::Str(s) => Ok(ls.push(s)),
                _ => Err(()),
            },
            Err(_) => Err(()),
        }
    }
}

/// The `result_labels` member.
pub open spec fn spec_labels(v: Option<JView>) -> Result<Seq<Seq<char>>, ()> {
    match v {
        None => Ok(Seq::empty()),
        Some(JView::Null) => Ok(Seq::empty()),
        Some(JView::Array(items)) => spec_label_items(items, items.len() as int),
        _ => Err(()),
    }
}

/// All members of a `verification_pointers` object are strings.
pub open spec fn all_string_members(m: Entries) -> bool {
    forall|i: int| 0 <= i < m.len() ==> (#[trigger] m[i]).1 is Str
}

/// The first `n` pointers are strings, or the detail naming the first that
/// is not.
pub open spec fn spec_pointer_check(ps: Entries, n: int) -> Result<(), Seq<char>>
    decreases n,
{
    if n <= 0 {
        Ok(())
    } else {
        match spec_pointer_check(ps, n - 1) {
            Ok(_) => if ps[n - 1].1 is Str {
                Ok(())
            } else {
                Err(evidence_type_detail(ps[n - 1].1, "a string"@))
            },
            Err(d) => Err(d),
        }
    }
}

/// The `evidence` member read as evidence: `artefact` an optional string,
/// `verification_pointers` absent or an object of strings; other members
/// are ignored. A fault gives the type error of the first bad member.
pub open spec fn spec_evidence(m: Entries) -> Result<EvidenceView, Seq<char>> {
    let a = match map_get(m, "artefact"@) {
        None => Ok(None),
        Some(JView::Null) => Ok(None),
        Some(JView::Str(s)) => Ok(Some(s)),
        Some(v) => Err(evidence_type_detail(v, "a string"@)),
    };
    match a {
        Ok(a) => match map_get(m, "verification_pointers"@) {
            None => Ok(EvidenceView { artefact: a, verification_pointers: Seq::empty() }),
            Some(JView::Object(ps)) => match spec_pointer_check(ps, ps.len() as int) {
                Ok(_) => Ok(EvidenceView {
                    artefact: a,
                    verification_pointers: ps.map_values(|p: (Seq<char>, JView)| (p.0, p.1->Str_0)),
                }),
                Err(d) => Err(d),
            },
            Some(v) => Err(evidence_type_detail(v, "a map"@)),
        },
        Err(d) => Err(d),
    }
}

/// `$target` or `$policy_target` prefix.
pub open spec fn rooted(p: Seq<char>) -> bool {
    has_prefix(p, "$target"@) || has_prefix(p, "$policy_target"@)
}

/// The decision named by the `decision` member.
pub open spec fn spec_decision(v: Option<JView>) -> Option<Decision> {
    match v {
        Some(JView::Str(s)) => if s == "allow"@ {
            Some(Decision::Allow)
        } else if s == "deny"@ {
            Some(Decision::Deny)
        } else if s == "transform"@ {
            Some(Decision::Transform)
        } else {
            None
        },
        _ => None,
    }
}

/// The detail for a `decision` member that names no decision: the member
/// as an optional string (`None`, or `Some("…")`).
pub open spec fn decision_detail(v: Option<JView>) -> Seq<char> {
    "verdict.decision invalid: "@ + match v {
        Some(JView::Str(s)) => "Some("@ + debug_str(s) + ")"@,
        _ => "None"@,
    } + " (§5.1: allow|deny|transform)"@
}

/// The `transform` member, or the detail of its fault.
pub open spec fn spec_transform(v: Option<JView>) -> Result<Option<TransformView>, Seq<char>> {
    match v {
        None => Ok(None),
        Some(JView::Null) => Ok(None),
        Some(JView::Object(t)) => match map_get(t, "path"@) {
            Some(JView::Str(p)) => if !rooted(p) {
                Err("transform.path must be rooted at $target (got "@ + debug_str(p) + ")"@)
            } else {
                Ok(Some(TransformView {
                    path: p,
                    value: match map_get(t, "value"@) {
                        Some(x) => x,
                        None => JView::Null,
                    },
                }))
            },
            _ => Err("transform.path missing"@),
        },
        _ => Err("verdict.transform must be {path, value}"@),
    }
}

/// The `approval` member given the decision.
pub open spec fn spec_approval(v: Option<JView>, d: Decision) -> Result<Option<Entries>, Seq<char>> {
    match v {
        None => Ok(None),
        Some(JView::Null) => Ok(None),
        Some(JView::Object(m)) => if d is Deny {
            Ok(Some(m))
        } else {
            Err("approval block permitted only on deny (§5.1)"@)
        },
        _ => Err("verdict.approval must be an object (§5)"@),
    }
}

/// The detail for evidence whose canonical text is `n` bytes, over the cap.
pub open spec fn evidence_cap_detail(n: nat) -> Seq<char> {
    "evidence canonical size "@ + decimal(n) + " exceeds 10240 bytes (§5.3)"@
}

/// The `evidence` member, including the canonical size cap.
pub open spec fn spec_evidence_member(v: Option<JView>) -> Result<Option<EvidenceView>, Seq<char>> {
    match v {
        None => Ok(None),
        Some(JView::Null) => Ok(None),
        Some(JView::Object(m)) => match spec_evidence(m) {
            Ok(e) => if crate::canonical::evidence_size(e) > EVIDENCE_MAX_BYTES {
                Err(evidence_cap_detail(crate::canonical::evidence_size(e)))
            } else {
                Ok(Some(e))
            },
            Err(d) => Err(d),
        },
        _ => Err("verdict.evidence must be an object"@),
    }
}

/// Admission of `raw`: the normalized verdict, or the detail message of
/// the first rule it breaks (each breach is `VerdictInvalid`).
pub open spec fn wire_admission(raw: JView) -> Result<VerdictView, Seq<char>> {
    match raw {
        JView::Object(obj) => match spec_decision(map_get(obj, "decision"@)) {
            None => Err(decision_detail(map_get(obj, "decision"@))),
            Some(decision) => match spec_opt_string(map_get(obj, "reason"@)) {
                Err(_) => Err("verdict.reason must be string or null"@),
                Ok(reason) => if reserved_reason(reason) {
                    Err("verdict.reason MUST NOT start with 'host_error:' (§5)"@)
                } else {
                    match spec_opt_string(map_get(obj, "message"@)) {
                        Err(_) => Err("verdict.message must be string or null"@),
                        Ok(message) => match spec_warnings(map_get(obj, "warnings"@)) {
                            Err(d) => Err(d),
                            Ok(warnings) => match spec_approval(map_get(obj, "approval"@), decision) {
                                Err(d) => Err(d),
                                Ok(approval) => match spec_transform(map_get(obj, "transform"@)) {
                                    Err(d) => Err(d),
                                    Ok(transform) => if (decision is Transform) && transform is None {
                                        Err("transform body REQUIRED when decision=='transform' (§5)"@)
                                    } else if !(decision is Transform) && transform is Some {
                                        Err("transform body FORBIDDEN when decision!='transform' (§5)"@)
                                    } else {
                                        match spec_evidence_member(map_get(obj, "evidence"@)) {
                                            Err(d) => Err(d),
                                            Ok(evidence) => match spec_labels(map_get(obj, "result_labels"@)) {
                                                Err(_) => Err("result_labels must be an array of strings"@),
                                                Ok(labels) => Ok(VerdictView {
                                                    decision: decision,
                                                    reason: reason,
                                                    message: message,
                                                    warnings: warnings,
                                                    approval: approval,
                                                    transform: transform,
                                                    evidence: evidence,
                                                    result_labels: labels,
                                                }),
                                            },
                                        }
                                    },
                                },
                            },
                        },
                    }
                },
            },
        },
        _ => Err("verdict must be a JSON object"@),
    }
}

/// Admission of `raw`: the normalized verdict, or the code of the rule it
/// breaks (always `VerdictInvalid`).
pub open spec fn spec_from_wire(raw: JView) -> Result<VerdictView, HostError> {
    match wire_admission(raw) {
        Ok(v) => Ok(v),
        Err(_) => Err(HostError::VerdictInvalid),
    }
}

// ---- executable ---------------------------------------------------------

fn fail(detail: &str) -> (r: WireError)
    ensures
        r.0 == HostError::VerdictInvalid,
        r.1@ == detail@,
{
    (HostError::VerdictInvalid, to_owned(detail))
}

/// An optional string member.
fn opt_string(obj: &JsonMap, key: &str) -> (r: Result<Option<String>, ()>)
    ensures
        match r {
            Ok(o) => spec_opt_string(map_get(obj@, key@)) == Ok::<Option<Seq<char>>, ()>(opt_str_view(o)),
            Err(_) => spec_opt_string(map_get(obj@, key@)) is Err,
        },
{
    match obj.get(key) {
        None => Ok(None),
        Some(JsonValue::Null) => Ok(None),
        Some(JsonValue::String(s)) => Ok(Some(s.clone())),
        Some(_) => Err(()),
    }
}

/// Appends how a type error names `v`.
fn write_unexpected(v: &JsonValue, out: &mut String)
    ensures
        final(out)@ == old(out)@ + unexpected_text(v@),
{
    let ghost o = out@;
    match v {
        JsonValue::Null => push_str(out, "null"),
        JsonValue::Bool(b) => {
            if *b {
                push_str(out, "boolean `true`");
            } else {
                push_str(out, "boolean `false`");
            }
        },
        JsonValue::Number(n) => {
            match n {
                JsonNumber::Float(_) => push_str(out, "floating point `"),
                _ => push_str(out, "integer `"),
            }
            crate::jcs::write_canonical(v, out);
            push_str(out, "`");
        },
        JsonValue::String(s) => {
            push_str(out, "string ");
            write_debug_str(s.as_str(), out);
        },
        JsonValue::Array(_) => push_str(out, "sequence"),
        JsonValue::Object(_) => push_str(out, "map"),
    }
    assert(out@ =~= o + unexpected_text(v@));
}

/// The detail for an evidence member `v` of the wrong type.
fn evidence_type_error(v: &JsonValue, expected: &str) -> (r: String)
    ensures
        r@ == evidence_type_detail(v@, expected@),
{
    let mut d = to_owned("evidence: invalid type: ");
    write_unexpected(v, &mut d);
    push_str(&mut d, ", expected ");
    push_str(&mut d, expected);
    d
}

/// One element of `warnings`.
fn read_warning(v: &JsonValue) -> (r: Result<Warning, String>)
    ensures
        match r {
            Ok(w) => spec_warning(v@) == Ok::<WarningView, Seq<char>>(w@),
            Err(d) => spec_warning(v@) == Err::<WarningView, Seq<char>>(d@),
        },
{
    match v {
        JsonValue::Object(m) => {
            let reason = match m.get("reason") {
                None => None,
                Some(JsonValue::Null) => None,
                Some(JsonValue::String(s)) => {
                    if starts_with(s.as_str(), HOST_ERROR_PREFIX) {
                        return Err(to_owned("warnings[].reason must be a non-reserved string"));
                    }
                    Some(s.clone())
                },
                Some(_) => {
                    return Err(to_owned("warnings[].reason must be a non-reserved string"));
                },
            };
            let message = match opt_string(m, "message") {
                Ok(x) => x,
                Err(_) => {
                    return Err(to_owned("warnings[].message must be string or null"));
                },
            };
            Ok(Warning { reason, message })
        },
        _ => Err(to_owned("warnings must be an array of objects (§5)")),
    }
}

/// The `warnings` member.
#[verifier::loop_isolation(false)]
fn read_warnings(v: Option<&JsonValue>) -> (r: Result<Vec<Warning>, String>)
    ensures
        match r {
            Ok(ws) => spec_warnings(crate::json::opt_view(v)) == Ok::<Seq<WarningView>, Seq<char>>(warnings_view(ws@)),
            Err(d) => spec_warnings(crate::json::opt_view(v)) == Err::<Seq<WarningView>, Seq<char>>(d@),
        },
{
    match v {
        None => {
            let ws: Vec<Warning> = Vec::new();
            assert(warnings_view(ws@) =~= Seq::<WarningView>::empty());
            Ok(ws)
        },
        Some(JsonValue::Null) => {
            let ws: Vec<Warning> = Vec::new();
            assert(warnings_view(ws@) =~= Seq::<WarningView>::empty());
            Ok(ws)
        },
        Some(JsonValue::Array(items)) => {
            let ghost iv = jv_seq(items@);
            let mut ws: Vec<Warning> = Vec::new();
            let n = items.len();
            assert(warnings_view(ws@) =~= Seq::<WarningView>::empty());
            for i in 0..n
                invariant
                    n == items@.len(),
                    iv == jv_seq(items@),
                    spec_warning_items(iv, i as int) == Ok::<Seq<WarningView>, Seq<char>>(warnings_view(ws@)),
            {
                assert(iv[i as int] == items@[i as int]@);
                match read_warning(&items[i]) {
                    Ok(w) => {
                        let ghost old = ws@;
                        let ghost wv = w@;
                        ws.push(w);
                        assert(warnings_view(ws@) =~= warnings_view(old).push(wv));
                    },
                    Err(d) => {
                        assert(spec_warning_items(iv, i + 1) == Err::<Seq<WarningView>, Seq<char>>(d@));
                        proof {
                            lemma_warning_items_err(iv, i + 1, n as int);
                        }
                        return Err(d);
                    },
                }
            }
            Ok(ws)
        },
        Some(_) => Err(to_owned("warnings must be an array of objects (§5)")),
    }
}

/// The first failure among the warnings persists.
proof fn lemma_warning_items_err(items: Seq<JView>, k: int, n: int)
    requires
        0 <= k <= n,
        spec_warning_items(items, k) is Err,
    ensures
        spec_warning_items(items, n) == spec_warning_items(items, k),
    decreases n - k,
{
    if k < n {
        lemma_warning_items_err(items, k, n - 1);
    }
}

/// A failure among the first `k` labels persists.
proof fn lemma_label_items_err(items: Seq<JView>, k: int, n: int)
    requires
        0 <= k <= n,
        spec_label_items(items, k) is Err,
    ensures
        spec_label_items(items, n) is Err,
    decreases n - k,
{
    if k < n {
        lemma_label_items_err(items, k + 1, n);
    }
}

/// The first non-string pointer persists as the failure.
proof fn lemma_pointer_check_err(ps: Entries, k: int, n: int)
    requires
        0 <= k <= n,
        spec_pointer_check(ps, k) is Err,
    ensures
        spec_pointer_check(ps, n) == spec_pointer_check(ps, k),
    decreases n - k,
{
    if k < n {
        lemma_pointer_check_err(ps, k, n - 1);
    }
}

/// Pointers that all pass the check are all strings.
proof fn lemma_pointer_check_ok(ps: Entries, n: int)
    requires
        0 <= n <= ps.len(),
        spec_pointer_check(ps, n) is Ok,
    ensures
        forall|j: int| 0 <= j < n ==> (#[trigger] ps[j]).1 is Str,
    decreases n,
{
    if n > 0 {
        lemma_pointer_check_ok(ps, n - 1);
    }
}

/// The `result_labels` member.
#[verifier::loop_isolation(false)]
fn read_labels(v: Option<&JsonValue>) -> (r: Result<Vec<String>, ()>)
    ensures
        match r {
            Ok(ls) => spec_labels(crate::json::opt_view(v)) == Ok::<Seq<Seq<char>>, ()>(strings_view(ls@)),
            Err(_) => spec_labels(crate::json::opt_view(v)) is Err,
        },
{
    match v {
        None => {
            let ls: Vec<String> = Vec::new();
            assert(strings_view(ls@) =~= Seq::<Seq<char>>::empty());
            Ok(ls)
        },
        Some(JsonValue::Null) => {
            let ls: Vec<String> = Vec::new();
            assert(strings_view(ls@) =~= Seq::<Seq<char>>::empty());
            Ok(ls)
        },
        Some(JsonValue::Array(items)) => {
            let ghost iv = jv_seq(items@);
            let mut ls: Vec<String> = Vec::new();
            let n = items.len();
            assert(strings_view(ls@) =~= Seq::<Seq<char>>::empty());
            for i in 0..n
                invariant
                    n == items@.len(),
                    iv == jv_seq(items@),
                    spec_label_items(iv, i as int) == Ok::<Seq<Seq<char>>, ()>(strings_view(ls@)),
            {
                assert(iv[i as int] == items@[i as int]@);
                match &items[i] {
                    JsonValue::String(s) => {
                        let ghost old = ls@;
                        ls.push(s.clone());
                        assert(strings_view(ls@) =~= strings_view(old).push(s@));
                    },
                    _ => {
                        assert(spec_label_items(iv, i + 1) is Err);
                        proof {
                            lemma_label_items_err(iv, i + 1, n as int);
                        }
                        return Err(());
                    },
                }
            }
            Ok(ls)
        },
        Some(_) => Err(()),
    }
}

/// The `evidence` object read as evidence.
#[verifier::loop_isolation(false)]
fn read_evidence(m: &JsonMap) -> (r: Result<Evidence, String>)
    ensures
        match r {
            Ok(e) => spec_evidence(m@) == Ok::<EvidenceView, Seq<char>>(e@),
            Err(d) => spec_evidence(m@) == Err::<EvidenceView, Seq<char>>(d@),
        },
{
    let artefact = match m.get("artefact") {
        None => None,
        Some(JsonValue::Null) => None,
        Some(JsonValue::String(s)) => Some(s.clone()),
        Some(v) => {
            return Err(evidence_type_error(v, "a string"));
        },
    };
    match m.get("verification_pointers") {
        None => {
            let e = Evidence { artefact, verification_pointers: Vec::new() };
            assert(e@.verification_pointers =~= Seq::<(Seq<char>, Seq<char>)>::empty());
            Ok(e)
        },
        Some(JsonValue::Object(ps)) => {
            let ghost pv = ps@;
            let mut out: Vec<(String, String)> = Vec::new();
            let n = ps.entries.len();
            for i in 0..n
                invariant
                    n == ps.entries@.len(),
                    pv == ps@,
                    pv.len() == n,
                    out@.len() == i,
                    spec_pointer_check(pv, i as int) is Ok,
                    forall|j: int| 0 <= j < i ==> (#[trigger] out@[j]).0@ == pv[j].0 && out@[j].1@ == pv[j].1->Str_0,
            {
                assert(pv[i as int] == (ps.entries@[i as int].0@, ps.entries@[i as int].1@));
                match &ps.entries[i].1 {
                    JsonValue::String(s) => {
                        out.push((ps.entries[i].0.clone(), s.clone()));
                    },
                    _ => {
                        let d = evidence_type_error(&ps.entries[i].1, "a string");
                        proof {
                            lemma_pointer_check_err(pv, i + 1, n as int);
                        }
                        return Err(d);
                    },
                }
            }
            let e = Evidence { artefact, verification_pointers: out };
            assert(e@.verification_pointers =~= pv.map_values(|p: (Seq<char>, JView)| (p.0, p.1->Str_0)));
            Ok(e)
        },
        Some(v) => Err(evidence_type_error(v, "a map")),
    }
}

/// Parse and validate an interceptor's wire return value into a
/// [`Verdict`]. Any violation yields `VerdictInvalid` with a detail
/// message naming the first rule broken; the caller synthesizes the `deny`
/// verdict.
pub fn from_wire(raw: &JsonValue) -> (r: Result<Verdict, WireError>)
    ensures
        match r {
            Ok(v) => wire_admission(raw@) == Ok::<VerdictView, Seq<char>>(v@),
            Err(e) => e.0 == HostError::VerdictInvalid && wire_admission(raw@) == Err::<VerdictView, Seq<char>>(e.1@),
        },
        match r {
            Ok(v) => spec_from_wire(raw@) == Ok::<VerdictView, HostError>(v@),
            Err(e) => spec_from_wire(raw@) == Err::<VerdictView, HostError>(e.0),
        },
{
    let obj = match raw {
        JsonValue::Object(m) => m,
        _ => {
            return Err(fail("verdict must be a JSON object"));
        },
    };
    assert(raw@ == JView::Object(obj@));
    let dv = obj.get("decision");
    let decision = match dv {
        Some(JsonValue::String(s)) => {
            if crate::text::str_eq(s.as_str(), "allow") {
                Decision::Allow
            } else if crate::text::str_eq(s.as_str(), "deny") {
                Decision::Deny
            } else if crate::text::str_eq(s.as_str(), "transform") {
                Decision::Transform
            } else {
                let mut d = to_owned("verdict.decision invalid: ");
                push_str(&mut d, "Some(");
                write_debug_str(s.as_str(), &mut d);
                push_str(&mut d, ")");
                push_str(&mut d, " (§5.1: allow|deny|transform)");
                assert(d@ =~= decision_detail(map_get(obj@, "decision"@)));
                return Err((HostError::VerdictInvalid, d));
            }
        },
        _ => {
            let mut d = to_owned("verdict.decision invalid: ");
            push_str(&mut d, "None");
            push_str(&mut d, " (§5.1: allow|deny|transform)");
            assert(d@ =~= decision_detail(map_get(obj@, "decision"@)));
            return Err((HostError::VerdictInvalid, d));
        },
    };
    let reason = match opt_string(obj, "reason") {
        Ok(r) => r,
        Err(_) => {
            return Err(fail("verdict.reason must be string or null"));
        },
    };
    if let Some(r) = &reason {
        if starts_with(r.as_str(), HOST_ERROR_PREFIX) {
            return Err(fail("verdict.reason MUST NOT start with 'host_error:' (§5)"));
        }
    }
    let message = match opt_string(obj, "message") {
        Ok(m) => m,
        Err(_) => {
            return Err(fail("verdict.message must be string or null"));
        },
    };
    let warnings = match read_warnings(obj.get("warnings")) {
        Ok(w) => w,
        Err(d) => {
            return Err((HostError::VerdictInvalid, d));
        },
    };
    let approval = match obj.get("approval") {
        None => None,
        Some(JsonValue::Null) => None,
        Some(JsonValue::Object(m)) => {
            if decision != Decision::Deny {
                return Err(fail("approval block permitted only on deny (§5.1)"));
            }
            Some(m.copy())
        },
        Some(_) => {
            return Err(fail("verdict.approval must be an object (§5)"));
        },
    };
    let transform = match obj.get("transform") {
        None => None,
        Some(JsonValue::Null) => None,
        Some(JsonValue::Object(t)) => {
            let path = match t.get("path") {
                Some(JsonValue::String(p)) => p,
                _ => {
                    return Err(fail("transform.path missing"));
                },
            };
            if !(starts_with(path.as_str(), "$target") || starts_with(path.as_str(), "$policy_target")) {
                let mut detail = to_owned("transform.path must be rooted at $target (got ");
                write_debug_str(path.as_str(), &mut detail);
                push_str(&mut detail, ")");
                return Err((HostError::VerdictInvalid, detail));
            }
            let value = match t.get("value") {
                Some(x) => x.clone(),
                None => JsonValue::Null,
            };
            Some(Transform { path: path.clone(), value })
        },
        Some(_) => {
            return Err(fail("verdict.transform must be {path, value}"));
        },
    };
    match (decision, &transform) {
        (Decision::Transform, None) => {
            return Err(fail("transform body REQUIRED when decision=='transform' (§5)"));
        },
        (Decision::Allow, Some(_)) | (Decision::Deny, Some(_)) => {
            return Err(fail("transform body FORBIDDEN when decision!='transform' (§5)"));
        },
        _ => {},
    }
    let evidence = match obj.get("evidence") {
        None => None,
        Some(JsonValue::Null) => None,
        Some(JsonValue::Object(m)) => {
            let e = match read_evidence(m) {
                Ok(e) => e,
                Err(d) => {
                    return Err((HostError::VerdictInvalid, d));
                },
            };
            let text = crate::canonical::evidence_canonical(&e);
            let n = text.as_str().as_bytes().len();
            if n > EVIDENCE_MAX_BYTES {
                let mut detail = to_owned("evidence canonical size ");
                crate::jcs::write_decimal(n as u64, &mut detail);
                push_str(&mut detail, " exceeds 10240 bytes (§5.3)");
                return Err((HostError::VerdictInvalid, detail));
            }
            Some(e)
        },
        Some(_) => {
            return Err(fail("verdict.evidence must be an object"));
        },
    };
    let result_labels = match read_labels(obj.get("result_labels")) {
        Ok(l) => l,
        Err(_) => {
            return Err(fail("result_labels must be an array of strings"));
        },
    };
    Ok(Verdict { decision, reason, message, warnings, approval, transform, evidence, result_labels })
}

/// An admitted wire value meets every §5 rule: its reason is not
/// reserved, an approval block rides only on a deny, its evidence is within
/// the size cap, and it carries a transform body exactly when it is a
/// transform.
pub proof fn law_admitted_verdicts_are_valid(raw: JView)
    ensures
        spec_from_wire(raw) matches Ok(v) ==> crate::types::verdict_valid(v),
{
}

proof fn lemma_label_items_ok(items: Seq<JView>, n: int)
    requires
        0 <= n <= items.len(),
        spec_label_items(items, n) is Ok,
    ensures
        spec_label_items(items, n)->Ok_0.len() == n,
        forall|i: int| 0 <= i < n ==> items[i] == JView::Str(#[trigger] spec_label_items(items, n)->Ok_0[i]),
    decreases n,
{
    if n > 0 {
        lemma_label_items_ok(items, n - 1);
        let ls = spec_label_items(items, n - 1)->Ok_0;
        assert forall|i: int| 0 <= i < n implies items[i] == JView::Str(#[trigger] spec_label_items(items, n)->Ok_0[i]) by {
            if i < n - 1 {
                assert(spec_label_items(items, n)->Ok_0[i] == ls[i]);
            }
        }
    }
}

/// An admitted verdict carries what the wire said: the decision it named,
/// its reason and message, its approval block, the transform's path and
/// value (an absent value is `null`), and its labels in order.
pub proof fn law_admitted_verdict_carries_wire(raw: JView)
    requires
        spec_from_wire(raw) is Ok,
    ensures
        ({
            let v = spec_from_wire(raw)->Ok_0;
            &&& raw is Object
            &&& (v.decision is Allow <==> member(raw, "decision"@) == Some(JView::Str("allow"@)))
            &&& (v.decision is Deny <==> member(raw, "decision"@) == Some(JView::Str("deny"@)))
            &&& (v.decision is Transform <==> member(raw, "decision"@) == Some(JView::Str("transform"@)))
            &&& v.reason == crate::json::view_str(member(raw, "reason"@))
            &&& v.message == crate::json::view_str(member(raw, "message"@))
            &&& (member(raw, "approval"@) matches Some(JView::Object(m)) ==> v.approval == Some(m))
            &&& (!(member(raw, "approval"@) matches Some(JView::Object(_))) ==> v.approval is None)
            &&& (member(raw, "transform"@) matches Some(JView::Object(t)) ==> v.transform == Some(TransformView {
                path: crate::json::view_str(map_get(t, "path"@))->Some_0,
                value: match map_get(t, "value"@) {
                    Some(x) => x,
                    None => JView::Null,
                },
            }))
            &&& (!(member(raw, "transform"@) matches Some(JView::Object(_))) ==> v.transform is None)
            &&& (member(raw, "result_labels"@) matches Some(JView::Array(items)) ==> (v.result_labels.len() == items.len()
                && forall|i: int| 0 <= i < items.len() ==> items[i] == JView::Str(#[trigger] v.result_labels[i])))
            &&& (!(member(raw, "result_labels"@) matches Some(JView::Array(_))) ==> v.result_labels.len() == 0)
        }),
{
    reveal_strlit("allow");
    reveal_strlit("deny");
    reveal_strlit("transform");
    let obj = raw->Object_0;
    let v = spec_from_wire(raw)->Ok_0;
    if let Some(JView::Array(items)) = map_get(obj, "result_labels"@) {
        lemma_label_items_ok(items, items.len() as int);
    }
    assert(raw is Object);
    assert("transform"@.len() != "allow"@.len() && "transform"@.len() != "deny"@.len());
    assert("deny"@.len() != "allow"@.len());
    assert(v.decision is Allow <==> member(raw, "decision"@) == Some(JView::Str("allow"@)));
    assert(v.decision is Deny <==> member(raw, "decision"@) == Some(JView::Str("deny"@)));
    assert(v.decision is Transform <==> member(raw, "decision"@) == Some(JView::Str("transform"@)));
    assert(v.reason == crate::json::view_str(member(raw, "reason"@)));
    assert(v.message == crate::json::view_str(member(raw, "message"@)));
    assert(member(raw, "approval"@) matches Some(JView::Object(m)) ==> v.approval == Some(m));
    assert(!(member(raw, "approval"@) matches Some(JView::Object(_))) ==> v.approval is None);
    assert(!(member(raw, "transform"@) matches Some(JView::Object(_))) ==> v.transform is None);
    assert(!(member(raw, "result_labels"@) matches Some(JView::Array(_))) ==> v.result_labels.len() == 0);
}

proof fn lemma_warning_items_ok(items: Seq<JView>, n: int)
    requires
        0 <= n <= items.len(),
        spec_warning_items(items, n) is Ok,
    ensures
        spec_warning_items(items, n)->Ok_0.len() == n,
        forall|i: int| 0 <= i < n ==> spec_warning(items[i]) == Ok::<WarningView, Seq<char>>(#[trigger] spec_warning_items(items, n)->Ok_0[i]),
    decreases n,
{
    if n > 0 {
        lemma_warning_items_ok(items, n - 1);
        let ws = spec_warning_items(items, n - 1)->Ok_0;
        assert forall|i: int| 0 <= i < n implies spec_warning(items[i]) == Ok::<WarningView, Seq<char>>(#[trigger] spec_warning_items(items, n)->Ok_0[i]) by {
            if i < n - 1 {
                assert(spec_warning_items(items, n)->Ok_0[i] == ws[i]);
            }
        }
    }
}

/// An admitted verdict carries the wire's warnings, each with its reason
/// and message, in order, and its evidence artefact.
pub proof fn law_admitted_verdict_carries_warnings_and_evidence(raw: JView)
    requires
        spec_from_wire(raw) is Ok,
    ensures
        ({
            let v = spec_from_wire(raw)->Ok_0;
            &&& (member(raw, "warnings"@) matches Some(JView::Array(items)) ==> (v.warnings.len() == items.len()
                && forall|i: int| 0 <= i < items.len() ==> (#[trigger] items[i] matches JView::Object(w)
                    && v.warnings[i].reason == crate::json::view_str(map_get(w, "reason"@))
                    && v.warnings[i].message == crate::json::view_str(map_get(w, "message"@)))))
            &&& (!(member(raw, "warnings"@) matches Some(JView::Array(_))) ==> v.warnings.len() == 0)
            &&& (member(raw, "evidence"@) matches Some(JView::Object(e)) ==> (v.evidence matches Some(ev)
                && ev.artefact == crate::json::view_str(map_get(e, "artefact"@))))
            &&& (!(member(raw, "evidence"@) matches Some(JView::Object(_))) ==> v.evidence is None)
        }),
{
    let obj = raw->Object_0;
    let v = spec_from_wire(raw)->Ok_0;
    if let Some(JView::Array(items)) = map_get(obj, "warnings"@) {
        lemma_warning_items_ok(items, items.len() as int);
        assert forall|i: int| 0 <= i < items.len() implies (#[trigger] items[i] matches JView::Object(w)
            && v.warnings[i].reason == crate::json::view_str(map_get(w, "reason"@))
            && v.warnings[i].message == crate::json::view_str(map_get(w, "message"@))) by {
            assert(spec_warning(items[i]) == Ok::<WarningView, Seq<char>>(v.warnings[i]));
        }
    }
}

} // verus!
