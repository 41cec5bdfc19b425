//! Canonical serialization and the `jcs-sha256` identity provider.
use vstd::prelude::*;
use crate::json::{
    first_index, group_json_view, jv_entries, jv_seq, key_at, lemma_first_index, lemma_first_index_at,
    lemma_map_insert, map_get, map_insert, member, view_str, Entries, JNum, JView, JsonMap, JsonNumber,
    JsonValue,
};
use crate::types::{ip_from_name, Evidence, EvidenceView, HostError, InterceptionPoint};
use crate::jcs::{canon, distinct_keys, law_canon_ignores_member_order_deep, reordered};
use crate::text::{push_str, to_owned};
use sha2::Digest;

verus! {

broadcast use group_json_view;

/// The JSON shape of evidence: `artefact` when present, and
/// `verification_pointers` when non-empty.
pub open spec fn evidence_json(e: EvidenceView) -> JView {
    let a: Entries = match e.artefact {
        Some(s) => seq![("artefact"@, JView::Str(s))],
        None => Seq::empty(),
    };
    let p: Entries = if e.verification_pointers.len() > 0 {
        seq![("verification_pointers"@, JView::Object(e.verification_pointers.map_values(|q: (Seq<char>, Seq<char>)| (q.0, JView::Str(q.1)))))]
    } else {
        Seq::empty()
    };
    JView::Object(a + p)
}

/// UTF-8 byte length of the canonical serialization of evidence.
pub open spec fn evidence_size(e: EvidenceView) -> nat {
    vstd::utf8::encode_utf8(canon(evidence_json(e))).len()
}

/// The evidence member as a JSON value.
pub fn evidence_value(e: &Evidence) -> (r: JsonValue)
    ensures
        r@ == evidence_json(e@),
{
    let mut entries: Vec<(String, JsonValue)> = Vec::new();
    if let Some(a) = &e.artefact {
        entries.push((crate::text::to_owned("artefact"), JsonValue::String(a.clone())));
    }
    if e.verification_pointers.len() > 0 {
        let mut ps: Vec<(String, JsonValue)> = Vec::new();
        let n = e.verification_pointers.len();
        for i in 0..n
            invariant
                n == e.verification_pointers@.len(),
                jv_entries(ps@) == e@.verification_pointers.take(i as int).map_values(|q: (Seq<char>, Seq<char>)| (q.0, JView::Str(q.1))),
        {
            let ghost before = ps@;
            ps.push((e.verification_pointers[i].0.clone(), JsonValue::String(e.verification_pointers[i].1.clone())));
            assert(ps@.drop_last() == before);
            assert(jv_entries(ps@) =~= e@.verification_pointers.take(i + 1).map_values(|q: (Seq<char>, Seq<char>)| (q.0, JView::Str(q.1))));
        }
        assert(e@.verification_pointers.take(n as int) =~= e@.verification_pointers);
        entries.push((crate::text::to_owned("verification_pointers"), JsonValue::Object(JsonMap { entries: ps })));
    }
    let r = JsonValue::Object(JsonMap { entries });
    assert(jv_entries(entries@) =~= (match evidence_json(e@) {
        JView::Object(es) => es,
        _ => Seq::empty(),
    }));
    r
}

/// Canonical serialization of the evidence member.
pub fn evidence_canonical(e: &Evidence) -> (r: String)
    ensures
        r@ == canon(evidence_json(e@)),
        vstd::utf8::encode_utf8(r@).len() == evidence_size(e@),
{
    let v = evidence_value(e);
    crate::jcs::to_string(&v)
}

/// Largest integer magnitude an IEEE-754 double represents exactly
/// (2⁵³−1); the I-JSON interoperability bound.
pub const MAX_SAFE_INTEGER: u64 = 9_007_199_254_740_991;

/// Maximum nesting depth accepted on the identity path.
pub const MAX_DEPTH: usize = 128;

/// A failure with its code and a detail message.
pub type Failure = (HostError, String);

// ---- depth ------------------------------------------------------------------

/// Nesting depth: 1 for a scalar or an empty container, one more than the
/// deepest child otherwise.
pub open spec fn depth(v: JView) -> nat
    decreases v,
{
    match v {
        JView::Array(items) => 1 + depth_items(items),
        JView::Object(es) => 1 + depth_entries(es),
        _ => 1,
    }
}

/// The deepest item (0 when none).
pub open spec fn depth_items(s: Seq<JView>) -> nat
    decreases s,
{
    if s.len() == 0 {
        0
    } else {
        proof {
            assert(decreases_to!(s => s[s.len() - 1]));
            assert(decreases_to!(s => s.drop_last()));
        }
        let a = depth_items(s.drop_last());
        let b = depth(s[s.len() - 1]);
        if a > b {
            a
        } else {
            b
        }
    }
}

/// The deepest member value (0 when none).
pub open spec fn depth_entries(es: Entries) -> nat
    decreases es,
{
    if es.len() == 0 {
        0
    } else {
        proof {
            assert(decreases_to!(es => es[es.len() - 1]));
            assert(decreases_to!(es => es.drop_last()));
        }
        let a = depth_entries(es.drop_last());
        let b = depth(es[es.len() - 1].1);
        if a > b {
            a
        } else {
            b
        }
    }
}

proof fn lemma_depth_items(s: Seq<JView>, b: nat)
    ensures
        depth_items(s) > b <==> exists|i: int| 0 <= i < s.len() && depth(#[trigger] s[i]) > b,
    decreases s.len(),
{
    if s.len() > 0 {
        let t = s.drop_last();
        lemma_depth_items(t, b);
        if exists|i: int| 0 <= i < t.len() && depth(#[trigger] t[i]) > b {
            let i = choose|i: int| 0 <= i < t.len() && depth(#[trigger] t[i]) > b;
            assert(s[i] == t[i]);
        }
        if exists|i: int| 0 <= i < s.len() && depth(#[trigger] s[i]) > b {
            let i = choose|i: int| 0 <= i < s.len() && depth(#[trigger] s[i]) > b;
            if i < s.len() - 1 {
                assert(t[i] == s[i]);
            }
        }
    }
}

proof fn lemma_depth_entries(es: Entries, b: nat)
    ensures
        depth_entries(es) > b <==> exists|i: int| 0 <= i < es.len() && depth((#[trigger] es[i]).1) > b,
    decreases es.len(),
{
    if es.len() > 0 {
        let t = es.drop_last();
        lemma_depth_entries(t, b);
        if exists|i: int| 0 <= i < t.len() && depth((#[trigger] t[i]).1) > b {
            let i = choose|i: int| 0 <= i < t.len() && depth((#[trigger] t[i]).1) > b;
            assert(es[i] == t[i]);
        }
        if exists|i: int| 0 <= i < es.len() && depth((#[trigger] es[i]).1) > b {
            let i = choose|i: int| 0 <= i < es.len() && depth((#[trigger] es[i]).1) > b;
            if i < es.len() - 1 {
                assert(t[i] == es[i]);
            }
        }
    }
}

/// Whether `v` nests deeper than `budget`. Recursion stops at the budget,
/// so the call depth is bounded by it.
fn exceeds_depth(v: &JsonValue, budget: usize) -> (r: bool)
    ensures
        r == (depth(v@) > budget),
    decreases budget,
{
    if budget == 0 {
        return true;
    }
    match v {
        JsonValue::Array(items) => {
            proof {
                lemma_depth_items(jv_seq(items@), (budget - 1) as nat);
            }
            let n = items.len();
            for i in 0..n
                invariant
                    n == items@.len(),
                    budget > 0,
                    v@ == JView::Array(jv_seq(items@)),
                    forall|j: int| 0 <= j < i ==> depth(#[trigger] jv_seq(items@)[j]) <= budget - 1,
            {
                if exceeds_depth(&items[i], budget - 1) {
                    proof {
                        lemma_depth_items(jv_seq(items@), (budget - 1) as nat);
                        assert(depth(jv_seq(items@)[i as int]) > budget - 1);
                    }
                    return true;
                }
            }
            false
        },
        JsonValue::Object(m) => {
            proof {
                lemma_depth_entries(m@, (budget - 1) as nat);
            }
            let n = m.entries.len();
            for i in 0..n
                invariant
                    n == m.entries@.len(),
                    budget > 0,
                    v@ == JView::Object(m@),
                    forall|j: int| 0 <= j < i ==> depth((#[trigger] m@[j]).1) <= budget - 1,
            {
                assert(m@[i as int].1 == m.entries@[i as int].1@);
                if exceeds_depth(&m.entries[i].1, budget - 1) {
                    proof {
                        lemma_depth_entries(m@, (budget - 1) as nat);
                        assert(depth(m@[i as int].1) > budget - 1);
                    }
                    return true;
                }
            }
            false
        },
        _ => false,
    }
}

/// The detail for a context nested too deep.
pub open spec fn depth_detail() -> Seq<char> {
    "context nests deeper than 128 levels, see spec §12.3"@
}

/// Fail closed (`ContextInvalid`) when `v` nests deeper than [`MAX_DEPTH`].
pub fn check_depth(v: &JsonValue) -> (r: Result<(), Failure>)
    ensures
        r is Ok <==> depth(v@) <= MAX_DEPTH,
        r matches Err(e) ==> e.0 == HostError::ContextInvalid && e.1@ == depth_detail(),
{
    if exceeds_depth(v, MAX_DEPTH) {
        return Err((HostError::ContextInvalid, to_owned("context nests deeper than 128 levels, see spec §12.3")));
    }
    Ok(())
}

// ---- integer domain -----------------------------------------------------------

/// An integer within ±(2⁵³−1) (non-integral numbers always are).
pub open spec fn in_domain(n: JNum) -> bool {
    match n {
        JNum::PosInt(u) => u <= MAX_SAFE_INTEGER,
        JNum::NegInt(i) => -(MAX_SAFE_INTEGER as int) <= i <= MAX_SAFE_INTEGER,
        JNum::Float(_) => true,
    }
}

/// Every integer in `v` is within ±(2⁵³−1).
pub open spec fn ijson(v: JView) -> bool
    decreases v,
{
    match v {
        JView::Number(n) => in_domain(n),
        JView::Array(items) => ijson_items(items),
        JView::Object(es) => ijson_entries(es),
        _ => true,
    }
}

/// Every item is in the I-JSON domain.
pub open spec fn ijson_items(s: Seq<JView>) -> bool
    decreases s,
{
    if s.len() == 0 {
        true
    } else {
        proof {
            assert(decreases_to!(s => s[s.len() - 1]));
            assert(decreases_to!(s => s.drop_last()));
        }
        ijson_items(s.drop_last()) && ijson(s[s.len() - 1])
    }
}

/// Every member value is in the I-JSON domain.
pub open spec fn ijson_entries(es: Entries) -> bool
    decreases es,
{
    if es.len() == 0 {
        true
    } else {
        proof {
            assert(decreases_to!(es => es[es.len() - 1]));
            assert(decreases_to!(es => es.drop_last()));
        }
        ijson_entries(es.drop_last()) && ijson(es[es.len() - 1].1)
    }
}

proof fn lemma_ijson_items(s: Seq<JView>)
    ensures
        ijson_items(s) <==> forall|i: int| 0 <= i < s.len() ==> ijson(#[trigger] s[i]),
    decreases s.len(),
{
    if s.len() > 0 {
        let t = s.drop_last();
        lemma_ijson_items(t);
        if ijson_items(s) {
            assert forall|i: int| 0 <= i < s.len() implies ijson(#[trigger] s[i]) by {
                if i < s.len() - 1 {
                    assert(t[i] == s[i]);
                }
            }
        }
        if forall|i: int| 0 <= i < s.len() ==> ijson(#[trigger] s[i]) {
            assert forall|i: int| 0 <= i < t.len() implies ijson(#[trigger] t[i]) by {
                assert(t[i] == s[i]);
            }
        }
    }
}

proof fn lemma_ijson_entries(es: Entries)
    ensures
        ijson_entries(es) <==> forall|i: int| 0 <= i < es.len() ==> ijson((#[trigger] es[i]).1),
    decreases es.len(),
{
    if es.len() > 0 {
        let t = es.drop_last();
        lemma_ijson_entries(t);
        if ijson_entries(es) {
            assert forall|i: int| 0 <= i < es.len() implies ijson((#[trigger] es[i]).1) by {
                if i < es.len() - 1 {
                    assert(t[i] == es[i]);
                }
            }
        }
        if forall|i: int| 0 <= i < es.len() ==> ijson((#[trigger] es[i]).1) {
            assert forall|i: int| 0 <= i < t.len() implies ijson((#[trigger] t[i]).1) by {
                assert(t[i] == es[i]);
            }
        }
    }
}

/// The detail for an out-of-domain integer `n` at `path`.
pub open spec fn domain_detail(path: Seq<char>, n: JNum) -> Seq<char> {
    path + ": integer "@ + canon(JView::Number(n)) + " exceeds 2^53; string-encode 64-bit identifiers, see spec §4.4"@
}

/// The path of item `k` under `path`.
pub open spec fn item_path(path: Seq<char>, k: nat) -> Seq<char> {
    path + "["@ + crate::jcs::decimal(k) + "]"@
}

/// The path of member `key` under `path`.
pub open spec fn member_path(path: Seq<char>, key: Seq<char>) -> Seq<char> {
    path + "."@ + key
}

/// The detail for the first out-of-domain integer in `v` (depth first, in
/// order), which sits at `path`; `None` when every integer is in domain.
pub open spec fn ijson_err(v: JView, path: Seq<char>) -> Option<Seq<char>>
    decreases v,
{
    match v {
        JView::Number(n) => if in_domain(n) {
            None
        } else {
            Some(domain_detail(path, n))
        },
        JView::Array(items) => ijson_err_items(items, path, 0),
        JView::Object(es) => ijson_err_entries(es, path),
        _ => None,
    }
}

/// [`ijson_err`] over items whose first one is item `k`.
pub open spec fn ijson_err_items(s: Seq<JView>, path: Seq<char>, k: nat) -> Option<Seq<char>>
    decreases s,
{
    if s.len() == 0 {
        None
    } else {
        proof {
            assert(decreases_to!(s => s[0]));
            assert(decreases_to!(s => s.subrange(1, s.len() as int)));
        }
        match ijson_err(s[0], item_path(path, k)) {
            Some(d) => Some(d),
            None => ijson_err_items(s.subrange(1, s.len() as int), path, k + 1),
        }
    }
}

/// [`ijson_err`] over the members of an object.
pub open spec fn ijson_err_entries(es: Entries, path: Seq<char>) -> Option<Seq<char>>
    decreases es,
{
    if es.len() == 0 {
        None
    } else {
        proof {
            assert(decreases_to!(es => es[0]));
            assert(decreases_to!(es => es.subrange(1, es.len() as int)));
        }
        match ijson_err(es[0].1, member_path(path, es[0].0)) {
            Some(d) => Some(d),
            None => ijson_err_entries(es.subrange(1, es.len() as int), path),
        }
    }
}

/// A value is in the I-JSON domain exactly when it has no out-of-domain
/// detail, whatever its path.
pub proof fn lemma_ijson_err(v: JView, path: Seq<char>)
    ensures
        ijson(v) <==> ijson_err(v, path) is None,
    decreases v,
{
    match v {
        JView::Array(items) => {
            lemma_ijson_items(items);
            lemma_ijson_err_items(items, path, 0);
        },
        JView::Object(es) => {
            lemma_ijson_entries(es);
            lemma_ijson_err_entries(es, path);
        },
        _ => {},
    }
}

proof fn lemma_ijson_err_items(s: Seq<JView>, path: Seq<char>, k: nat)
    ensures
        ijson_err_items(s, path, k) is None <==> forall|i: int| 0 <= i < s.len() ==> ijson(#[trigger] s[i]),
    decreases s,
{
    if s.len() > 0 {
        let t = s.subrange(1, s.len() as int);
        assert(decreases_to!(s => s[0]));
        assert(decreases_to!(s => t));
        lemma_ijson_err(s[0], item_path(path, k));
        lemma_ijson_err_items(t, path, k + 1);
        if forall|i: int| 0 <= i < s.len() ==> ijson(#[trigger] s[i]) {
            assert forall|i: int| 0 <= i < t.len() implies ijson(#[trigger] t[i]) by {
                assert(t[i] == s[i + 1]);
            }
        }
        if ijson_err_items(s, path, k) is None {
            assert forall|i: int| 0 <= i < s.len() implies ijson(#[trigger] s[i]) by {
                if i > 0 {
                    assert(t[i - 1] == s[i]);
                }
            }
        }
    }
}

proof fn lemma_ijson_err_entries(es: Entries, path: Seq<char>)
    ensures
        ijson_err_entries(es, path) is None <==> forall|i: int| 0 <= i < es.len() ==> ijson((#[trigger] es[i]).1),
    decreases es,
{
    if es.len() > 0 {
        let t = es.subrange(1, es.len() as int);
        assert(decreases_to!(es => es[0]));
        assert(decreases_to!(es[0] => es[0].1));
        assert(decreases_to!(es => t));
        lemma_ijson_err(es[0].1, member_path(path, es[0].0));
        lemma_ijson_err_entries(t, path);
        if forall|i: int| 0 <= i < es.len() ==> ijson((#[trigger] es[i]).1) {
            assert forall|i: int| 0 <= i < t.len() implies ijson((#[trigger] t[i]).1) by {
                assert(t[i] == es[i + 1]);
            }
        }
        if ijson_err_entries(es, path) is None {
            assert forall|i: int| 0 <= i < es.len() implies ijson((#[trigger] es[i]).1) by {
                if i > 0 {
                    assert(t[i - 1] == es[i]);
                }
            }
        }
    }
}

/// The detail for an out-of-domain integer.
fn out_of_domain_detail(path: &String, n: &JsonNumber) -> (r: String)
    ensures
        r@ == domain_detail(path@, n@),
{
    let mut d = path.clone();
    push_str(&mut d, ": integer ");
    crate::jcs::write_canonical(&JsonValue::Number(n.copy()), &mut d);
    push_str(&mut d, " exceeds 2^53; string-encode 64-bit identifiers, see spec §4.4");
    d
}

/// Reject integral values outside ±(2⁵³−1) anywhere in `v`, naming the
/// first one (depth first) by its path under `path`.
pub fn check_i_json(v: &JsonValue, path: &String) -> (r: Result<(), Failure>)
    ensures
        match ijson_err(v@, path@) {
            None => r is Ok,
            Some(d) => r matches Err(e) && e.0 == HostError::ContextInvalid && e.1@ == d,
        },
    decreases v,
{
    match v {
        JsonValue::Number(n) => {
            let ok = match n {
                JsonNumber::PosInt(u) => *u <= MAX_SAFE_INTEGER,
                JsonNumber::NegInt(i) => *i >= -9_007_199_254_740_991i64 && *i <= 9_007_199_254_740_991i64,
                JsonNumber::Float(_) => true,
            };
            if !ok {
                return Err((HostError::ContextInvalid, out_of_domain_detail(path, n)));
            }
            Ok(())
        },
        JsonValue::Array(items) => {
            let ghost s = jv_seq(items@);
            assert(s.skip(0) =~= s);
            let n = items.len();
            for i in 0..n
                invariant
                    n == items@.len(),
                    s == jv_seq(items@),
                    v@ == JView::Array(s),
                    *v == JsonValue::Array(*items),
                    ijson_err_items(s, path@, 0) == ijson_err_items(s.skip(i as int), path@, i as nat),
            {
                proof {
                    assert(decreases_to!(*v => (*v)->Array_0));
                    assert(decreases_to!(*items => items[i as int]));
                    assert(s.skip(i as int).subrange(1, s.skip(i as int).len() as int) =~= s.skip(i + 1));
                    assert(s.skip(i as int)[0] == items@[i as int]@);
                }
                let mut p = path.clone();
                push_str(&mut p, "[");
                crate::jcs::write_decimal(i as u64, &mut p);
                push_str(&mut p, "]");
                assert(p@ == item_path(path@, i as nat));
                match check_i_json(&items[i], &p) {
                    Ok(()) => {},
                    Err(e) => {
                        return Err(e);
                    },
                }
            }
            assert(s.skip(n as int) =~= Seq::<JView>::empty());
            Ok(())
        },
        JsonValue::Object(m) => {
            let ghost es = m@;
            assert(es.skip(0) =~= es);
            let n = m.entries.len();
            for i in 0..n
                invariant
                    n == m.entries@.len(),
                    es == m@,
                    v@ == JView::Object(es),
                    *v == JsonValue::Object(*m),
                    ijson_err_entries(es, path@) == ijson_err_entries(es.skip(i as int), path@),
            {
                proof {
                    assert(decreases_to!(*v => (*v)->Object_0));
                    assert(decreases_to!(*m => m.entries));
                    assert(decreases_to!(m.entries => m.entries[i as int]));
                    assert(decreases_to!(m.entries[i as int] => m.entries[i as int].1));
                    assert(es.skip(i as int).subrange(1, es.skip(i as int).len() as int) =~= es.skip(i + 1));
                    assert(es.skip(i as int)[0] == (m.entries@[i as int].0@, m.entries@[i as int].1@));
                }
                let mut p = path.clone();
                push_str(&mut p, ".");
                push_str(&mut p, m.entries[i].0.as_str());
                match check_i_json(&m.entries[i].1, &p) {
                    Ok(()) => {},
                    Err(e) => {
                        return Err(e);
                    },
                }
            }
            assert(es.skip(n as int) =~= Seq::<(Seq<char>, JView)>::empty());
            Ok(())
        },
        _ => Ok(()),
    }
}

// ---- the closed projection ------------------------------------------------------

/// A preimage field: its key and, for an object, the subfields kept.
pub struct KeepField {
    pub key: &'static str,
    pub sub: Option<Vec<&'static str>>,
}

/// View of a preimage field.
pub type KeepView = (Seq<char>, Option<Seq<Seq<char>>>);

impl View for KeepField {
    type V = KeepView;

    open spec fn view(&self) -> KeepView {
        (self.key@, match self.sub {
            Some(v) => Some(v@.map_values(|s: &'static str| s@)),
            None => None,
        })
    }
}

/// Required-core preimage fields.
pub open spec fn required_keep() -> Seq<KeepView> {
    seq![
        ("spec"@, None),
        ("interception_point"@, None),
        ("timestamp"@, None),
        ("sequence"@, None),
        ("agent"@, Some(seq!["id"@, "framework"@])),
        ("session"@, Some(seq!["id"@])),
        ("target"@, None),
    ]
}

/// The closed conditional preimage per interception point.
pub open spec fn conditional_keep(ip: Seq<char>) -> Seq<KeepView> {
    if ip == "agent_startup"@ {
        seq![("agent_init"@, Some(seq!["tools_registered"@]))]
    } else if ip == "input"@ {
        seq![("input"@, Some(seq!["content"@, "role"@]))]
    } else if ip == "pre_model_call"@ {
        seq![("model"@, Some(seq!["id"@])), ("messages"@, None)]
    } else if ip == "post_model_call"@ {
        seq![("model"@, Some(seq!["id"@])), ("response"@, Some(seq!["content"@, "tool_calls"@, "finish_reason"@]))]
    } else if ip == "pre_tool_call"@ {
        seq![("tool_call"@, Some(seq!["id"@, "name"@, "args"@]))]
    } else if ip == "post_tool_call"@ {
        seq![("tool_call"@, Some(seq!["id"@, "name"@, "args"@])), ("tool_result"@, Some(seq!["value"@, "is_error"@]))]
    } else if ip == "output"@ {
        seq![("output"@, Some(seq!["content"@]))]
    } else if ip == "agent_shutdown"@ {
        seq![("summary"@, Some(seq!["reason"@]))]
    } else {
        Seq::empty()
    }
}

fn field(key: &'static str, sub: Option<Vec<&'static str>>) -> (r: KeepField)
    ensures
        r.key == key,
        r.sub == sub,
{
    KeepField { key, sub }
}

fn keys1(a: &'static str) -> (r: Vec<&'static str>)
    ensures
        r@.map_values(|s: &'static str| s@) == seq![a@],
{
    let mut v: Vec<&'static str> = Vec::new();
    v.push(a);
    assert(v@.map_values(|s: &'static str| s@) =~= seq![a@]);
    v
}

fn keys2(a: &'static str, b: &'static str) -> (r: Vec<&'static str>)
    ensures
        r@.map_values(|s: &'static str| s@) == seq![a@, b@],
{
    let mut v: Vec<&'static str> = Vec::new();
    v.push(a);
    v.push(b);
    assert(v@.map_values(|s: &'static str| s@) =~= seq![a@, b@]);
    v
}

fn keys3(a: &'static str, b: &'static str, c: &'static str) -> (r: Vec<&'static str>)
    ensures
        r@.map_values(|s: &'static str| s@) == seq![a@, b@, c@],
{
    let mut v: Vec<&'static str> = Vec::new();
    v.push(a);
    v.push(b);
    v.push(c);
    assert(v@.map_values(|s: &'static str| s@) =~= seq![a@, b@, c@]);
    v
}

/// Views of preimage fields.
pub open spec fn keeps_view(ks: Seq<KeepField>) -> Seq<KeepView> {
    ks.map_values(|k: KeepField| k@)
}

/// Required-core preimage fields.
fn required_fields() -> (r: Vec<KeepField>)
    ensures
        keeps_view(r@) == required_keep(),
{
    let mut r: Vec<KeepField> = Vec::new();
    r.push(field("spec", None));
    r.push(field("interception_point", None));
    r.push(field("timestamp", None));
    r.push(field("sequence", None));
    r.push(field("agent", Some(keys2("id", "framework"))));
    r.push(field("session", Some(keys1("id"))));
    r.push(field("target", None));
    assert(keeps_view(r@) =~= required_keep());
    r
}

/// The closed conditional preimage for the interception point named `ip`.
pub fn conditional_for(ip: &str) -> (r: Vec<KeepField>)
    ensures
        keeps_view(r@) == conditional_keep(ip@),
{
    let mut r: Vec<KeepField> = Vec::new();
    if crate::text::str_eq(ip, "agent_startup") {
        r.push(field("agent_init", Some(keys1("tools_registered"))));
    } else if crate::text::str_eq(ip, "input") {
        r.push(field("input", Some(keys2("content", "role"))));
    } else if crate::text::str_eq(ip, "pre_model_call") {
        r.push(field("model", Some(keys1("id"))));
        r.push(field("messages", None));
    } else if crate::text::str_eq(ip, "post_model_call") {
        r.push(field("model", Some(keys1("id"))));
        r.push(field("response", Some(keys3("content", "tool_calls", "finish_reason"))));
    } else if crate::text::str_eq(ip, "pre_tool_call") {
        r.push(field("tool_call", Some(keys3("id", "name", "args"))));
    } else if crate::text::str_eq(ip, "post_tool_call") {
        r.push(field("tool_call", Some(keys3("id", "name", "args"))));
        r.push(field("tool_result", Some(keys2("value", "is_error"))));
    } else if crate::text::str_eq(ip, "output") {
        r.push(field("output", Some(keys1("content"))));
    } else if crate::text::str_eq(ip, "agent_shutdown") {
        r.push(field("summary", Some(keys1("reason"))));
    }
    assert(keeps_view(r@) =~= conditional_keep(ip@));
    r
}

/// The members of `es` whose key is in `keep`, in member order.
pub open spec fn filter_entries(es: Entries, keep: Seq<Seq<char>>) -> Entries
    decreases es.len(),
{
    if es.len() == 0 {
        Seq::empty()
    } else if keep.contains(es.last().0) {
        filter_entries(es.drop_last(), keep).push(es.last())
    } else {
        filter_entries(es.drop_last(), keep)
    }
}

/// `v` restricted to the subfields `sub` (whole when `None` or not an
/// object).
pub open spec fn filter_value(v: JView, sub: Option<Seq<Seq<char>>>) -> JView {
    match (sub, v) {
        (Some(keep), JView::Object(es)) => JView::Object(filter_entries(es, keep)),
        _ => v,
    }
}

/// The projection of `ctx` onto the fields `ks`.
pub open spec fn project_with(ctx: Entries, ks: Seq<KeepView>) -> Entries
    decreases ks.len(),
{
    if ks.len() == 0 {
        Seq::empty()
    } else {
        let acc = project_with(ctx, ks.drop_last());
        let k = ks.last();
        match map_get(ctx, k.0) {
            Some(v) => map_insert(acc, k.0, filter_value(v, k.1)),
            None => acc,
        }
    }
}

/// The interception point name of a context (`""` when absent or not a
/// string).
pub open spec fn ip_of(ctx: Entries) -> Seq<char> {
    match view_str(map_get(ctx, "interception_point"@)) {
        Some(s) => s,
        None => Seq::empty(),
    }
}

/// The closed required+conditional projection of `ctx`.
pub open spec fn preimage(ctx: Entries) -> JView {
    JView::Object(project_with(ctx, required_keep() + conditional_keep(ip_of(ctx))))
}

fn filter_obj(v: &JsonValue, keep: &Vec<&'static str>) -> (r: JsonValue)
    ensures
        r@ == filter_value(v@, Some(keep@.map_values(|s: &'static str| s@))),
{
    let ghost kv = keep@.map_values(|s: &'static str| s@);
    match v {
        JsonValue::Object(m) => {
            let mut out: Vec<(String, JsonValue)> = Vec::new();
            let n = m.entries.len();
            for i in 0..n
                invariant
                    n == m.entries@.len(),
                    kv == keep@.map_values(|s: &'static str| s@),
                    jv_entries(out@) == filter_entries(m@.take(i as int), kv),
            {
                assert(m@.take(i + 1).drop_last() =~= m@.take(i as int));
                assert(m@[i as int] == (m.entries@[i as int].0@, m.entries@[i as int].1@));
                if contains_str(keep, m.entries[i].0.as_str()) {
                    let ghost before = out@;
                    out.push((m.entries[i].0.clone(), m.entries[i].1.clone()));
                    assert(jv_entries(out@) =~= jv_entries(before).push(m@[i as int]));
                }
            }
            assert(m@.take(n as int) =~= m@);
            JsonValue::Object(JsonMap { entries: out })
        },
        _ => v.clone(),
    }
}

/// Whether `keep` holds `s`.
fn contains_str(keep: &Vec<&'static str>, s: &str) -> (r: bool)
    ensures
        r == keep@.map_values(|x: &'static str| x@).contains(s@),
{
    let ghost kv = keep@.map_values(|x: &'static str| x@);
    let n = keep.len();
    for i in 0..n
        invariant
            n == keep@.len(),
            kv == keep@.map_values(|x: &'static str| x@),
            forall|j: int| 0 <= j < i ==> kv[j] != s@,
    {
        if crate::text::str_eq(keep[i], s) {
            assert(kv[i as int] == s@);
            return true;
        }
    }
    false
}

/// The closed required+conditional projection of `ctx`.
pub fn project_preimage(ctx: &JsonMap) -> (r: JsonValue)
    ensures
        r@ == preimage(ctx@),
{
    let ip: String = match ctx.get("interception_point") {
        Some(JsonValue::String(s)) => s.clone(),
        _ => String::new(),
    };
    let mut fields = required_fields();
    let cond = conditional_for(ip.as_str());
    let ghost req = keeps_view(fields@);
    let mut cond = cond;
    let ghost cv = keeps_view(cond@);
    // Append the conditional fields after the required ones.
    let mut all: Vec<KeepField> = Vec::new();
    assert(keeps_view(all@) =~= Seq::<KeepView>::empty());
    while fields.len() > 0
        invariant
            keeps_view(all@) + keeps_view(fields@) == req,
        decreases fields@.len(),
    {
        let f = fields.remove(0);
        all.push(f);
        assert(keeps_view(all@) + keeps_view(fields@) =~= req);
    }
    assert(keeps_view(fields@) =~= Seq::<KeepView>::empty());
    while cond.len() > 0
        invariant
            keeps_view(all@) + keeps_view(cond@) == req + cv,
        decreases cond@.len(),
    {
        let f = cond.remove(0);
        all.push(f);
        assert(keeps_view(all@) + keeps_view(cond@) =~= req + cv);
    }
    assert(keeps_view(cond@) =~= Seq::<KeepView>::empty());
    assert(keeps_view(all@) =~= req + cv);
    let ghost ks = keeps_view(all@);
    let mut out = JsonMap::new();
    let n = all.len();
    for i in 0..n
        invariant
            n == all@.len(),
            ks == keeps_view(all@),
            out@ == project_with(ctx@, ks.take(i as int)),
    {
        proof {
            assert(ks.take(i + 1).drop_last() =~= ks.take(i as int));
            assert(ks[i as int] == all@[i as int]@);
        }
        let key = all[i].key;
        match ctx.get(key) {
            Some(v) => {
                let fv = match &all[i].sub {
                    Some(keep) => filter_obj(v, keep),
                    None => v.clone(),
                };
                out.insert(to_owned(key), fv);
            },
            None => {},
        }
    }
    assert(ks.take(n as int) =~= ks);
    proof {
        assert(ip@ == ip_of(ctx@));
    }
    JsonValue::Object(out)
}

// ---- identity -------------------------------------------------------------------

/// The SHA-256 digest of `data`.
pub uninterp spec fn sha256_digest(data: Seq<u8>) -> Seq<u8>;

/// SHA-256 (`sha2::Sha256::digest`). The contract names the digest
/// [`sha256_digest`] of the input bytes and claims its documented length,
/// 32 bytes; nothing else of the hash is stated.
#[verifier::external_body]
fn sha256(data: &[u8]) -> (r: Vec<u8>)
    ensures
        r@ == sha256_digest(data@),
        r@.len() == 32,
{
    sha2::Sha256::digest(data).to_vec()
}

/// Lowercase hex of a byte sequence.
pub open spec fn hex(bs: Seq<u8>) -> Seq<char>
    decreases bs.len(),
{
    if bs.len() == 0 {
        Seq::empty()
    } else {
        hex(bs.drop_last()) + seq![crate::jcs::hex_char((bs.last() / 16) as nat), crate::jcs::hex_char((bs.last() % 16) as nat)]
    }
}

/// Whether the identity provider accepts `ctx`: its projection nests at
/// most [`MAX_DEPTH`] deep and holds only in-domain integers.
pub open spec fn identity_domain(ctx: Entries) -> bool {
    depth(preimage(ctx)) <= MAX_DEPTH && ijson(preimage(ctx))
}

/// Why the identity provider rejects `ctx`: too deep, or the first
/// out-of-domain integer of its projection.
pub open spec fn identity_error(ctx: Entries) -> Seq<char> {
    if depth(preimage(ctx)) > MAX_DEPTH {
        depth_detail()
    } else {
        match ijson_err(preimage(ctx), "$"@) {
            Some(d) => d,
            None => Seq::empty(),
        }
    }
}

/// The `jcs-sha256` identity: `"sha256:"` and the hex SHA-256 of the
/// canonical projection.
pub open spec fn spec_identity(ctx: Entries) -> Seq<char> {
    "sha256:"@ + hex(sha256_digest(vstd::utf8::encode_utf8(canon(preimage(ctx)))))
}

/// The `jcs-sha256` provider: `"sha256:" + hex(SHA-256(canonical
/// projection))`, failing closed (`ContextInvalid`) on a projection that
/// nests too deep or holds an integer beyond ±(2⁵³−1).
pub fn context_identity(ctx: &JsonMap) -> (r: Result<String, Failure>)
    ensures
        match r {
            Ok(id) => identity_domain(ctx@) && id@ == spec_identity(ctx@),
            Err(e) => !identity_domain(ctx@) && e.0 == HostError::ContextInvalid && e.1@ == identity_error(ctx@),
        },
{
    let pre = project_preimage(ctx);
    check_depth(&pre)?;
    let root = to_owned("$");
    proof {
        lemma_ijson_err(pre@, "$"@);
    }
    check_i_json(&pre, &root)?;
    let json = crate::jcs::to_string(&pre);
    let digest = sha256(json.as_str().as_bytes());
    let mut out = to_owned("sha256:");
    let ghost o = out@;
    let n = digest.len();
    for i in 0..n
        invariant
            n == digest@.len(),
            out@ == o + hex(digest@.take(i as int)),
    {
        let b = digest[i];
        crate::text::push_char(&mut out, hex_digit(b / 16));
        crate::text::push_char(&mut out, hex_digit(b % 16));
        proof {
            assert(digest@.take(i + 1).drop_last() =~= digest@.take(i as int));
        }
        assert(out@ =~= o + hex(digest@.take(i + 1)));
    }
    assert(digest@.take(n as int) =~= digest@);
    Ok(out)
}

fn hex_digit(d: u8) -> (c: char)
    requires
        d < 16,
    ensures
        c == crate::jcs::hex_char(d as nat),
{
    if d < 10 {
        ((d + 48) as u8) as char
    } else {
        ((d + 87) as u8) as char
    }
}

/// Projection of a context is unchanged by setting a member whose key is
/// none of `ks`'s.
proof fn lemma_project_with_other(ctx: Entries, ks: Seq<KeepView>, k: Seq<char>, v: JView)
    requires
        forall|i: int| 0 <= i < ks.len() ==> (#[trigger] ks[i]).0 != k,
    ensures
        project_with(map_insert(ctx, k, v), ks) == project_with(ctx, ks),
    decreases ks.len(),
{
    if ks.len() > 0 {
        lemma_project_with_other(ctx, ks.drop_last(), k, v);
        assert(ks.last().0 != k);
        lemma_map_insert(ctx, k, v, ks.last().0);
    }
}

/// Setting any member outside the closed required+conditional field set
/// (an optional or namespaced field) never changes a context's preimage,
/// so never changes its identity or whether the provider accepts it.
pub proof fn law_identity_ignores_optional_fields(ctx: Entries, k: Seq<char>, v: JView)
    requires
        forall|i: int| 0 <= i < (required_keep() + conditional_keep(ip_of(ctx))).len()
            ==> (#[trigger] (required_keep() + conditional_keep(ip_of(ctx)))[i]).0 != k,
    ensures
        preimage(map_insert(ctx, k, v)) == preimage(ctx),
        spec_identity(map_insert(ctx, k, v)) == spec_identity(ctx),
        identity_domain(map_insert(ctx, k, v)) == identity_domain(ctx),
{
    let ks = required_keep() + conditional_keep(ip_of(ctx));
    assert(ks[1] == required_keep()[1]);
    reveal_strlit("interception_point");
    lemma_map_insert(ctx, k, v, "interception_point"@);
    assert(ip_of(map_insert(ctx, k, v)) == ip_of(ctx));
    lemma_project_with_other(ctx, ks, k, v);
}

/// Two contexts agree on field `k` of the projection: both lack it, or
/// both hold values that agree on the kept subfields.
pub open spec fn field_agrees(c1: Entries, c2: Entries, k: KeepView) -> bool {
    match (map_get(c1, k.0), map_get(c2, k.0)) {
        (None, None) => true,
        (Some(a), Some(b)) => filter_value(a, k.1) == filter_value(b, k.1),
        _ => false,
    }
}

/// Two contexts name the same interception point and agree on every field
/// of its closed projection; anything else (optional or namespaced
/// members, top-level or nested, present in one and absent or different
/// in the other) may differ.
pub open spec fn same_projection(c1: Entries, c2: Entries) -> bool {
    &&& ip_of(c1) == ip_of(c2)
    &&& forall|i: int| 0 <= i < (required_keep() + conditional_keep(ip_of(c1))).len()
        ==> field_agrees(c1, c2, #[trigger] (required_keep() + conditional_keep(ip_of(c1)))[i])
}

proof fn lemma_project_with_agree(c1: Entries, c2: Entries, ks: Seq<KeepView>)
    requires
        forall|i: int| 0 <= i < ks.len() ==> field_agrees(c1, c2, #[trigger] ks[i]),
    ensures
        project_with(c1, ks) == project_with(c2, ks),
    decreases ks.len(),
{
    if ks.len() > 0 {
        let t = ks.drop_last();
        assert forall|i: int| 0 <= i < t.len() implies field_agrees(c1, c2, #[trigger] t[i]) by {
            assert(t[i] == ks[i]);
        }
        lemma_project_with_agree(c1, c2, t);
        assert(field_agrees(c1, c2, ks[ks.len() - 1]));
    }
}

/// Contexts that agree on their closed projection are indistinguishable to
/// the identity provider: the same preimage, the same identity, the same
/// acceptance, and on rejection the same detail. Optional or namespaced
/// data, added, changed or removed, never perturbs `context_identity`.
pub proof fn law_identity_depends_only_on_projection(c1: Entries, c2: Entries)
    requires
        same_projection(c1, c2),
    ensures
        preimage(c1) == preimage(c2),
        spec_identity(c1) == spec_identity(c2),
        identity_domain(c1) == identity_domain(c2),
        identity_error(c1) == identity_error(c2),
{
    lemma_project_with_agree(c1, c2, required_keep() + conditional_keep(ip_of(c1)));
}

/// Setting a member whose key is not kept leaves the filtered members as
/// they were.
proof fn lemma_filter_update_unkept(es: Entries, keep: Seq<Seq<char>>, i: int, e: (Seq<char>, JView))
    requires
        0 <= i < es.len(),
        !keep.contains(es[i].0),
        !keep.contains(e.0),
    ensures
        filter_entries(es.update(i, e), keep) == filter_entries(es, keep),
    decreases es.len(),
{
    let u = es.update(i, e);
    if i == es.len() - 1 {
        assert(u.drop_last() =~= es.drop_last());
    } else {
        assert(u.drop_last() =~= es.drop_last().update(i, e));
        lemma_filter_update_unkept(es.drop_last(), keep, i, e);
    }
}

/// Inserting a member whose key is not kept leaves the filtered members as
/// they were.
proof fn lemma_filter_insert_at_unkept(es: Entries, keep: Seq<Seq<char>>, p: int, e: (Seq<char>, JView))
    requires
        0 <= p <= es.len(),
        !keep.contains(e.0),
    ensures
        filter_entries(es.insert(p, e), keep) == filter_entries(es, keep),
    decreases es.len(),
{
    let u = es.insert(p, e);
    if p == es.len() {
        assert(u.drop_last() =~= es);
    } else {
        assert(u.drop_last() =~= es.drop_last().insert(p, e));
        assert(u.last() == es.last());
        lemma_filter_insert_at_unkept(es.drop_last(), keep, p, e);
    }
}

/// Setting a key that is not kept leaves the filtered members as they were.
proof fn lemma_filter_insert_unkept(es: Entries, keep: Seq<Seq<char>>, k: Seq<char>, v: JView)
    requires
        !keep.contains(k),
    ensures
        filter_entries(map_insert(es, k, v), keep) == filter_entries(es, keep),
{
    lemma_first_index(es, k);
    let f = first_index(es, k);
    if f >= 0 {
        lemma_filter_update_unkept(es, keep, f, (k, v));
    } else {
        crate::json::lemma_insert_at(es, k);
        lemma_filter_insert_at_unkept(es, keep, crate::json::insert_at(es, k), (k, v));
    }
}

/// Projection is unchanged when only the object under key `k` changes,
/// and each field on `k` keeps subfields on which the two objects agree.
proof fn lemma_project_with_nested(ctx: Entries, ctx2: Entries, ks: Seq<KeepView>, k: Seq<char>, m: Entries, m2: Entries)
    requires
        forall|f: Seq<char>| f != k ==> #[trigger] map_get(ctx2, f) == map_get(ctx, f),
        map_get(ctx, k) == Some(JView::Object(m)),
        map_get(ctx2, k) == Some(JView::Object(m2)),
        forall|i: int| 0 <= i < ks.len() && (#[trigger] ks[i]).0 == k
            ==> (ks[i].1 matches Some(keep) && filter_entries(m2, keep) == filter_entries(m, keep)),
    ensures
        project_with(ctx2, ks) == project_with(ctx, ks),
    decreases ks.len(),
{
    if ks.len() > 0 {
        let t = ks.drop_last();
        assert forall|i: int| 0 <= i < t.len() && (#[trigger] t[i]).0 == k
            implies (t[i].1 matches Some(keep) && filter_entries(m2, keep) == filter_entries(m, keep)) by {
            assert(t[i] == ks[i]);
        }
        lemma_project_with_nested(ctx, ctx2, t, k, m, m2);
        let last = ks.last();
        if last.0 == k {
            assert(ks[ks.len() - 1] == last);
        } else {
            assert(map_get(ctx2, last.0) == map_get(ctx, last.0));
        }
    }
}

/// Setting a key inside a projected object, where that key is off the
/// field's subfield whitelist (namespaced or optional nested data such as
/// `agent.name` or `tool_result.duration_ms`), never changes a context's
/// preimage, so never changes its identity or whether the provider
/// accepts it. (A field outside the projection altogether changes nothing
/// either.)
pub proof fn law_identity_ignores_nested_optional_fields(ctx: Entries, k: Seq<char>, m: Entries, sk: Seq<char>, v: JView)
    requires
        map_get(ctx, k) == Some(JView::Object(m)),
        forall|i: int| 0 <= i < (required_keep() + conditional_keep(ip_of(ctx))).len()
            && (#[trigger] (required_keep() + conditional_keep(ip_of(ctx)))[i]).0 == k
            ==> ((required_keep() + conditional_keep(ip_of(ctx)))[i].1 matches Some(keep) && !keep.contains(sk)),
    ensures
        preimage(map_insert(ctx, k, JView::Object(map_insert(m, sk, v)))) == preimage(ctx),
        spec_identity(map_insert(ctx, k, JView::Object(map_insert(m, sk, v)))) == spec_identity(ctx),
        identity_domain(map_insert(ctx, k, JView::Object(map_insert(m, sk, v)))) == identity_domain(ctx),
{
    let ks = required_keep() + conditional_keep(ip_of(ctx));
    let m2 = map_insert(m, sk, v);
    let ctx2 = map_insert(ctx, k, JView::Object(m2));
    reveal_strlit("interception_point");
    assert(ks[1] == required_keep()[1]);
    assert(k != "interception_point"@);
    lemma_map_insert(ctx, k, JView::Object(m2), "interception_point"@);
    assert(ip_of(ctx2) == ip_of(ctx));
    assert forall|f: Seq<char>| f != k implies #[trigger] map_get(ctx2, f) == map_get(ctx, f) by {
        lemma_map_insert(ctx, k, JView::Object(m2), f);
    }
    lemma_map_insert(ctx, k, JView::Object(m2), k);
    assert forall|i: int| 0 <= i < ks.len() && (#[trigger] ks[i]).0 == k
        implies (ks[i].1 matches Some(keep) && filter_entries(m2, keep) == filter_entries(m, keep)) by {
        let keep = ks[i].1->Some_0;
        lemma_filter_insert_unkept(m, keep, sk, v);
    }
    lemma_project_with_nested(ctx, ctx2, ks, k, m, m2);
}

/// Looking a key up after a member is appended.
proof fn lemma_map_get_push(es: Entries, e: (Seq<char>, JView), k: Seq<char>)
    ensures
        map_get(es.push(e), k) == (match map_get(es, k) {
            Some(x) => Some(x),
            None => if e.0 == k { Some(e.1) } else { None },
        }),
{
    let p = es.push(e);
    lemma_first_index(es, k);
    lemma_first_index(p, k);
    let f = first_index(es, k);
    if f >= 0 {
        assert(key_at(p, f, k));
        assert forall|j: int| 0 <= j < f implies !key_at(p, j, k) by {
            assert(!key_at(es, j, k));
        }
        lemma_first_index_at(p, k, f);
    } else {
        let g = first_index(p, k);
        if g >= 0 && g < es.len() {
            assert(key_at(es, g, k));
        }
        if e.0 == k {
            assert(key_at(p, es.len() as int, k));
            assert forall|j: int| 0 <= j < es.len() implies !key_at(p, j, k) by {
                assert(!key_at(es, j, k));
            }
            lemma_first_index_at(p, k, es.len() as int);
        }
    }
}

/// Filtering to `keep` keeps what each kept key finds, and drops the rest.
pub proof fn lemma_filter_map_get(es: Entries, keep: Seq<Seq<char>>, k: Seq<char>)
    ensures
        keep.contains(k) ==> map_get(filter_entries(es, keep), k) == map_get(es, k),
        !keep.contains(k) ==> map_get(filter_entries(es, keep), k) is None,
    decreases es.len(),
{
    if es.len() == 0 {
        lemma_first_index(es, k);
        lemma_first_index(filter_entries(es, keep), k);
    } else {
        let t = es.drop_last();
        let e = es.last();
        lemma_filter_map_get(t, keep, k);
        assert(es == t.push(e));
        lemma_map_get_push(t, e, k);
        if keep.contains(e.0) {
            lemma_map_get_push(filter_entries(t, keep), e, k);
        }
    }
}

/// At an input point the identity preimage holds the input's `content`
/// and `role` exactly as the context does, and no other member of the
/// input.
pub proof fn law_input_projection_keeps_content_and_role(ctx: Entries, m: Entries, k: Seq<char>)
    requires
        ip_of(ctx) == "input"@,
        map_get(ctx, "input"@) == Some(JView::Object(m)),
    ensures
        member(preimage(ctx), "input"@) matches Some(JView::Object(p)) && {
            &&& map_get(p, "content"@) == map_get(m, "content"@)
            &&& map_get(p, "role"@) == map_get(m, "role"@)
            &&& (k != "content"@ && k != "role"@ ==> map_get(p, k) is None)
        },
{
    let ks = required_keep() + conditional_keep(ip_of(ctx));
    reveal_strlit("input");
    reveal_strlit("agent_startup");
    reveal_strlit("content");
    reveal_strlit("role");
    let keep = seq!["content"@, "role"@];
    assert("input"@ != "agent_startup"@) by {
        assert("input"@.len() != "agent_startup"@.len());
    }
    assert(conditional_keep("input"@) =~= seq![("input"@, Some(keep))]);
    assert(ks.len() == 8);
    assert(ks[7] == ("input"@, Some(keep)));
    lemma_project_with_get(ctx, ks, 7, JView::Object(m));
    let p = filter_entries(m, keep);
    assert(keep[0] == "content"@ && keep[1] == "role"@);
    assert(keep.contains("content"@));
    assert(keep.contains("role"@));
    lemma_filter_map_get(m, keep, "content"@);
    lemma_filter_map_get(m, keep, "role"@);
    lemma_filter_map_get(m, keep, k);
}

/// Two input-point contexts whose inputs carry different roles have
/// different identity preimages.
pub proof fn law_input_role_changes_preimage(c1: Entries, c2: Entries, m1: Entries, m2: Entries)
    requires
        ip_of(c1) == "input"@,
        ip_of(c2) == "input"@,
        map_get(c1, "input"@) == Some(JView::Object(m1)),
        map_get(c2, "input"@) == Some(JView::Object(m2)),
        map_get(m1, "role"@) != map_get(m2, "role"@),
    ensures
        preimage(c1) != preimage(c2),
{
    law_input_projection_keeps_content_and_role(c1, m1, "role"@);
    law_input_projection_keeps_content_and_role(c2, m2, "role"@);
}

/// The preimage holds field `f` of `ctx` whole (absent when `ctx` lacks it).
pub open spec fn kept_whole(ctx: Entries, f: Seq<char>) -> bool {
    member(preimage(ctx), f) == map_get(ctx, f)
}

/// When `ctx` holds an object at `f`, the preimage holds an object there
/// with exactly the members `names` of it: each as in `ctx`, and `k` absent
/// unless it is one of `names`.
pub open spec fn kept_members(ctx: Entries, f: Seq<char>, names: Seq<Seq<char>>, k: Seq<char>) -> bool {
    map_get(ctx, f) matches Some(JView::Object(m)) ==> (member(preimage(ctx), f) matches Some(JView::Object(p)) && {
        &&& forall|n: Seq<char>| names.contains(n) ==> #[trigger] map_get(p, n) == map_get(m, n)
        &&& !names.contains(k) ==> map_get(p, k) is None
    })
}

/// A projection never holds a key that `ctx` lacks.
proof fn lemma_project_with_absent(ctx: Entries, ks: Seq<KeepView>, k: Seq<char>)
    requires
        map_get(ctx, k) is None || forall|i: int| 0 <= i < ks.len() ==> (#[trigger] ks[i]).0 != k,
    ensures
        map_get(project_with(ctx, ks), k) is None,
    decreases ks.len(),
{
    if ks.len() == 0 {
        lemma_first_index(Seq::<(Seq<char>, JView)>::empty(), k);
    } else {
        let t = ks.drop_last();
        if !(map_get(ctx, k) is None) {
            assert forall|i: int| 0 <= i < t.len() implies (#[trigger] t[i]).0 != k by {
                assert(t[i] == ks[i]);
            }
        }
        lemma_project_with_absent(ctx, t, k);
        let last = ks.last();
        assert(last == ks[ks.len() - 1]);
        if let Some(v) = map_get(ctx, last.0) {
            lemma_map_insert(project_with(ctx, t), last.0, filter_value(v, last.1), k);
        }
    }
}

proof fn lemma_field_kept(ctx: Entries, ks: Seq<KeepView>, i: int, k: Seq<char>)
    requires
        ks == required_keep() + conditional_keep(ip_of(ctx)),
        0 <= i < ks.len(),
        forall|j: int| i < j < ks.len() ==> (#[trigger] ks[j]).0 != ks[i].0,
    ensures
        ks[i].1 is None ==> kept_whole(ctx, ks[i].0),
        ks[i].1 matches Some(keep) ==> kept_members(ctx, ks[i].0, keep, k),
{
    let f = ks[i].0;
    match map_get(ctx, f) {
        Some(v) => {
            lemma_project_with_get(ctx, ks, i, v);
            if let (Some(keep), JView::Object(m)) = (ks[i].1, v) {
                assert forall|n: Seq<char>| keep.contains(n) implies #[trigger] map_get(filter_entries(m, keep), n) == map_get(m, n) by {
                    lemma_filter_map_get(m, keep, n);
                }
                lemma_filter_map_get(m, keep, k);
            }
        },
        None => {
            lemma_project_with_absent(ctx, ks, f);
        },
    }
}

/// The identity preimage of a context holds its required core (`spec`,
/// `interception_point`, `timestamp`, `sequence`, `target` whole; `agent`
/// reduced to `id` and `framework`; `session` to `id`) and, for the point
/// it names, exactly that point's conditional fields reduced to their
/// whitelists; no other top-level member.
#[verifier::rlimit(80)]
#[verifier::spinoff_prover]
pub proof fn law_preimage_fields(ctx: Entries, k: Seq<char>)
    ensures
        kept_whole(ctx, "spec"@),
        kept_whole(ctx, "interception_point"@),
        kept_whole(ctx, "timestamp"@),
        kept_whole(ctx, "sequence"@),
        kept_whole(ctx, "target"@),
        kept_members(ctx, "agent"@, seq!["id"@, "framework"@], k),
        kept_members(ctx, "session"@, seq!["id"@], k),
        ip_of(ctx) == "agent_startup"@ ==> kept_members(ctx, "agent_init"@, seq!["tools_registered"@], k),
        ip_of(ctx) == "input"@ ==> kept_members(ctx, "input"@, seq!["content"@, "role"@], k),
        ip_of(ctx) == "pre_model_call"@ ==> kept_members(ctx, "model"@, seq!["id"@], k) && kept_whole(ctx, "messages"@),
        ip_of(ctx) == "post_model_call"@ ==> kept_members(ctx, "model"@, seq!["id"@], k)
            && kept_members(ctx, "response"@, seq!["content"@, "tool_calls"@, "finish_reason"@], k),
        ip_of(ctx) == "pre_tool_call"@ ==> kept_members(ctx, "tool_call"@, seq!["id"@, "name"@, "args"@], k),
        ip_of(ctx) == "post_tool_call"@ ==> kept_members(ctx, "tool_call"@, seq!["id"@, "name"@, "args"@], k)
            && kept_members(ctx, "tool_result"@, seq!["value"@, "is_error"@], k),
        ip_of(ctx) == "output"@ ==> kept_members(ctx, "output"@, seq!["content"@], k),
        ip_of(ctx) == "agent_shutdown"@ ==> kept_members(ctx, "summary"@, seq!["reason"@], k),
{
    reveal_strlit("spec");
    reveal_strlit("interception_point");
    reveal_strlit("timestamp");
    reveal_strlit("sequence");
    reveal_strlit("target");
    reveal_strlit("agent");
    reveal_strlit("session");
    reveal_strlit("agent_startup");
    reveal_strlit("agent_init");
    reveal_strlit("input");
    reveal_strlit("pre_model_call");
    reveal_strlit("post_model_call");
    reveal_strlit("model");
    reveal_strlit("messages");
    reveal_strlit("response");
    reveal_strlit("pre_tool_call");
    reveal_strlit("post_tool_call");
    reveal_strlit("tool_call");
    reveal_strlit("tool_result");
    reveal_strlit("output");
    reveal_strlit("agent_shutdown");
    reveal_strlit("summary");
    let ip = ip_of(ctx);
    let ks = required_keep() + conditional_keep(ip);
    let c = conditional_keep(ip);
    if ip == "input"@ {
        assert("input"@ != "agent_startup"@) by { assert("input"@.len() != "agent_startup"@.len() || "input"@[0] != "agent_startup"@[0] || "input"@[1] != "agent_startup"@[1]); }
        assert(c =~= seq![("input"@, Some(seq!["content"@, "role"@]))]);
    }
    if ip == "pre_model_call"@ {
        assert("pre_model_call"@ != "agent_startup"@) by { assert("pre_model_call"@.len() != "agent_startup"@.len() || "pre_model_call"@[0] != "agent_startup"@[0] || "pre_model_call"@[1] != "agent_startup"@[1]); }
        assert("pre_model_call"@ != "input"@) by { assert("pre_model_call"@.len() != "input"@.len() || "pre_model_call"@[0] != "input"@[0] || "pre_model_call"@[1] != "input"@[1]); }
        assert(c =~= seq![("model"@, Some(seq!["id"@])), ("messages"@, None)]);
    }
    if ip == "post_model_call"@ {
        assert("post_model_call"@ != "agent_startup"@) by { assert("post_model_call"@.len() != "agent_startup"@.len() || "post_model_call"@[0] != "agent_startup"@[0] || "post_model_call"@[1] != "agent_startup"@[1]); }
        assert("post_model_call"@ != "input"@) by { assert("post_model_call"@.len() != "input"@.len() || "post_model_call"@[0] != "input"@[0] || "post_model_call"@[1] != "input"@[1]); }
        assert("post_model_call"@ != "pre_model_call"@) by { assert("post_model_call"@.len() != "pre_model_call"@.len() || "post_model_call"@[0] != "pre_model_call"@[0] || "post_model_call"@[1] != "pre_model_call"@[1]); }
        assert(c =~= seq![("model"@, Some(seq!["id"@])), ("response"@, Some(seq!["content"@, "tool_calls"@, "finish_reason"@]))]);
    }
    if ip == "pre_tool_call"@ {
        assert("pre_tool_call"@ != "agent_startup"@) by { assert("pre_tool_call"@.len() != "agent_startup"@.len() || "pre_tool_call"@[0] != "agent_startup"@[0] || "pre_tool_call"@[1] != "agent_startup"@[1]); }
        assert("pre_tool_call"@ != "input"@) by { assert("pre_tool_call"@.len() != "input"@.len() || "pre_tool_call"@[0] != "input"@[0] || "pre_tool_call"@[1] != "input"@[1]); }
        assert("pre_tool_call"@ != "pre_model_call"@) by { assert("pre_tool_call"@.len() != "pre_model_call"@.len() || "pre_tool_call"@[0] != "pre_model_call"@[0] || "pre_tool_call"@[1] != "pre_model_call"@[1]); }
        assert("pre_tool_call"@ != "post_model_call"@) by { assert("pre_tool_call"@.len() != "post_model_call"@.len() || "pre_tool_call"@[0] != "post_model_call"@[0] || "pre_tool_call"@[1] != "post_model_call"@[1]); }
        assert(c =~= seq![("tool_call"@, Some(seq!["id"@, "name"@, "args"@]))]);
    }
    if ip == "post_tool_call"@ {
        assert("post_tool_call"@ != "agent_startup"@) by { assert("post_tool_call"@.len() != "agent_startup"@.len() || "post_tool_call"@[0] != "agent_startup"@[0] || "post_tool_call"@[1] != "agent_startup"@[1]); }
        assert("post_tool_call"@ != "input"@) by { assert("post_tool_call"@.len() != "input"@.len() || "post_tool_call"@[0] != "input"@[0] || "post_tool_call"@[1] != "input"@[1]); }
        assert("post_tool_call"@ != "pre_model_call"@) by { assert("post_tool_call"@.len() != "pre_model_call"@.len() || "post_tool_call"@[0] != "pre_model_call"@[0] || "post_tool_call"@[1] != "pre_model_call"@[1]); }
        assert("post_tool_call"@ != "post_model_call"@) by { assert("post_tool_call"@.len() != "post_model_call"@.len() || "post_tool_call"@[0] != "post_model_call"@[0] || "post_tool_call"@[1] != "post_model_call"@[1]); }
        assert("post_tool_call"@ != "pre_tool_call"@) by { assert("post_tool_call"@.len() != "pre_tool_call"@.len() || "post_tool_call"@[0] != "pre_tool_call"@[0] || "post_tool_call"@[1] != "pre_tool_call"@[1]); }
        assert(c =~= seq![("tool_call"@, Some(seq!["id"@, "name"@, "args"@])), ("tool_result"@, Some(seq!["value"@, "is_error"@]))]);
    }
    if ip == "output"@ {
        assert("output"@ != "agent_startup"@) by { assert("output"@.len() != "agent_startup"@.len() || "output"@[0] != "agent_startup"@[0] || "output"@[1] != "agent_startup"@[1]); }
        assert("output"@ != "input"@) by { assert("output"@.len() != "input"@.len() || "output"@[0] != "input"@[0] || "output"@[1] != "input"@[1]); }
        assert("output"@ != "pre_model_call"@) by { assert("output"@.len() != "pre_model_call"@.len() || "output"@[0] != "pre_model_call"@[0] || "output"@[1] != "pre_model_call"@[1]); }
        assert("output"@ != "post_model_call"@) by { assert("output"@.len() != "post_model_call"@.len() || "output"@[0] != "post_model_call"@[0] || "output"@[1] != "post_model_call"@[1]); }
        assert("output"@ != "pre_tool_call"@) by { assert("output"@.len() != "pre_tool_call"@.len() || "output"@[0] != "pre_tool_call"@[0] || "output"@[1] != "pre_tool_call"@[1]); }
        assert("output"@ != "post_tool_call"@) by { assert("output"@.len() != "post_tool_call"@.len() || "output"@[0] != "post_tool_call"@[0] || "output"@[1] != "post_tool_call"@[1]); }
        assert(c =~= seq![("output"@, Some(seq!["content"@]))]);
    }
    if ip == "agent_shutdown"@ {
        assert("agent_shutdown"@ != "agent_startup"@) by { assert("agent_shutdown"@.len() != "agent_startup"@.len() || "agent_shutdown"@[0] != "agent_startup"@[0] || "agent_shutdown"@[1] != "agent_startup"@[1]); }
        assert("agent_shutdown"@ != "input"@) by { assert("agent_shutdown"@.len() != "input"@.len() || "agent_shutdown"@[0] != "input"@[0] || "agent_shutdown"@[1] != "input"@[1]); }
        assert("agent_shutdown"@ != "pre_model_call"@) by { assert("agent_shutdown"@.len() != "pre_model_call"@.len() || "agent_shutdown"@[0] != "pre_model_call"@[0] || "agent_shutdown"@[1] != "pre_model_call"@[1]); }
        assert("agent_shutdown"@ != "post_model_call"@) by { assert("agent_shutdown"@.len() != "post_model_call"@.len() || "agent_shutdown"@[0] != "post_model_call"@[0] || "agent_shutdown"@[1] != "post_model_call"@[1]); }
        assert("agent_shutdown"@ != "pre_tool_call"@) by { assert("agent_shutdown"@.len() != "pre_tool_call"@.len() || "agent_shutdown"@[0] != "pre_tool_call"@[0] || "agent_shutdown"@[1] != "pre_tool_call"@[1]); }
        assert("agent_shutdown"@ != "post_tool_call"@) by { assert("agent_shutdown"@.len() != "post_tool_call"@.len() || "agent_shutdown"@[0] != "post_tool_call"@[0] || "agent_shutdown"@[1] != "post_tool_call"@[1]); }
        assert("agent_shutdown"@ != "output"@) by { assert("agent_shutdown"@.len() != "output"@.len() || "agent_shutdown"@[0] != "output"@[0] || "agent_shutdown"@[1] != "output"@[1]); }
        assert(c =~= seq![("summary"@, Some(seq!["reason"@]))]);
    }
    assert(c.len() <= 2);
    assert forall|j: int| 0 <= j < c.len() implies {
        let n = (#[trigger] c[j]).0;
        &&& n != "spec"@ && n != "interception_point"@ && n != "timestamp"@ && n != "sequence"@
        &&& n != "target"@ && n != "agent"@ && n != "session"@
    } by {
        assert(c[j].0[0] != 's' || c[j].0.len() == 7);
        assert(c[j].0 != "session"@) by {
            if c[j].0.len() == 7 {
                assert(c[j].0[1] != "session"@[1]);
            }
        }
        assert(c[j].0 != "agent"@) by {
            if c[j].0.len() == 5 {
                assert(c[j].0[0] != 'a' || c[j].0[1] != 'g');
            }
        }
        assert(c[j].0 != "sequence"@) by {
            if c[j].0.len() == 8 {
                assert(c[j].0[0] != 's');
            }
        }
        assert(c[j].0 != "timestamp"@) by {
            if c[j].0.len() == 9 {
                assert(c[j].0[0] != 't' || c[j].0[1] != 'i');
            }
        }
        assert(c[j].0 != "target"@) by {
            if c[j].0.len() == 6 {
                assert(c[j].0[0] != 't');
            }
        }
    }
    let r = required_keep();
    assert(r[0].0.len() == 4 && r[1].0.len() == 18 && r[2].0.len() == 9 && r[3].0.len() == 8);
    assert(r[4].0.len() == 5 && r[5].0.len() == 7 && r[6].0.len() == 6);
    assert forall|i: int, j: int| 0 <= i < j < ks.len() && i < 7 implies (#[trigger] ks[j]).0 != (#[trigger] ks[i]).0 by {
        assert(ks[i] == r[i]);
        if j >= 7 {
            assert(ks[j] == c[j - 7]);
            let n = c[j - 7].0;
            assert(n != "spec"@ && n != "interception_point"@ && n != "timestamp"@ && n != "sequence"@);
            assert(n != "target"@ && n != "agent"@ && n != "session"@);
        } else {
            assert(ks[j] == r[j]);
            assert(ks[i].0.len() != ks[j].0.len());
        }
    }
    if c.len() == 2 {
        assert(c[0].0 != c[1].0) by {
            assert(c[0].0.len() != c[1].0.len());
        }
    }
    assert forall|i: int, j: int| 7 <= i < j < ks.len() implies (#[trigger] ks[j]).0 != (#[trigger] ks[i]).0 by {
        assert(ks[i] == c[i - 7]);
        assert(ks[j] == c[j - 7]);
    }
    assert forall|i: int| 0 <= i < ks.len() implies (ks[i].1 is None ==> kept_whole(ctx, ks[i].0))
        && (ks[i].1 matches Some(keep) ==> kept_members(ctx, ks[i].0, keep, k)) by {
        assert forall|j: int| i < j < ks.len() implies (#[trigger] ks[j]).0 != ks[i].0 by {
            assert(ks[j].0 != ks[i].0);
        }
        lemma_field_kept(ctx, ks, i, k);
    }
    assert(ks[0] == ("spec"@, None::<Seq<Seq<char>>>));
    assert(ks[1] == ("interception_point"@, None::<Seq<Seq<char>>>));
    assert(ks[2] == ("timestamp"@, None::<Seq<Seq<char>>>));
    assert(ks[3] == ("sequence"@, None::<Seq<Seq<char>>>));
    assert(ks[4] == ("agent"@, Some(seq!["id"@, "framework"@])));
    assert(ks[5] == ("session"@, Some(seq!["id"@])));
    assert(ks[6] == ("target"@, None::<Seq<Seq<char>>>));
    if c.len() >= 1 {
        assert(ks[7] == c[0]);
    }
    if c.len() == 2 {
        assert(ks[8] == c[1]);
    }
}

/// The preimage is closed: a top-level member it holds is one of the
/// required core or one of the conditional fields of the context's point.
pub proof fn law_preimage_closed(ctx: Entries, k: Seq<char>)
    requires
        member(preimage(ctx), k) is Some,
    ensures
        k == "spec"@ || k == "interception_point"@ || k == "timestamp"@ || k == "sequence"@ || k == "agent"@
            || k == "session"@ || k == "target"@
            || (ip_of(ctx) == "agent_startup"@ && k == "agent_init"@)
            || (ip_of(ctx) == "input"@ && k == "input"@)
            || (ip_of(ctx) == "pre_model_call"@ && (k == "model"@ || k == "messages"@))
            || (ip_of(ctx) == "post_model_call"@ && (k == "model"@ || k == "response"@))
            || (ip_of(ctx) == "pre_tool_call"@ && k == "tool_call"@)
            || (ip_of(ctx) == "post_tool_call"@ && (k == "tool_call"@ || k == "tool_result"@))
            || (ip_of(ctx) == "output"@ && k == "output"@)
            || (ip_of(ctx) == "agent_shutdown"@ && k == "summary"@),
{
    let ks = required_keep() + conditional_keep(ip_of(ctx));
    if forall|i: int| 0 <= i < ks.len() ==> (#[trigger] ks[i]).0 != k {
        lemma_project_with_absent(ctx, ks, k);
    }
    let i = choose|i: int| 0 <= i < ks.len() && (#[trigger] ks[i]).0 == k;
    if i >= 7 {
        assert(ks[i] == conditional_keep(ip_of(ctx))[i - 7]);
    }
}

/// A field that the projection keeps, and that no later field names again,
/// carries the context's value (filtered to its subfields).
proof fn lemma_project_with_get(ctx: Entries, ks: Seq<KeepView>, i: int, v: JView)
    requires
        0 <= i < ks.len(),
        forall|j: int| i < j < ks.len() ==> (#[trigger] ks[j]).0 != ks[i].0,
        map_get(ctx, ks[i].0) == Some(v),
    ensures
        map_get(project_with(ctx, ks), ks[i].0) == Some(filter_value(v, ks[i].1)),
    decreases ks.len(),
{
    let k = ks[i].0;
    let last = ks.last();
    let acc = project_with(ctx, ks.drop_last());
    if i == ks.len() - 1 {
        lemma_map_insert(acc, k, filter_value(v, last.1), k);
    } else {
        assert(ks.drop_last()[i] == ks[i]);
        assert forall|j: int| i < j < ks.drop_last().len() implies (#[trigger] ks.drop_last()[j]).0 != ks.drop_last()[i].0 by {
            assert(ks.drop_last()[j] == ks[j]);
        }
        lemma_project_with_get(ctx, ks.drop_last(), i, v);
        assert(ks[ks.len() - 1].0 != k);
        match map_get(ctx, last.0) {
            Some(w) => {
                lemma_map_insert(acc, last.0, filter_value(w, last.1), k);
            },
            None => {},
        }
    }
}

/// A context whose `target` holds an integer beyond ±(2⁵³−1) is outside the
/// identity provider's domain: `context_identity` rejects it rather than
/// rounding it into an identity that could collide with another's.
pub proof fn law_identity_rejects_out_of_domain_target(ctx: Entries, t: JView)
    requires
        map_get(ctx, "target"@) == Some(t),
        !ijson(t),
    ensures
        !identity_domain(ctx),
{
    let ip = ip_of(ctx);
    let ks = required_keep() + conditional_keep(ip);
    reveal_strlit("target");
    reveal_strlit("agent_init");
    reveal_strlit("input");
    reveal_strlit("model");
    reveal_strlit("messages");
    reveal_strlit("response");
    reveal_strlit("tool_call");
    reveal_strlit("tool_result");
    reveal_strlit("output");
    reveal_strlit("summary");
    assert(ks[6] == ("target"@, None::<Seq<Seq<char>>>));
    assert forall|j: int| 6 < j < ks.len() implies (#[trigger] ks[j]).0 != ks[6].0 by {
        let c = conditional_keep(ip);
        assert(ks[j] == c[j - 7]);
        assert(c[j - 7].0.len() != 6 || c[j - 7].0[0] != 't' || c[j - 7].0[1] != 'a');
    }
    lemma_project_with_get(ctx, ks, 6, t);
    let p = project_with(ctx, ks);
    assert(preimage(ctx) == JView::Object(p));
    lemma_first_index(p, "target"@);
    let f = first_index(p, "target"@);
    assert(p[f].1 == t);
    lemma_ijson_entries(p);
}

// ---- member order ---------------------------------------------------------------

/// Values equal up to member order nest equally deep and hold the same
/// integers.
#[verifier::spinoff_prover]
proof fn lemma_reordered_domain(a: JView, b: JView)
    requires
        reordered(a, b),
    ensures
        depth(a) == depth(b),
        ijson(a) == ijson(b),
    decreases a,
{
    match a {
        JView::Array(x) => {
            let y = b->Array_0;
            assert forall|i: int| 0 <= i < x.len() implies depth(#[trigger] x[i]) == depth(y[i]) && ijson(x[i]) == ijson(y[i]) by {
                assert(decreases_to!(a => x[i]));
                lemma_reordered_domain(x[i], y[i]);
            }
            let dx = depth_items(x);
            let dy = depth_items(y);
            lemma_depth_items(x, dy);
            lemma_depth_items(y, dx);
            if dx > dy {
                let i = choose|i: int| 0 <= i < x.len() && depth(#[trigger] x[i]) > dy;
                lemma_depth_items(y, dy);
                assert(depth(y[i]) > dy);
            }
            if dy > dx {
                let i = choose|i: int| 0 <= i < y.len() && depth(#[trigger] y[i]) > dx;
                lemma_depth_items(x, dx);
                assert(depth(x[i]) > dx);
            }
            lemma_ijson_items(x);
            lemma_ijson_items(y);
            if ijson_items(x) && !ijson_items(y) {
                let i = choose|i: int| 0 <= i < y.len() && !ijson(#[trigger] y[i]);
                assert(ijson(x[i]));
            }
            if !ijson_items(x) && ijson_items(y) {
                let i = choose|i: int| 0 <= i < x.len() && !ijson(#[trigger] x[i]);
                assert(ijson(y[i]));
            }
        },
        JView::Object(x) => {
            let y = b->Object_0;
            assert forall|i: int| #![trigger x[i]] 0 <= i < x.len() implies exists|j: int| 0 <= j < y.len()
                && depth(x[i].1) == depth(#[trigger] y[j].1) && ijson(x[i].1) == ijson(y[j].1) by {
                let j = choose|j: int| 0 <= j < y.len() && #[trigger] x[i].0 == #[trigger] y[j].0 && reordered(x[i].1, y[j].1);
                assert(decreases_to!(a => x[i].1));
                lemma_reordered_domain(x[i].1, y[j].1);
            }
            assert forall|j: int| #![trigger y[j]] 0 <= j < y.len() implies exists|i: int| 0 <= i < x.len()
                && depth(#[trigger] x[i].1) == depth(y[j].1) && ijson(x[i].1) == ijson(y[j].1) by {
                let i = choose|i: int| 0 <= i < x.len() && #[trigger] x[i].0 == #[trigger] y[j].0 && reordered(x[i].1, y[j].1);
                assert(decreases_to!(a => x[i].1));
                lemma_reordered_domain(x[i].1, y[j].1);
            }
            let dx = depth_entries(x);
            let dy = depth_entries(y);
            lemma_depth_entries(x, dy);
            lemma_depth_entries(y, dx);
            lemma_depth_entries(x, dx);
            lemma_depth_entries(y, dy);
            if dx > dy {
                let i = choose|i: int| 0 <= i < x.len() && depth((#[trigger] x[i]).1) > dy;
                let j = choose|j: int| 0 <= j < y.len() && depth(x[i].1) == depth(#[trigger] y[j].1) && ijson(x[i].1) == ijson(y[j].1);
                assert(depth(y[j].1) > dy);
            }
            if dy > dx {
                let j = choose|j: int| 0 <= j < y.len() && depth((#[trigger] y[j]).1) > dx;
                let i = choose|i: int| 0 <= i < x.len() && depth(#[trigger] x[i].1) == depth(y[j].1) && ijson(x[i].1) == ijson(y[j].1);
                assert(depth(x[i].1) > dx);
            }
            lemma_ijson_entries(x);
            lemma_ijson_entries(y);
            if ijson_entries(x) && !ijson_entries(y) {
                let j = choose|j: int| 0 <= j < y.len() && !ijson((#[trigger] y[j]).1);
                let i = choose|i: int| 0 <= i < x.len() && depth(#[trigger] x[i].1) == depth(y[j].1) && ijson(x[i].1) == ijson(y[j].1);
                assert(ijson(x[i].1));
            }
            if !ijson_entries(x) && ijson_entries(y) {
                let i = choose|i: int| 0 <= i < x.len() && !ijson((#[trigger] x[i]).1);
                let j = choose|j: int| 0 <= j < y.len() && depth(x[i].1) == depth(#[trigger] y[j].1) && ijson(x[i].1) == ijson(y[j].1);
                assert(ijson(y[j].1));
            }
        },
        _ => {},
    }
}

/// The members of two objects that are equal up to member order hold the
/// same keys, with values equal up to member order.
proof fn lemma_map_get_reordered(c1: Entries, c2: Entries, k: Seq<char>)
    requires
        reordered(JView::Object(c1), JView::Object(c2)),
    ensures
        map_get(c1, k) is Some <==> map_get(c2, k) is Some,
        map_get(c1, k) is Some ==> reordered(map_get(c1, k)->Some_0, map_get(c2, k)->Some_0),
{
    lemma_first_index(c1, k);
    lemma_first_index(c2, k);
    let f1 = first_index(c1, k);
    let f2 = first_index(c2, k);
    if f1 >= 0 {
        let j = choose|j: int| 0 <= j < c2.len() && #[trigger] c1[f1].0 == #[trigger] c2[j].0 && reordered(c1[f1].1, c2[j].1);
        assert forall|m: int| 0 <= m < j implies !key_at(c2, m, k) by {
            assert(c2[m].0 != c2[j].0);
        }
        lemma_first_index_at(c2, k, j);
    } else if f2 >= 0 {
        let i = choose|i: int| 0 <= i < c1.len() && #[trigger] c1[i].0 == #[trigger] c2[f2].0 && reordered(c1[i].1, c2[f2].1);
        assert(key_at(c1, i, k));
    }
}

/// Filtering members keeps exactly the members whose key is kept, and keeps
/// keys distinct.
proof fn lemma_filter_entries(es: Entries, keep: Seq<Seq<char>>)
    ensures
        forall|e: (Seq<char>, JView)| filter_entries(es, keep).contains(e) <==> es.contains(e) && keep.contains(e.0),
        distinct_keys(es) ==> distinct_keys(filter_entries(es, keep)),
    decreases es.len(),
{
    if es.len() > 0 {
        let t = es.drop_last();
        let ft = filter_entries(t, keep);
        lemma_filter_entries(t, keep);
        let f = filter_entries(es, keep);
        assert forall|e: (Seq<char>, JView)| f.contains(e) <==> es.contains(e) && keep.contains(e.0) by {
            if es.contains(e) {
                let i = choose|i: int| 0 <= i < es.len() && es[i] == e;
                if i < es.len() - 1 {
                    assert(t[i] == e);
                }
            }
            if t.contains(e) {
                let i = choose|i: int| 0 <= i < t.len() && t[i] == e;
                assert(es[i] == e);
            }
            if keep.contains(es.last().0) {
                assert(f == ft.push(es.last()));
                if f.contains(e) {
                    let i = choose|i: int| 0 <= i < f.len() && f[i] == e;
                    if i < ft.len() {
                        assert(ft[i] == e);
                    }
                }
                if ft.contains(e) {
                    let i = choose|i: int| 0 <= i < ft.len() && ft[i] == e;
                    assert(f[i] == e);
                }
                assert(f[f.len() - 1] == es.last());
            }
        }
        if distinct_keys(es) {
            assert forall|i: int, j: int| 0 <= i < j < t.len() implies #[trigger] t[i].0 != #[trigger] t[j].0 by {
                assert(t[i] == es[i]);
                assert(t[j] == es[j]);
            }
            if keep.contains(es.last().0) {
                assert forall|i: int, j: int| 0 <= i < j < f.len() implies #[trigger] f[i].0 != #[trigger] f[j].0 by {
                    if j < ft.len() {
                        assert(f[i] == ft[i]);
                        assert(f[j] == ft[j]);
                    } else {
                        assert(f[i] == ft[i]);
                        assert(ft.contains(ft[i]));
                        assert(t.contains(ft[i]));
                        let m = choose|m: int| 0 <= m < t.len() && t[m] == ft[i];
                        assert(es[m] == t[m]);
                        assert(es[m].0 != es[es.len() - 1].0);
                    }
                }
            }
        }
    }
}

/// Two values that the identity provider cannot tell apart: same canonical
/// text, same depth, same integer domain.
pub open spec fn same_identity_input(a: JView, b: JView) -> bool {
    &&& canon(a) == canon(b)
    &&& depth(a) == depth(b)
    &&& ijson(a) == ijson(b)
}

proof fn lemma_reordered_same_input(a: JView, b: JView)
    requires
        reordered(a, b),
    ensures
        same_identity_input(a, b),
{
    law_canon_ignores_member_order_deep(a, b);
    lemma_reordered_domain(a, b);
}

/// Member `i` of `x` and member `j` of `y` share their key and are
/// indistinguishable to the identity provider.
spec fn member_match(x: Entries, i: int, y: Entries, j: int) -> bool {
    &&& 0 <= j < y.len()
    &&& x[i].0 == y[j].0
    &&& same_identity_input(x[i].1, y[j].1)
}

/// Member `i` of `x` has a match in `y`.
spec fn has_match(x: Entries, i: int, y: Entries) -> bool {
    exists|j: int| #[trigger] member_match(x, i, y, j)
}

/// Every member of `x` has a match in `y`.
spec fn covered(x: Entries, y: Entries) -> bool {
    forall|i: int| 0 <= i < x.len() ==> #[trigger] has_match(x, i, y)
}

/// Objects (keys distinct) whose members correspond key for key with
/// indistinguishable values are indistinguishable.
#[verifier::spinoff_prover]
proof fn lemma_object_same_input(x: Entries, y: Entries)
    requires
        distinct_keys(x),
        distinct_keys(y),
        covered(x, y),
        covered(y, x),
    ensures
        same_identity_input(JView::Object(x), JView::Object(y)),
{
    let f = |i: int| choose|j: int| #[trigger] member_match(x, i, y, j);
    let g = |j: int| choose|i: int| #[trigger] member_match(y, j, x, i);
    assert forall|i: int| 0 <= i < x.len() implies 0 <= #[trigger] f(i) < y.len() && x[i].0 == y[f(i)].0 && canon(x[i].1) == canon(y[f(i)].1) by {
        assert(has_match(x, i, y));
    }
    assert forall|j: int| 0 <= j < y.len() implies 0 <= #[trigger] g(j) < x.len() && x[g(j)].0 == y[j].0 && canon(x[g(j)].1) == canon(y[j].1) by {
        assert(has_match(y, j, x));
    }
    crate::jcs::lemma_object_canon(x, y, f, g);
    let dx = depth_entries(x);
    let dy = depth_entries(y);
    lemma_depth_entries(x, dy);
    lemma_depth_entries(y, dx);
    lemma_depth_entries(x, dx);
    lemma_depth_entries(y, dy);
    if dx > dy {
        let i = choose|i: int| 0 <= i < x.len() && depth((#[trigger] x[i]).1) > dy;
        assert(has_match(x, i, y));
        assert(member_match(x, i, y, f(i)));
        assert(depth(y[f(i)].1) > dy);
    }
    if dy > dx {
        let j = choose|j: int| 0 <= j < y.len() && depth((#[trigger] y[j]).1) > dx;
        assert(has_match(y, j, x));
        assert(member_match(y, j, x, g(j)));
        assert(depth(x[g(j)].1) > dx);
    }
    lemma_ijson_entries(x);
    lemma_ijson_entries(y);
    if ijson_entries(x) && !ijson_entries(y) {
        let j = choose|j: int| 0 <= j < y.len() && !ijson((#[trigger] y[j]).1);
        assert(has_match(y, j, x));
        assert(member_match(y, j, x, g(j)));
        assert(ijson(x[g(j)].1));
    }
    if !ijson_entries(x) && ijson_entries(y) {
        let i = choose|i: int| 0 <= i < x.len() && !ijson((#[trigger] x[i]).1);
        assert(has_match(x, i, y));
        assert(member_match(x, i, y, f(i)));
        assert(ijson(y[f(i)].1));
    }
}

/// Filtering keeps ascending keys ascending.
pub proof fn lemma_filter_ascending(es: Entries, keep: Seq<Seq<char>>)
    requires
        crate::json::keys_ascending(es),
    ensures
        crate::json::keys_ascending(filter_entries(es, keep)),
    decreases es.len(),
{
    if es.len() > 0 {
        let t = es.drop_last();
        assert forall|i: int, j: int| 0 <= i < j < t.len() implies crate::json::key_less(#[trigger] t[i].0, #[trigger] t[j].0) by {
            assert(t[i] == es[i]);
            assert(t[j] == es[j]);
        }
        lemma_filter_ascending(t, keep);
        lemma_filter_entries(t, keep);
        let ft = filter_entries(t, keep);
        if keep.contains(es.last().0) {
            let f = filter_entries(es, keep);
            assert(f == ft.push(es.last()));
            assert forall|i: int, j: int| 0 <= i < j < f.len() implies crate::json::key_less(#[trigger] f[i].0, #[trigger] f[j].0) by {
                assert(f[i] == ft[i]);
                if j == f.len() - 1 {
                    assert(ft.contains(ft[i]));
                    assert(t.contains(ft[i]));
                    let m = choose|m: int| 0 <= m < t.len() && t[m] == ft[i];
                    assert(es[m] == t[m]);
                    assert(f[j] == es[es.len() - 1]);
                } else {
                    assert(f[j] == ft[j]);
                }
            }
        }
    }
}

/// Filtering two objects equal up to member order to the same keys leaves
/// them indistinguishable to the identity provider.
#[verifier::spinoff_prover]
#[verifier::rlimit(40)]
proof fn lemma_filter_entries_same_input(x: Entries, y: Entries, keep: Seq<Seq<char>>)
    requires
        reordered(JView::Object(x), JView::Object(y)),
    ensures
        same_identity_input(JView::Object(filter_entries(x, keep)), JView::Object(filter_entries(y, keep))),
{
    let fx = filter_entries(x, keep);
    let fy = filter_entries(y, keep);
    lemma_filter_entries(x, keep);
    lemma_filter_entries(y, keep);
    assert forall|i: int| 0 <= i < fx.len() implies #[trigger] has_match(fx, i, fy) by {
        assert(fx.contains(fx[i]));
        assert(x.contains(fx[i]));
        let m = choose|m: int| 0 <= m < x.len() && x[m] == fx[i];
        assert(x[m].0 == fx[i].0);
        let n = choose|n: int| 0 <= n < y.len() && #[trigger] x[m].0 == #[trigger] y[n].0 && reordered(x[m].1, y[n].1);
        assert(y.contains(y[n]));
        assert(fy.contains(y[n]));
        let j = choose|j: int| 0 <= j < fy.len() && fy[j] == y[n];
        lemma_reordered_same_input(x[m].1, y[n].1);
        assert(member_match(fx, i, fy, j));
    }
    assert forall|j: int| 0 <= j < fy.len() implies #[trigger] has_match(fy, j, fx) by {
        assert(fy.contains(fy[j]));
        assert(y.contains(fy[j]));
        let n = choose|n: int| 0 <= n < y.len() && y[n] == fy[j];
        assert(y[n].0 == fy[j].0);
        let m = choose|m: int| 0 <= m < x.len() && #[trigger] x[m].0 == #[trigger] y[n].0 && reordered(x[m].1, y[n].1);
        assert(x.contains(x[m]));
        assert(fx.contains(x[m]));
        let i = choose|i: int| 0 <= i < fx.len() && fx[i] == x[m];
        lemma_reordered_same_input(x[m].1, y[n].1);
        assert(member_match(fy, j, fx, i));
    }
    lemma_object_same_input(fx, fy);
}

/// Restricting two values equal up to member order to the same subfields
/// leaves them indistinguishable to the identity provider.
proof fn lemma_filter_value_same_input(a: JView, b: JView, sub: Option<Seq<Seq<char>>>)
    requires
        reordered(a, b),
    ensures
        same_identity_input(filter_value(a, sub), filter_value(b, sub)),
{
    if let (Some(keep), JView::Object(x)) = (sub, a) {
        lemma_filter_entries_same_input(x, b->Object_0, keep);
    } else {
        lemma_reordered_same_input(a, b);
    }
}

/// Entries with the same keys at the same places, and indistinguishable
/// values there.
spec fn aligned(x: Entries, y: Entries) -> bool {
    &&& x.len() == y.len()
    &&& forall|i: int| 0 <= i < x.len() ==> (#[trigger] x[i]).0 == y[i].0 && same_identity_input(x[i].1, y[i].1)
}

/// Entries with the same keys at the same places find a key at the same
/// index.
proof fn lemma_first_index_same_keys(x: Entries, y: Entries, k: Seq<char>)
    requires
        x.len() == y.len(),
        forall|i: int| 0 <= i < x.len() ==> (#[trigger] x[i]).0 == y[i].0,
    ensures
        first_index(x, k) == first_index(y, k),
{
    lemma_first_index(x, k);
    lemma_first_index(y, k);
    let f = first_index(x, k);
    let g = first_index(y, k);
    if f >= 0 {
        assert(key_at(y, f, k));
        assert forall|j: int| 0 <= j < f implies !key_at(y, j, k) by {
            assert(!key_at(x, j, k));
        }
        lemma_first_index_at(y, k, f);
    } else if g >= 0 {
        assert(key_at(x, g, k));
    }
}

/// Entries with the same keys at the same places place a new key alike.
proof fn lemma_insert_at_same_keys(x: Entries, y: Entries, k: Seq<char>)
    requires
        x.len() == y.len(),
        forall|i: int| 0 <= i < x.len() ==> (#[trigger] x[i]).0 == y[i].0,
    ensures
        crate::json::insert_at(x, k) == crate::json::insert_at(y, k),
    decreases x.len(),
{
    if x.len() > 0 {
        assert(x[0].0 == y[0].0);
        assert forall|i: int| 0 <= i < x.drop_first().len() implies (#[trigger] x.drop_first()[i]).0 == y.drop_first()[i].0 by {
            assert(x[i + 1].0 == y[i + 1].0);
        }
        lemma_insert_at_same_keys(x.drop_first(), y.drop_first(), k);
    }
}

proof fn lemma_map_insert_aligned(x: Entries, y: Entries, k: Seq<char>, v: JView, w: JView)
    requires
        aligned(x, y),
        same_identity_input(v, w),
    ensures
        aligned(map_insert(x, k, v), map_insert(y, k, w)),
{
    lemma_first_index_same_keys(x, y, k);
    lemma_insert_at_same_keys(x, y, k);
    crate::json::lemma_insert_at(x, k);
    let p = crate::json::insert_at(x, k);
    let x2 = map_insert(x, k, v);
    let y2 = map_insert(y, k, w);
    assert forall|i: int| 0 <= i < x2.len() implies (#[trigger] x2[i]).0 == y2[i].0 && same_identity_input(x2[i].1, y2[i].1) by {
        if first_index(x, k) >= 0 {
            if i < x.len() {
                assert(x[i].0 == y[i].0 && same_identity_input(x[i].1, y[i].1));
            }
        } else if i < p {
            assert(x[i].0 == y[i].0 && same_identity_input(x[i].1, y[i].1));
        } else if i > p {
            assert(x[i - 1].0 == y[i - 1].0 && same_identity_input(x[i - 1].1, y[i - 1].1));
        }
    }
}

proof fn lemma_map_insert_distinct(es: Entries, k: Seq<char>, v: JView)
    requires
        distinct_keys(es),
    ensures
        distinct_keys(map_insert(es, k, v)),
{
    lemma_first_index(es, k);
    let e2 = map_insert(es, k, v);
    let f = first_index(es, k);
    crate::json::lemma_insert_at(es, k);
    let p = crate::json::insert_at(es, k);
    assert forall|i: int, j: int| 0 <= i < j < e2.len() implies #[trigger] e2[i].0 != #[trigger] e2[j].0 by {
        if f >= 0 {
            if i == f {
                assert(es[j].0 != es[f].0);
            } else if j == f {
                assert(es[i].0 != es[f].0);
            } else {
                assert(es[i].0 != es[j].0);
            }
        } else {
            let a = if i < p { i } else { i - 1 };
            let b = if j < p { j } else { j - 1 };
            if i == p {
                assert(e2[j] == es[b]);
                assert(!key_at(es, b, k));
            } else if j == p {
                assert(e2[i] == es[a]);
                assert(!key_at(es, a, k));
            } else {
                assert(e2[i] == es[a]);
                assert(e2[j] == es[b]);
                assert(es[a].0 != es[b].0);
            }
        }
    }
}

/// Projecting two contexts equal up to member order onto the same fields
/// gives members with the same keys in the same places and values the
/// identity provider cannot tell apart.
proof fn lemma_project_with_same_input(c1: Entries, c2: Entries, ks: Seq<KeepView>)
    requires
        reordered(JView::Object(c1), JView::Object(c2)),
    ensures
        aligned(project_with(c1, ks), project_with(c2, ks)),
        distinct_keys(project_with(c1, ks)),
    decreases ks.len(),
{
    if ks.len() > 0 {
        let a1 = project_with(c1, ks.drop_last());
        let a2 = project_with(c2, ks.drop_last());
        lemma_project_with_same_input(c1, c2, ks.drop_last());
        let k = ks.last();
        lemma_map_get_reordered(c1, c2, k.0);
        match map_get(c1, k.0) {
            Some(v1) => {
                let v2 = map_get(c2, k.0)->Some_0;
                lemma_filter_value_same_input(v1, v2, k.1);
                lemma_map_insert_aligned(a1, a2, k.0, filter_value(v1, k.1), filter_value(v2, k.1));
                lemma_map_insert_distinct(a1, k.0, filter_value(v1, k.1));
            },
            None => {},
        }
    }
}

/// A value equal up to member order to a string is that string.
proof fn lemma_reordered_str(a: JView, b: JView)
    requires
        reordered(a, b),
    ensures
        view_str(Some(a)) == view_str(Some(b)),
{
    match a {
        JView::Array(_) => {},
        JView::Object(_) => {},
        _ => {},
    }
}

/// Reordering the members of a context, at any depth, changes neither
/// whether the identity provider accepts it nor the identity it yields.
pub proof fn law_identity_ignores_member_order(c1: Entries, c2: Entries)
    requires
        reordered(JView::Object(c1), JView::Object(c2)),
    ensures
        identity_domain(c1) == identity_domain(c2),
        spec_identity(c1) == spec_identity(c2),
{
    let k = "interception_point"@;
    lemma_map_get_reordered(c1, c2, k);
    if map_get(c1, k) is Some {
        lemma_reordered_str(map_get(c1, k)->Some_0, map_get(c2, k)->Some_0);
    }
    assert(ip_of(c1) == ip_of(c2));
    let ks = required_keep() + conditional_keep(ip_of(c1));
    let p1 = project_with(c1, ks);
    let p2 = project_with(c2, ks);
    lemma_project_with_same_input(c1, c2, ks);
    assert forall|i: int, j: int| 0 <= i < j < p2.len() implies #[trigger] p2[i].0 != #[trigger] p2[j].0 by {
        assert(p1[i].0 == p2[i].0);
        assert(p1[j].0 == p2[j].0);
    }
    assert forall|i: int| 0 <= i < p1.len() implies #[trigger] has_match(p1, i, p2) by {
        assert(p1[i].0 == p2[i].0 && same_identity_input(p1[i].1, p2[i].1));
        assert(member_match(p1, i, p2, i));
    }
    assert forall|i: int| 0 <= i < p2.len() implies #[trigger] has_match(p2, i, p1) by {
        assert(p1[i].0 == p2[i].0 && same_identity_input(p1[i].1, p2[i].1));
        assert(member_match(p2, i, p1, i));
    }
    lemma_object_same_input(p1, p2);
}

/// Serialize `v` canonically (RFC 8785 / JCS).
pub fn canonical_json(v: &JsonValue) -> (r: String)
    ensures
        r@ == canon(v@),
{
    crate::jcs::to_string(v)
}

// ---- raw-text integer scan ------------------------------------------------------

/// An ASCII decimal digit.
pub open spec fn is_digit(c: u8) -> bool {
    48 <= c <= 57
}

/// A byte that may continue a number token: a digit, `-`, `+`, `.`, `e` or `E`.
pub open spec fn number_byte(c: u8) -> bool {
    is_digit(c) || c == 45 || c == 43 || c == 46 || c == 101 || c == 69
}

/// Index of the closing quote of a string body that starts at `k`
/// (backslash escapes skip the next byte), or the text's length when the
/// body runs to the end.
pub open spec fn string_end(b: Seq<u8>, k: int) -> int
    decreases b.len() - k,
{
    if k >= b.len() {
        b.len() as int
    } else if b[k] == 92 {
        if k + 1 < b.len() {
            string_end(b, k + 2)
        } else {
            b.len() as int
        }
    } else if b[k] == 34 {
        k
    } else {
        string_end(b, k + 1)
    }
}

/// End (exclusive) of the number token that starts at `k`.
pub open spec fn token_end(b: Seq<u8>, k: int) -> int
    decreases b.len() - k,
{
    if 0 <= k < b.len() && number_byte(b[k]) {
        token_end(b, k + 1)
    } else {
        k
    }
}

/// The digits of 2⁵³−1, `9007199254740991`.
pub open spec fn limit_digits() -> Seq<u8> {
    seq![57u8, 48u8, 48u8, 55u8, 49u8, 57u8, 57u8, 50u8, 53u8, 52u8, 55u8, 52u8, 48u8, 57u8, 57u8, 49u8]
}

/// Lexicographic byte order: `a` sorts after `c`.
pub open spec fn lex_greater(a: Seq<u8>, c: Seq<u8>) -> bool
    decreases a.len(),
{
    if a.len() == 0 || c.len() == 0 {
        a.len() > c.len()
    } else if a[0] != c[0] {
        a[0] > c[0]
    } else {
        lex_greater(a.drop_first(), c.drop_first())
    }
}

/// A number token of integer syntax (no `.`, `e` or `E`).
pub open spec fn integer_syntax(t: Seq<u8>) -> bool {
    forall|i: int| 0 <= i < t.len() ==> #[trigger] t[i] != 46 && t[i] != 101 && t[i] != 69
}

/// The token without a leading minus sign.
pub open spec fn unsigned_part(t: Seq<u8>) -> Seq<u8> {
    if t.len() > 0 && t[0] == 45 {
        t.drop_first()
    } else {
        t
    }
}

/// Digits beyond 2⁵³−1: more than sixteen of them, or sixteen that sort
/// after `9007199254740991`.
pub open spec fn exceeds_limit(d: Seq<u8>) -> bool {
    d.len() > 16 || (d.len() == 16 && lex_greater(d, limit_digits()))
}

/// An integer-syntax number token whose magnitude exceeds 2⁵³−1.
pub open spec fn offending(t: Seq<u8>) -> bool {
    integer_syntax(t) && exceeds_limit(unsigned_part(t))
}

pub proof fn lemma_string_end(b: Seq<u8>, k: int)
    ensures
        string_end(b, k) >= k || string_end(b, k) == b.len(),
        string_end(b, k) <= b.len() || string_end(b, k) == k,
        0 <= k <= b.len() ==> k <= string_end(b, k) <= b.len(),
        0 <= k < b.len() && string_end(b, k) < b.len() ==> b[string_end(b, k)] == 34,
    decreases b.len() - k,
{
    if k < b.len() {
        if b[k] == 92 {
            if k + 1 < b.len() {
                lemma_string_end(b, k + 2);
            }
        } else if b[k] != 34 {
            lemma_string_end(b, k + 1);
        }
    }
}

pub proof fn lemma_token_end(b: Seq<u8>, k: int)
    requires
        0 <= k <= b.len(),
    ensures
        k <= token_end(b, k) <= b.len(),
        forall|j: int| k <= j < token_end(b, k) ==> number_byte(#[trigger] b[j]),
        token_end(b, k) < b.len() ==> !number_byte(b[token_end(b, k)]),
    decreases b.len() - k,
{
    if k < b.len() && number_byte(b[k]) {
        lemma_token_end(b, k + 1);
    }
}

/// The first offending number token at or after `i`, as a byte span,
/// skipping string bodies.
pub open spec fn scan_from(b: Seq<u8>, i: int) -> Option<(int, int)>
    decreases b.len() - i,
{
    if i < 0 || i >= b.len() {
        None
    } else if b[i] == 34 {
        let e = string_end(b, i + 1);
        if e >= b.len() {
            None
        } else {
            proof {
                lemma_string_end(b, i + 1);
            }
            scan_from(b, e + 1)
        }
    } else if is_digit(b[i]) || b[i] == 45 {
        let j = token_end(b, i);
        if offending(b.subrange(i, j)) {
            Some((i, j))
        } else {
            proof {
                lemma_token_end(b, i);
            }
            scan_from(b, j)
        }
    } else {
        scan_from(b, i + 1)
    }
}

/// The ASCII bytes of a token as characters.
pub open spec fn ascii_chars(t: Seq<u8>) -> Seq<char> {
    t.map_values(|c: u8| c as char)
}

/// The detail message for an offending token.
pub open spec fn raw_integer_detail(t: Seq<u8>) -> Seq<char> {
    "integer "@ + ascii_chars(t) + " exceeds 2^53; string-encode 64-bit identifiers, see spec §4.4"@
}

/// Whether `a` (equal length, sixteen bytes) sorts after the limit digits.
fn after_limit(d: &[u8]) -> (r: bool)
    requires
        d@.len() == 16,
    ensures
        r == lex_greater(d@, limit_digits()),
{
    let lim: [u8; 16] = [57u8, 48u8, 48u8, 55u8, 49u8, 57u8, 57u8, 50u8, 53u8, 52u8, 55u8, 52u8, 48u8, 57u8, 57u8, 49u8];
    assert(lim@ =~= limit_digits());
    assert(d@.skip(0) =~= d@);
    assert(lim@.skip(0) =~= lim@);
    let mut k: usize = 0;
    while k < 16
        invariant
            k <= 16,
            d@.len() == 16,
            lim@ == limit_digits(),
            lex_greater(d@, limit_digits()) == lex_greater(d@.skip(k as int), lim@.skip(k as int)),
        decreases 16 - k,
    {
        assert(d@.skip(k as int).drop_first() =~= d@.skip(k + 1));
        assert(lim@.skip(k as int).drop_first() =~= lim@.skip(k + 1));
        if d[k] != lim[k] {
            return d[k] > lim[k];
        }
        k = k + 1;
    }
    false
}

/// Reject integer-syntax number tokens whose magnitude exceeds ±(2⁵³−1)
/// in raw JSON text, skipping string bodies (with their escapes); float
/// syntax is a genuine double and passes. The text is expected to be
/// syntactically valid JSON.
pub fn scan_raw_integer_domain(text: &str) -> (r: Result<(), Failure>)
    ensures
        match scan_from(vstd::utf8::encode_utf8(text@), 0) {
            None => r is Ok,
            Some(span) => r == Err::<(), Failure>((HostError::ContextInvalid, r->Err_0.1))
                && r->Err_0.1@ == raw_integer_detail(vstd::utf8::encode_utf8(text@).subrange(span.0, span.1)),
        },
{
    let b = text.as_bytes();
    let ghost bs = b@;
    let mut i: usize = 0;
    while i < b.len()
        invariant
            bs == b@,
            bs == vstd::utf8::encode_utf8(text@),
            i <= b.len(),
            scan_from(bs, 0) == scan_from(bs, i as int),
        decreases b.len() - i,
    {
        if b[i] == 34u8 {
            let mut k: usize = i + 1;
            proof {
                lemma_string_end(bs, i + 1);
            }
            while k < b.len()
                invariant
                    bs == b@,
                    i < k <= b.len(),
                    string_end(bs, i + 1) == string_end(bs, k as int),
                ensures
                    i < k <= b.len(),
                    string_end(bs, i + 1) == string_end(bs, k as int),
                    k < b.len() ==> bs[k as int] == 34,
                decreases b.len() - k,
            {
                if b[k] == 92u8 {
                    if k + 1 < b.len() {
                        k = k + 2;
                    } else {
                        k = b.len();
                    }
                } else if b[k] == 34u8 {
                    break;
                } else {
                    k = k + 1;
                }
            }
            proof {
                lemma_string_end(bs, k as int);
            }
            if k >= b.len() {
                return Ok(());
            }
            i = k + 1;
        } else if (b[i] >= 48u8 && b[i] <= 57u8) || b[i] == 45u8 {
            let start = i;
            let mut integral = true;
            let mut j: usize = i;
            while j < b.len() && (b[j] >= 48u8 && b[j] <= 57u8 || b[j] == 45u8 || b[j] == 43u8 || b[j] == 46u8 || b[j] == 101u8 || b[j] == 69u8)
                invariant
                    bs == b@,
                    start <= j <= b.len(),
                    token_end(bs, start as int) == token_end(bs, j as int),
                    integral == integer_syntax(bs.subrange(start as int, j as int)),
                decreases b.len() - j,
            {
                if b[j] == 46u8 || b[j] == 101u8 || b[j] == 69u8 {
                    integral = false;
                }
                proof {
                    let t = bs.subrange(start as int, j + 1);
                    assert(t.drop_last() =~= bs.subrange(start as int, j as int));
                    if integral {
                        assert forall|q: int| 0 <= q < t.len() implies #[trigger] t[q] != 46 && t[q] != 101 && t[q] != 69 by {
                            if q < t.len() - 1 {
                                assert(t[q] == bs.subrange(start as int, j as int)[q]);
                            }
                        }
                    } else {
                        if !integer_syntax(bs.subrange(start as int, j as int)) {
                            let q = choose|q: int| 0 <= q < bs.subrange(start as int, j as int).len() && !(#[trigger] bs.subrange(start as int, j as int)[q] != 46 && bs.subrange(start as int, j as int)[q] != 101 && bs.subrange(start as int, j as int)[q] != 69);
                            assert(t[q] == bs.subrange(start as int, j as int)[q]);
                        } else {
                            assert(t[t.len() - 1] == bs[j as int]);
                        }
                    }
                }
                j = j + 1;
            }
            proof {
                lemma_token_end(bs, j as int);
                assert(token_end(bs, j as int) == j);
            }
            let tok = &b[start..j];
            let ghost t = bs.subrange(start as int, j as int);
            assert(tok@ == t);
            if integral {
                let neg = tok.len() > 0 && tok[0] == 45u8;
                let dlen: usize = if neg { tok.len() - 1 } else { tok.len() };
                let over = if dlen > 16 {
                    true
                } else if dlen == 16 {
                    let digits = if neg { &tok[1..tok.len()] } else { tok };
                    assert(digits@ =~= unsigned_part(t));
                    after_limit(digits)
                } else {
                    false
                };
                assert(unsigned_part(t).len() == dlen);
                if over {
                    let mut d = to_owned("integer ");
                    let ghost d0 = d@;
                    let n = tok.len();
                    for q in 0..n
                        invariant
                            n == tok@.len(),
                            d@ == d0 + ascii_chars(tok@.take(q as int)),
                    {
                        crate::text::push_char(&mut d, tok[q] as char);
                        assert(tok@.take(q + 1).drop_last() =~= tok@.take(q as int));
                        assert(d@ =~= d0 + ascii_chars(tok@.take(q + 1)));
                    }
                    assert(tok@.take(n as int) =~= tok@);
                    push_str(&mut d, " exceeds 2^53; string-encode 64-bit identifiers, see spec §4.4");
                    return Err((HostError::ContextInvalid, d));
                }
            }
            i = j;
        } else {
            i = i + 1;
        }
    }
    Ok(())
}


// ---- raw-text scan of the closed projection -----------------------------------------

/// The members of a JSON object text, each key with the raw JSON text of
/// its value, in key order; or the parser's error message. This is what
/// `serde_json` gives for the text as a map of borrowed keys to raw values.
pub uninterp spec fn raw_members(text: Seq<char>) -> Result<Seq<(Seq<char>, Seq<char>)>, Seq<char>>;

/// The contents of a JSON string text when `serde_json` can borrow them
/// (a string without escapes), `None` otherwise.
pub uninterp spec fn raw_string(text: Seq<char>) -> Option<Seq<char>>;

/// Views of raw members.
pub open spec fn raw_pairs_view(v: Seq<(String, String)>) -> Seq<(Seq<char>, Seq<char>)> {
    v.map_values(|p: (String, String)| (p.0@, p.1@))
}

/// Parses an object text into its raw members
/// (`serde_json::from_str` into a `BTreeMap<&str, &RawValue>`); the
/// result, or the error's message, is [`raw_members`] of the text.
#[verifier::external_body]
fn parse_raw_object(text: &str) -> (r: Result<Vec<(String, String)>, String>)
    ensures
        match r {
            Ok(v) => raw_members(text@) == Ok::<Seq<(Seq<char>, Seq<char>)>, Seq<char>>(raw_pairs_view(v@)),
            Err(e) => raw_members(text@) == Err::<Seq<(Seq<char>, Seq<char>)>, Seq<char>>(e@),
        },
{
    match serde_json::from_str::<std::collections::BTreeMap<&str, &serde_json::value::RawValue>>(text) {
        Ok(m) => Ok(m.into_iter().map(|(k, v)| (k.to_owned(), v.get().to_owned())).collect()),
        Err(e) => Err(e.to_string()),
    }
}

/// Reads a JSON string text as a borrowed string
/// (`serde_json::from_str::<&str>`); the result is [`raw_string`] of the
/// text.
#[verifier::external_body]
fn parse_borrowed_str(text: &str) -> (r: Option<String>)
    ensures
        match r {
            Some(s) => raw_string(text@) == Some(s@),
            None => raw_string(text@) is None,
        },
{
    serde_json::from_str::<&str>(text).ok().map(|s| s.to_owned())
}

/// The raw text of member `key` (first match).
pub open spec fn raw_lookup(ms: Seq<(Seq<char>, Seq<char>)>, key: Seq<char>) -> Option<Seq<char>>
    decreases ms.len(),
{
    if ms.len() == 0 {
        None
    } else if ms[0].0 == key {
        Some(ms[0].1)
    } else {
        raw_lookup(ms.drop_first(), key)
    }
}

/// The integer-domain scan of a raw text, as a detail on failure.
pub open spec fn scan_text(t: Seq<char>) -> Result<(), Seq<char>> {
    let b = vstd::utf8::encode_utf8(t);
    match scan_from(b, 0) {
        None => Ok(()),
        Some(span) => Err(raw_integer_detail(b.subrange(span.0, span.1))),
    }
}

/// Scans the whitelisted subfields `keep` of an object's members, in
/// whitelist order.
pub open spec fn scan_subfields(m: Seq<(Seq<char>, Seq<char>)>, keep: Seq<Seq<char>>) -> Result<(), Seq<char>>
    decreases keep.len(),
{
    if keep.len() == 0 {
        Ok(())
    } else {
        let first = match raw_lookup(m, keep[0]) {
            Some(f) => scan_text(f),
            None => Ok(()),
        };
        if first is Err {
            first
        } else {
            scan_subfields(m, keep.drop_first())
        }
    }
}

/// Scans one preimage field of the top-level members: whole, or its
/// whitelisted subfields when it parses as an object.
pub open spec fn scan_field(top: Seq<(Seq<char>, Seq<char>)>, k: KeepView) -> Result<(), Seq<char>> {
    match raw_lookup(top, k.0) {
        None => Ok(()),
        Some(rv) => match k.1 {
            None => scan_text(rv),
            Some(keep) => match raw_members(rv) {
                Ok(m) => scan_subfields(m, keep),
                Err(_) => scan_text(rv),
            },
        },
    }
}

/// Scans the preimage fields `ks` in order, stopping at the first failure.
pub open spec fn scan_fields(top: Seq<(Seq<char>, Seq<char>)>, ks: Seq<KeepView>) -> Result<(), Seq<char>>
    decreases ks.len(),
{
    if ks.len() == 0 {
        Ok(())
    } else if scan_field(top, ks[0]) is Err {
        scan_field(top, ks[0])
    } else {
        scan_fields(top, ks.drop_first())
    }
}

/// The interception point named by the top-level members (`""` when
/// absent or not a plain string).
pub open spec fn raw_ip(top: Seq<(Seq<char>, Seq<char>)>) -> Seq<char> {
    match raw_lookup(top, "interception_point"@) {
        Some(rv) => match raw_string(rv) {
            Some(s) => s,
            None => Seq::empty(),
        },
        None => Seq::empty(),
    }
}

/// The closed-projection scan over the top-level members of a context.
pub open spec fn spec_scan_members(top: Seq<(Seq<char>, Seq<char>)>) -> Result<(), Seq<char>> {
    scan_fields(top, required_keep() + conditional_keep(raw_ip(top)))
}

/// The closed-projection scan of a context text.
pub open spec fn spec_scan_projection(text: Seq<char>) -> Result<(), Seq<char>> {
    match raw_members(text) {
        Err(e) => Err("ctx: "@ + e),
        Ok(top) => spec_scan_members(top),
    }
}

/// The raw text of member `key`, first match.
fn find_raw(ms: &Vec<(String, String)>, key: &str) -> (r: Option<String>)
    ensures
        match r {
            Some(t) => raw_lookup(raw_pairs_view(ms@), key@) == Some(t@),
            None => raw_lookup(raw_pairs_view(ms@), key@) is None,
        },
{
    let n = ms.len();
    let ghost all = raw_pairs_view(ms@);
    assert(all.skip(0) =~= all);
    for i in 0..n
        invariant
            n == ms@.len(),
            all == raw_pairs_view(ms@),
            raw_lookup(all, key@) == raw_lookup(all.skip(i as int), key@),
    {
        proof {
            assert(all.skip(i as int).drop_first() =~= all.skip(i + 1));
            assert(all.skip(i as int)[0] == all[i as int]);
        }
        if crate::text::str_eq(ms[i].0.as_str(), key) {
            return Some(ms[i].1.clone());
        }
    }
    None
}

/// The scan result as a failure.
pub open spec fn as_failure(r: Result<(), Seq<char>>, out: Result<(), Failure>) -> bool {
    match r {
        Ok(_) => out is Ok,
        Err(d) => out matches Err(e) && e.0 == HostError::ContextInvalid && e.1@ == d,
    }
}

fn scan_text_exec(t: &String) -> (r: Result<(), Failure>)
    ensures
        as_failure(scan_text(t@), r),
{
    scan_raw_integer_domain(t.as_str())
}

fn scan_subfields_exec(m: &Vec<(String, String)>, keep: &Vec<&'static str>) -> (r: Result<(), Failure>)
    ensures
        as_failure(scan_subfields(raw_pairs_view(m@), keep@.map_values(|s: &'static str| s@)), r),
{
    let ghost kv = keep@.map_values(|s: &'static str| s@);
    let ghost mv = raw_pairs_view(m@);
    let n = keep.len();
    assert(kv.skip(0) =~= kv);
    for i in 0..n
        invariant
            n == keep@.len(),
            kv == keep@.map_values(|s: &'static str| s@),
            mv == raw_pairs_view(m@),
            scan_subfields(mv, kv) == scan_subfields(mv, kv.skip(i as int)),
    {
        proof {
            assert(kv.skip(i as int).drop_first() =~= kv.skip(i + 1));
            assert(kv.skip(i as int)[0] == kv[i as int]);
        }
        match find_raw(m, keep[i]) {
            Some(f) => {
                let r = scan_text_exec(&f);
                if r.is_err() {
                    return r;
                }
            },
            None => {},
        }
    }
    assert(kv.skip(n as int) =~= Seq::<Seq<char>>::empty());
    Ok(())
}

fn scan_field_exec(top: &Vec<(String, String)>, k: &KeepField) -> (r: Result<(), Failure>)
    ensures
        as_failure(scan_field(raw_pairs_view(top@), k@), r),
{
    match find_raw(top, k.key) {
        None => Ok(()),
        Some(rv) => match &k.sub {
            None => scan_text_exec(&rv),
            Some(keep) => match parse_raw_object(rv.as_str()) {
                Ok(m) => scan_subfields_exec(&m, keep),
                Err(_) => scan_text_exec(&rv),
            },
        },
    }
}

/// The closed-projection scan over the top-level members of a context
/// (each key with the raw text of its value): the raw text of every
/// required and conditional field for the context's interception point
/// (only the whitelisted subfields of an object field) must pass
/// [`scan_raw_integer_domain`]; the first failure is returned.
pub fn scan_projection_members(top: &Vec<(String, String)>) -> (r: Result<(), Failure>)
    ensures
        as_failure(spec_scan_members(raw_pairs_view(top@)), r),
{
    let ghost tv = raw_pairs_view(top@);
    let ip: String = match find_raw(top, "interception_point") {
        Some(rv) => match parse_borrowed_str(rv.as_str()) {
            Some(s) => s,
            None => String::new(),
        },
        None => String::new(),
    };
    assert(ip@ == raw_ip(tv));
    let req = required_fields();
    let cond = conditional_for(ip.as_str());
    let ghost ks = keeps_view(req@) + keeps_view(cond@);
    assert(ks == required_keep() + conditional_keep(raw_ip(tv)));
    assert(ks.skip(0) =~= ks);
    let nr = req.len();
    for i in 0..nr
        invariant
            ks == required_keep() + conditional_keep(raw_ip(tv)),
            nr == req@.len(),
            tv == raw_pairs_view(top@),
            ks == keeps_view(req@) + keeps_view(cond@),
            scan_fields(tv, ks) == scan_fields(tv, ks.skip(i as int)),
    {
        proof {
            assert(ks.skip(i as int).drop_first() =~= ks.skip(i + 1));
            assert(ks.skip(i as int)[0] == req@[i as int]@);
        }
        let r = scan_field_exec(top, &req[i]);
        if r.is_err() {
            return r;
        }
    }
    let nc = cond.len();
    for i in 0..nc
        invariant
            ks == required_keep() + conditional_keep(raw_ip(tv)),
            nc == cond@.len(),
            nr == req@.len(),
            tv == raw_pairs_view(top@),
            ks == keeps_view(req@) + keeps_view(cond@),
            scan_fields(tv, ks) == scan_fields(tv, ks.skip(nr + i)),
    {
        proof {
            assert(ks.skip(nr + i).drop_first() =~= ks.skip(nr + i + 1));
            assert(ks.skip(nr + i)[0] == cond@[i as int]@);
        }
        let r = scan_field_exec(top, &cond[i]);
        if r.is_err() {
            return r;
        }
    }
    assert(ks.skip(nr + nc) =~= Seq::<KeepView>::empty());
    Ok(())
}

/// [`scan_raw_integer_domain`] scoped to the closed projection of a
/// context text: a beyond-2⁵³ integer in an optional or namespaced field
/// never rejects. A text that is not an object of plain keys fails with
/// the parser's message.
pub fn scan_projection_raw(ctx_json: &str) -> (r: Result<(), Failure>)
    ensures
        as_failure(spec_scan_projection(ctx_json@), r),
{
    match parse_raw_object(ctx_json) {
        Err(e) => {
            let mut d = to_owned("ctx: ");
            push_str(&mut d, e.as_str());
            Err((HostError::ContextInvalid, d))
        },
        Ok(top) => scan_projection_members(&top),
    }
}


// ---- envelope -------------------------------------------------------------------

/// The detail for a required envelope field that is missing or mistyped.
pub open spec fn envelope_detail(field: Seq<char>) -> Seq<char> {
    "envelope: required field `"@ + field + "` is missing or mistyped, see spec §4.1"@
}

/// Member `key` of `v` is a string (`v` an object).
pub open spec fn has_str_member(v: Option<JView>, key: Seq<char>) -> bool {
    match v {
        Some(JView::Object(es)) => view_str(map_get(es, key)) is Some,
        _ => false,
    }
}

/// The required core of the envelope, checked in order; the first field
/// that is missing or mistyped names the failure.
pub open spec fn spec_validate_envelope(ctx: Entries) -> Result<(), Seq<char>> {
    if view_str(map_get(ctx, "spec"@)) is None {
        Err(envelope_detail("spec"@))
    } else if !(view_str(map_get(ctx, "interception_point"@)) matches Some(s) && ip_from_name(s) is Some) {
        Err(envelope_detail("interception_point"@))
    } else if view_str(map_get(ctx, "timestamp"@)) is None {
        Err(envelope_detail("timestamp"@))
    } else if !(map_get(ctx, "sequence"@) matches Some(JView::Number(JNum::PosInt(_)))) {
        Err(envelope_detail("sequence"@))
    } else if !has_str_member(map_get(ctx, "agent"@), "id"@) {
        Err(envelope_detail("agent.id"@))
    } else if !has_str_member(map_get(ctx, "agent"@), "framework"@) {
        Err(envelope_detail("agent.framework"@))
    } else if !has_str_member(map_get(ctx, "session"@), "id"@) {
        Err(envelope_detail("session.id"@))
    } else if map_get(ctx, "target"@) is None {
        Err(envelope_detail("target"@))
    } else {
        Ok(())
    }
}

fn envelope_error(field: &str) -> (r: Failure)
    ensures
        r.0 == HostError::ContextInvalid,
        r.1@ == envelope_detail(field@),
{
    let mut d = to_owned("envelope: required field `");
    push_str(&mut d, field);
    push_str(&mut d, "` is missing or mistyped, see spec §4.1");
    (HostError::ContextInvalid, d)
}

fn str_member_present(v: Option<&JsonValue>, key: &str) -> (r: bool)
    ensures
        r == has_str_member(crate::json::opt_view(v), key@),
{
    match v {
        Some(JsonValue::Object(m)) => match m.get(key) {
            Some(JsonValue::String(_)) => true,
            _ => false,
        },
        _ => false,
    }
}

/// Envelope validation (fail closed): the required core fields — `spec`,
/// `interception_point` naming one of the eight points, `timestamp`, a
/// non-negative integer `sequence`, `agent.id`, `agent.framework`,
/// `session.id` and `target` — must be present with their types.
pub fn validate_envelope(ctx: &JsonMap) -> (r: Result<(), Failure>)
    ensures
        as_failure(spec_validate_envelope(ctx@), r),
{
    match ctx.get("spec") {
        Some(JsonValue::String(_)) => {},
        _ => return Err(envelope_error("spec")),
    }
    match ctx.get("interception_point") {
        Some(JsonValue::String(s)) => {
            if InterceptionPoint::from_name(s.as_str()).is_err() {
                return Err(envelope_error("interception_point"));
            }
        },
        _ => return Err(envelope_error("interception_point")),
    }
    match ctx.get("timestamp") {
        Some(JsonValue::String(_)) => {},
        _ => return Err(envelope_error("timestamp")),
    }
    match ctx.get("sequence") {
        Some(JsonValue::Number(JsonNumber::PosInt(_))) => {},
        _ => return Err(envelope_error("sequence")),
    }
    if !str_member_present(ctx.get("agent"), "id") {
        return Err(envelope_error("agent.id"));
    }
    if !str_member_present(ctx.get("agent"), "framework") {
        return Err(envelope_error("agent.framework"));
    }
    if !str_member_present(ctx.get("session"), "id") {
        return Err(envelope_error("session.id"));
    }
    if ctx.get("target").is_none() {
        return Err(envelope_error("target"));
    }
    Ok(())
}

} // verus!
