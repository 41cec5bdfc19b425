//! The conformance runner's decisions: how a vector configures a run, how
//! scripted answers become verdicts and resolutions, how the approval
//! redactor rewrites a context, and how the reference agent answers a tool
//! call. A binding's runner performs the run itself (it owns the async
//! emitter and the harness) and asks these functions what to do.
use vstd::prelude::*;
use crate::ctk_engine::{index_or_null, json_eq, strings_in, texts, values_equal};
use crate::json::{group_json_view, jv_seq, member, view_str, Entries, JView, JsonMap, JsonValue};
use crate::text::{chars_of, str_eq, to_owned};
use crate::types::{
    ApprovalOutcome, ApprovalResolution, Decision, EnforcementMode, Transform, TransformView, Verdict,
    VerdictView,
};
use crate::verdict::{from_wire, spec_from_wire};

verus! {

broadcast use group_json_view;

// ---- scripted answers ----------------------------------------------------------------------

/// A malformed verdict, which validation refuses: a transform without a body.
pub open spec fn malformed_view() -> VerdictView {
    VerdictView {
        decision: Decision::Transform,
        reason: None,
        message: None,
        warnings: Seq::empty(),
        approval: None,
        transform: None,
        evidence: None,
        result_labels: Seq::empty(),
    }
}

/// The `allow` a scripted interceptor answers when its rule asked it to
/// mutate the context (which a shared borrow already rules out).
pub open spec fn mutated_view() -> VerdictView {
    VerdictView {
        decision: Decision::Allow,
        reason: Some("ctk:mutated"@),
        message: None,
        warnings: Seq::empty(),
        approval: None,
        transform: None,
        evidence: None,
        result_labels: Seq::empty(),
    }
}

/// The verdict a scripted interceptor returns for the wire answer `wire`:
/// the `mutate` fault gives the mutated `allow`, any other fault and any
/// answer that fails the wire validation give the malformed verdict,
/// and a valid answer is returned as validated.
pub open spec fn spec_scripted_verdict(wire: JView) -> VerdictView {
    match member(wire, "__ctk_fault__"@) {
        Some(f) => if f == JView::Str("mutate"@) {
            mutated_view()
        } else {
            malformed_view()
        },
        None => match spec_from_wire(wire) {
            Ok(v) => v,
            Err(_) => malformed_view(),
        },
    }
}

/// The malformed verdict.
pub fn malformed_verdict() -> (r: Verdict)
    ensures
        r@ == malformed_view(),
{
    let mut v = Verdict::allow();
    v.decision = Decision::Transform;
    v
}

/// The verdict a scripted interceptor returns for its rule's answer.
pub fn scripted_verdict(wire: &JsonValue) -> (r: Verdict)
    ensures
        r@ == spec_scripted_verdict(wire@),
{
    match wire.get("__ctk_fault__") {
        Some(f) => {
            let is_mutate = match f {
                JsonValue::String(s) => str_eq(s.as_str(), "mutate"),
                _ => false,
            };
            if is_mutate {
                let mut v = Verdict::allow();
                v.reason = Some(to_owned("ctk:mutated"));
                v
            } else {
                malformed_verdict()
            }
        },
        None => match from_wire(wire) {
            Ok(v) => v,
            Err(_) => malformed_verdict(),
        },
    }
}

/// The outcome a scripted resolution names; anything but `approve` or
/// `reject` is `unresolved`.
pub open spec fn spec_outcome(out: JView) -> ApprovalOutcome {
    match view_str(member(out, "outcome"@)) {
        Some(s) => if s == "approve"@ {
            ApprovalOutcome::Approve
        } else if s == "reject"@ {
            ApprovalOutcome::Reject
        } else {
            ApprovalOutcome::Unresolved
        },
        None => ApprovalOutcome::Unresolved,
    }
}

/// The identity a scripted resolution echoes: its `context_identity`
/// string (`""` when absent), which stands for no identity when the request
/// carried none and the echo is empty.
pub open spec fn echoed_identity(out: JView, request: Option<Seq<char>>) -> Option<Seq<char>> {
    let echoed = match view_str(member(out, "context_identity"@)) {
        Some(s) => s,
        None => Seq::empty(),
    };
    if echoed.len() == 0 && request is None {
        None
    } else {
        Some(echoed)
    }
}

/// A scripted resolution that can be turned into a resolution: a fault,
/// or a `verdict` member (when present) that passes the wire validation.
pub open spec fn resolution_convertible(out: JView) -> bool {
    member(out, "__ctk_fault__"@) is Some || (member(out, "verdict"@) matches Some(v) ==> spec_from_wire(v) is Ok)
}

/// Whether a scripted resolution can be turned into a resolution.
pub fn is_convertible_resolution(out: &JsonValue) -> (r: bool)
    ensures
        r == resolution_convertible(out@),
{
    if out.get("__ctk_fault__").is_some() {
        return true;
    }
    match out.get("verdict") {
        Some(v) => from_wire(v).is_ok(),
        None => true,
    }
}

/// The view of an optional verdict.
pub open spec fn opt_verdict(v: Option<Verdict>) -> Option<VerdictView> {
    match v {
        Some(x) => Some(x@),
        None => None,
    }
}

/// The resolution a scripted resolver returns for the scripted answer
/// `out` to a request carrying `request_identity`: a fault becomes an
/// `approve` echoing the request with the malformed verdict; otherwise
/// the named outcome, the echoed identity and the validated verdict.
pub fn scripted_resolution(out: &JsonValue, request_identity: &Option<String>) -> (r: ApprovalResolution)
    requires
        resolution_convertible(out@),
    ensures
        member(out@, "__ctk_fault__"@) is Some ==> {
            &&& r.outcome == ApprovalOutcome::Approve
            &&& r.context_identity == *request_identity
            &&& opt_verdict(r.verdict) == Some(malformed_view())
        },
        member(out@, "__ctk_fault__"@) is None ==> {
            &&& r.outcome == spec_outcome(out@)
            &&& crate::types::opt_str_view(r.context_identity) == echoed_identity(out@, crate::types::opt_str_view(*request_identity))
            &&& opt_verdict(r.verdict) == match member(out@, "verdict"@) {
                Some(v) => Some(spec_from_wire(v)->Ok_0),
                None => None::<VerdictView>,
            }
        },
{
    if out.get("__ctk_fault__").is_some() {
        return ApprovalResolution {
            outcome: ApprovalOutcome::Approve,
            context_identity: crate::types::opt_string_clone(request_identity),
            verdict: Some(malformed_verdict()),
        };
    }
    let outcome = match out.get("outcome") {
        Some(JsonValue::String(s)) => if str_eq(s.as_str(), "approve") {
            ApprovalOutcome::Approve
        } else if str_eq(s.as_str(), "reject") {
            ApprovalOutcome::Reject
        } else {
            ApprovalOutcome::Unresolved
        },
        _ => ApprovalOutcome::Unresolved,
    };
    let verdict = match out.get("verdict") {
        Some(v) => match from_wire(v) {
            Ok(x) => Some(x),
            Err(_) => None,
        },
        None => None,
    };
    let echoed = match out.get("context_identity") {
        Some(JsonValue::String(s)) => s.clone(),
        _ => String::new(),
    };
    let context_identity = if crate::text::chars_of(echoed.as_str()).len() == 0 && request_identity.is_none() {
        None
    } else {
        Some(echoed)
    };
    ApprovalResolution { outcome, context_identity, verdict }
}

// ---- what a vector asks of a run ------------------------------------------------------------

/// The items of `v` when it is an array, else none.
pub open spec fn items_or_empty(v: JView) -> Seq<JView> {
    match v {
        JView::Array(a) => a,
        _ => Seq::empty(),
    }
}

/// The interceptor scripts of a vector, one rule list per interceptor in
/// registration order: `interceptor_scripts` when it is an array (a
/// non-array entry is an empty list), else the single
/// `interceptor_script` (empty when absent).
pub open spec fn spec_scripts(vector: JView) -> Seq<Seq<JView>> {
    match member(vector, "interceptor_scripts"@) {
        Some(JView::Array(lists)) => lists.map_values(|l: JView| items_or_empty(l)),
        _ => seq![items_or_empty(index_or_null(vector, "interceptor_script"@))],
    }
}

/// Views of rule lists.
pub open spec fn lists_view(ls: Seq<Vec<JsonValue>>) -> Seq<Seq<JView>> {
    ls.map_values(|l: Vec<JsonValue>| jv_seq(l@))
}

fn items_clone(v: &JsonValue) -> (r: Vec<JsonValue>)
    ensures
        jv_seq(r@) == items_or_empty(v@),
{
    match v {
        JsonValue::Array(a) => {
            let mut out: Vec<JsonValue> = Vec::new();
            let n = a.len();
            for i in 0..n
                invariant
                    n == a@.len(),
                    jv_seq(out@) == jv_seq(a@).take(i as int),
            {
                out.push(a[i].clone());
                assert(jv_seq(out@) =~= jv_seq(a@).take(i + 1));
            }
            assert(jv_seq(a@).take(n as int) =~= jv_seq(a@));
            out
        },
        _ => {
            let out: Vec<JsonValue> = Vec::new();
            assert(jv_seq(out@) =~= Seq::<JView>::empty());
            out
        },
    }
}

/// The interceptor scripts of a vector.
pub fn vector_scripts(vector: &JsonValue) -> (r: Vec<Vec<JsonValue>>)
    ensures
        lists_view(r@) == spec_scripts(vector@),
{
    match vector.get("interceptor_scripts") {
        Some(JsonValue::Array(lists)) => {
            let ghost lv = jv_seq(lists@);
            let mut out: Vec<Vec<JsonValue>> = Vec::new();
            let n = lists.len();
            for i in 0..n
                invariant
                    n == lists@.len(),
                    lv == jv_seq(lists@),
                    lists_view(out@) == lv.take(i as int).map_values(|l: JView| items_or_empty(l)),
            {
                assert(lv[i as int] == lists@[i as int]@);
                let l = items_clone(&lists[i]);
                let ghost before = out@;
                out.push(l);
                assert(out@ == before.push(l));
                assert(lists_view(before.push(l)) =~= lists_view(before).push(jv_seq(l@)));
                assert(lv.take(i + 1).map_values(|l: JView| items_or_empty(l))
                    =~= lv.take(i as int).map_values(|l: JView| items_or_empty(l)).push(items_or_empty(lv[i as int])));
                assert(lists_view(out@) =~= lv.take(i + 1).map_values(|l: JView| items_or_empty(l)));
            }
            assert(lv.take(n as int) =~= lv);
            out
        },
        _ => {
            let single = match vector.get("interceptor_script") {
                Some(v) => items_clone(v),
                None => {
                    let e: Vec<JsonValue> = Vec::new();
                    assert(jv_seq(e@) =~= Seq::<JView>::empty());
                    e
                },
            };
            let mut out: Vec<Vec<JsonValue>> = Vec::new();
            out.push(single);
            assert(lists_view(out@) =~= spec_scripts(vector@));
            out
        },
    }
}

/// The resolver script of a vector: `approval_script` when it is a
/// non-empty array; no resolver otherwise.
pub open spec fn spec_approval_rules(vector: JView) -> Option<Seq<JView>> {
    match member(vector, "approval_script"@) {
        Some(JView::Array(rules)) => if rules.len() > 0 {
            Some(rules)
        } else {
            None
        },
        _ => None,
    }
}

/// The resolver script of a vector, when it registers a resolver.
pub fn vector_approval_rules(vector: &JsonValue) -> (r: Option<Vec<JsonValue>>)
    ensures
        match r {
            Some(rs) => spec_approval_rules(vector@) == Some(jv_seq(rs@)),
            None => spec_approval_rules(vector@) is None,
        },
{
    match vector.get("approval_script") {
        Some(v) => match v {
            JsonValue::Array(rules) => if rules.len() > 0 {
                Some(items_clone(v))
            } else {
                None
            },
            _ => None,
        },
        None => None,
    }
}

/// The mode a vector runs in: `evaluate_only` when it says so, else
/// `enforce`.
pub open spec fn spec_vector_mode(vector: JView) -> EnforcementMode {
    if view_str(member(vector, "mode"@)) == Some("evaluate_only"@) {
        EnforcementMode::EvaluateOnly
    } else {
        EnforcementMode::Enforce
    }
}

/// The mode a vector runs in.
pub fn vector_mode(vector: &JsonValue) -> (r: EnforcementMode)
    ensures
        r == spec_vector_mode(vector@),
{
    match vector.get("mode") {
        Some(JsonValue::String(s)) => if str_eq(s.as_str(), "evaluate_only") {
            EnforcementMode::EvaluateOnly
        } else {
            EnforcementMode::Enforce
        },
        _ => EnforcementMode::Enforce,
    }
}

/// The identity provider a vector declares.
#[derive(Debug, Clone, Copy, PartialEq, Eq, Structural)]
pub enum ProviderChoice {
    /// The default `jcs-sha256` provider.
    JcsSha256,
    /// No provider: identity-unbound records.
    Unbound,
    /// A host-defined provider named `ctk-fault` that fails on every call.
    Faulting,
}

/// The provider of a vector: absent means the default, an explicit `null`
/// means none, and `"ctk-fault"` the failing one.
pub open spec fn spec_vector_provider(vector: JView) -> ProviderChoice {
    match member(vector, "identity_provider"@) {
        Some(JView::Null) => ProviderChoice::Unbound,
        Some(JView::Str(s)) => if s == "ctk-fault"@ {
            ProviderChoice::Faulting
        } else {
            ProviderChoice::JcsSha256
        },
        _ => ProviderChoice::JcsSha256,
    }
}

/// The identity provider a vector declares.
pub fn vector_provider(vector: &JsonValue) -> (r: ProviderChoice)
    ensures
        r == spec_vector_provider(vector@),
{
    match vector.get("identity_provider") {
        Some(JsonValue::Null) => ProviderChoice::Unbound,
        Some(JsonValue::String(s)) => if str_eq(s.as_str(), "ctk-fault") {
            ProviderChoice::Faulting
        } else {
            ProviderChoice::JcsSha256
        },
        _ => ProviderChoice::JcsSha256,
    }
}

/// The paths a vector's approval redactor replaces (non-strings skipped).
pub open spec fn spec_redactions(vector: JView) -> Seq<Seq<char>> {
    match member(vector, "redact_for_approval"@) {
        Some(JView::Array(a)) => strings_in(a),
        _ => Seq::empty(),
    }
}

/// The paths a vector's approval redactor replaces.
pub fn vector_redactions(vector: &JsonValue) -> (r: Vec<String>)
    ensures
        texts(r@) == spec_redactions(vector@),
{
    crate::ctk_engine::strings_of(vector.get("redact_for_approval"))
}

// ---- the approval redactor ----------------------------------------------------------------

/// The value a redacted path holds.
pub open spec fn redacted_value() -> JView {
    JView::Str("[redacted]"@)
}

/// `ctx` with each path in turn replaced by `"[redacted]"` through the
/// transform machinery (write-back mirrored); a path that does not apply
/// leaves the context as it was.
pub open spec fn spec_redact(ctx: Entries, paths: Seq<Seq<char>>) -> Entries
    decreases paths.len(),
{
    if paths.len() == 0 {
        ctx
    } else {
        let c = spec_redact(ctx, paths.drop_last());
        match crate::enforce::spec_apply_transform(c, TransformView { path: paths.last(), value: redacted_value() }) {
            Ok(c2) => c2,
            Err(_) => c,
        }
    }
}

/// The context an approval request presents after redaction.
pub fn redact_context(ctx: &JsonMap, paths: &Vec<String>) -> (r: JsonMap)
    ensures
        r@ == spec_redact(ctx@, texts(paths@)),
{
    let ghost ps = texts(paths@);
    let mut c = ctx.copy();
    let n = paths.len();
    for i in 0..n
        invariant
            n == paths@.len(),
            ps == texts(paths@),
            c@ == spec_redact(ctx@, ps.take(i as int)),
    {
        assert(ps.take(i + 1).drop_last() =~= ps.take(i as int));
        assert(ps.take(i + 1).last() == paths@[i as int]@);
        let t = Transform { path: paths[i].clone(), value: JsonValue::String(to_owned("[redacted]")) };
        let _ = crate::enforce::apply_transform_to_ctx(&mut c, &t);
    }
    assert(ps.take(n as int) =~= ps);
    c
}

// ---- the reference agent's tools ----------------------------------------------------------

/// The first tool of `tools` from index `i` named `name`.
pub open spec fn find_tool(tools: Seq<JView>, name: Seq<char>, i: int) -> Option<JView>
    decreases tools.len() - i,
{
    if i < 0 || i >= tools.len() {
        None
    } else if view_str(member(tools[i], "name"@)) == Some(name) {
        Some(tools[i])
    } else {
        find_tool(tools, name, i + 1)
    }
}

/// Whether a tool behavior applies to `args`: it has no `when_args`, or
/// its `when_args` equals `args`.
pub open spec fn behavior_applies(b: JView, args: JView) -> bool {
    match member(b, "when_args"@) {
        None => true,
        Some(w) => json_eq(w, args),
    }
}

/// The first behavior of `bs` from index `i` that applies to `args`.
pub open spec fn find_behavior(bs: Seq<JView>, args: JView, i: int) -> Option<JView>
    decreases bs.len() - i,
{
    if i < 0 || i >= bs.len() {
        None
    } else if behavior_applies(bs[i], args) {
        Some(bs[i])
    } else {
        find_behavior(bs, args, i + 1)
    }
}

/// What the scenario's tool `name` returns for `args`: the `return` of its
/// first applicable behavior (`null` when absent) and whether it is an
/// error (`is_error: true`); none when the tool or a behavior is missing.
pub open spec fn spec_invoke_tool(scenario: JView, name: Seq<char>, args: JView) -> Option<(JView, bool)> {
    match find_tool(items_or_empty(index_or_null(scenario, "tools"@)), name, 0) {
        None => None,
        Some(t) => match find_behavior(items_or_empty(index_or_null(t, "behavior"@)), args, 0) {
            None => None,
            Some(b) => Some((index_or_null(b, "return"@), member(b, "is_error"@) == Some(JView::Bool(true)))),
        },
    }
}

fn index_or_null_clone(v: &JsonValue, k: &str) -> (r: JsonValue)
    ensures
        r@ == index_or_null(v@, k@),
{
    match v.get(k) {
        Some(x) => x.clone(),
        None => JsonValue::Null,
    }
}

fn array_items<'a>(v: Option<&'a JsonValue>) -> (r: &'a [JsonValue])
    ensures
        jv_seq(r@) == items_or_empty(match v {
            Some(x) => x@,
            None => JView::Null,
        }),
{
    match v {
        Some(JsonValue::Array(a)) => a.as_slice(),
        _ => {
            let e: &[JsonValue] = &[];
            assert(jv_seq(e@) =~= Seq::<JView>::empty());
            e
        },
    }
}

fn find_tool_index(tools: &[JsonValue], name: &str) -> (r: Option<usize>)
    ensures
        match r {
            Some(k) => k < tools@.len() && find_tool(jv_seq(tools@), name@, 0) == Some(tools@[k as int]@),
            None => find_tool(jv_seq(tools@), name@, 0) is None,
        },
{
    let ghost tv = jv_seq(tools@);
    let mut i: usize = 0;
    while i < tools.len()
        invariant
            tv == jv_seq(tools@),
            i <= tools@.len(),
            find_tool(tv, name@, 0) == find_tool(tv, name@, i as int),
        decreases tools.len() - i,
    {
        assert(tv[i as int] == tools@[i as int]@);
        let named = match tools[i].get("name") {
            Some(JsonValue::String(s)) => str_eq(s.as_str(), name),
            _ => false,
        };
        if named {
            return Some(i);
        }
        i = i + 1;
    }
    None
}

/// The reference agent's mock tool call: the return value and error flag
/// of the first applicable behavior of the scenario's tool `name`.
pub fn invoke_tool(scenario: &JsonValue, name: &str, args: &JsonValue) -> (r: Option<(JsonValue, bool)>)
    ensures
        match r {
            Some(x) => spec_invoke_tool(scenario@, name@, args@) == Some((x.0@, x.1)),
            None => spec_invoke_tool(scenario@, name@, args@) is None,
        },
{
    let tools = array_items(scenario.get("tools"));
    let ghost tv = jv_seq(tools@);
    let t = match find_tool_index(tools, name) {
        Some(k) => &tools[k],
        None => return None,
    };
    assert(tv == items_or_empty(index_or_null(scenario@, "tools"@)));
    let bs = array_items(t.get("behavior"));
    let ghost bv = jv_seq(bs@);
    assert(bv == items_or_empty(index_or_null(t@, "behavior"@)));
    let mut j: usize = 0;
    while j < bs.len()
        invariant
            bv == jv_seq(bs@),
            j <= bs@.len(),
            find_behavior(bv, args@, 0) == find_behavior(bv, args@, j as int),
            find_tool(items_or_empty(index_or_null(scenario@, "tools"@)), name@, 0) == Some(t@),
            bv == items_or_empty(index_or_null(t@, "behavior"@)),
        decreases bs.len() - j,
    {
        assert(bv[j as int] == bs@[j as int]@);
        let b = &bs[j];
        let applies = match b.get("when_args") {
            None => true,
            Some(w) => values_equal(w, args),
        };
        if applies {
            assert(behavior_applies(bv[j as int], args@));
            assert(find_behavior(bv, args@, j as int) == Some(bv[j as int]));
            let is_error = match b.get("is_error") {
                Some(JsonValue::Bool(e)) => *e,
                _ => false,
            };
            let ret = index_or_null_clone(b, "return");
            assert(b@ == bv[j as int]);
            assert(ret@ == index_or_null(bv[j as int], "return"@));
            assert(is_error == (member(bv[j as int], "is_error"@) == Some(JView::Bool(true))));
            return Some((ret, is_error));
        }
        j = j + 1;
    }
    None
}

// ---- the reference agent --------------------------------------------------------------------

/// Lexicographic order of character sequences (the order of `str`).
pub open spec fn chars_le(a: Seq<char>, b: Seq<char>) -> bool
    decreases a.len(),
{
    if a.len() == 0 {
        true
    } else if b.len() == 0 {
        false
    } else if a[0] != b[0] {
        (a[0] as u32) < (b[0] as u32)
    } else {
        chars_le(a.skip(1), b.skip(1))
    }
}

/// `ss` is in ascending order.
pub open spec fn sorted_texts(ss: Seq<Seq<char>>) -> bool {
    forall|i: int, j: int| 0 <= i < j < ss.len() ==> chars_le(#[trigger] ss[i], #[trigger] ss[j])
}

/// `chars_le` relates any two sequences one way or the other.
proof fn lemma_chars_le_total(a: Seq<char>, b: Seq<char>)
    ensures
        chars_le(a, b) || chars_le(b, a),
    decreases a.len(),
{
    if a.len() > 0 && b.len() > 0 {
        if a[0] == b[0] {
            lemma_chars_le_total(a.skip(1), b.skip(1));
        } else {
            vstd::utf8::char_u32_cast(a[0], a[0] as u32);
            vstd::utf8::char_u32_cast(b[0], b[0] as u32);
        }
    }
}

/// `chars_le` is transitive.
proof fn lemma_chars_le_transitive(a: Seq<char>, b: Seq<char>, c: Seq<char>)
    requires
        chars_le(a, b),
        chars_le(b, c),
    ensures
        chars_le(a, c),
    decreases a.len(),
{
    if a.len() > 0 && a[0] == b[0] && b[0] == c[0] {
        lemma_chars_le_transitive(a.skip(1), b.skip(1), c.skip(1));
    }
}

/// Whether `a` orders at or before `b`, character by character.
fn str_le(a: &str, b: &str) -> (r: bool)
    ensures
        r == chars_le(a@, b@),
{
    let x = chars_of(a);
    let y = chars_of(b);
    let mut i: usize = 0;
    assert(a@.skip(0) =~= a@);
    assert(b@.skip(0) =~= b@);
    while i < x.len() && i < y.len() && x[i] == y[i]
        invariant
            x@ == a@,
            y@ == b@,
            i <= x@.len(),
            i <= y@.len(),
            chars_le(a@, b@) == chars_le(a@.skip(i as int), b@.skip(i as int)),
        decreases x@.len() - i,
    {
        proof {
            let s = a@.skip(i as int);
            let t = b@.skip(i as int);
            assert(s[0] == t[0]);
            assert(s.skip(1) =~= a@.skip(i + 1));
            assert(t.skip(1) =~= b@.skip(i + 1));
        }
        i = i + 1;
    }
    if i == x.len() {
        assert(a@.skip(i as int).len() == 0);
        true
    } else if i == y.len() {
        assert(b@.skip(i as int).len() == 0);
        assert(a@.skip(i as int).len() > 0);
        false
    } else {
        let p = x[i];
        let q = y[i];
        proof {
            assert(a@.skip(i as int)[0] == p);
            assert(b@.skip(i as int)[0] == q);
            assert(p != q);
        }
        let r = (p as u32) < (q as u32);
        r
    }
}

/// Sorts strings in ascending character order (the order of `str`), by
/// insertion.
fn sort_strings(v: &mut Vec<String>)
    ensures
        texts(final(v)@).to_multiset() == texts(old(v)@).to_multiset(),
        sorted_texts(texts(final(v)@)),
{
    let mut out: Vec<String> = Vec::new();
    let n = v.len();
    assert(texts(v@.take(0)) =~= Seq::<Seq<char>>::empty());
    assert(texts(out@) =~= Seq::<Seq<char>>::empty());
    for i in 0..n
        invariant
            n == v@.len(),
            texts(out@).to_multiset() == texts(v@.take(i as int)).to_multiset(),
            sorted_texts(texts(out@)),
    {
        let x = v[i].clone();
        let ghost t = texts(out@);
        let mut j: usize = 0;
        while j < out.len() && str_le(out[j].as_str(), x.as_str())
            invariant
                t == texts(out@),
                j <= out@.len(),
                forall|k: int| 0 <= k < j ==> chars_le(#[trigger] t[k], x@),
            decreases out@.len() - j,
        {
            j = j + 1;
        }
        proof {
            assert forall|k: int| j <= k < t.len() implies chars_le(x@, #[trigger] t[k]) by {
                lemma_chars_le_total(t[j as int], x@);
                if k > j {
                    lemma_chars_le_transitive(x@, t[j as int], t[k]);
                }
            }
        }
        out.insert(j, x);
        proof {
            let t2 = texts(out@);
            assert(t2 =~= t.insert(j as int, x@));
            assert forall|p: int, q: int| 0 <= p < q < t2.len() implies chars_le(#[trigger] t2[p], #[trigger] t2[q]) by {
                if q < j {
                } else if p < j && q == j {
                } else if p < j {
                    lemma_chars_le_transitive(t2[p], x@, t2[q]);
                } else if p == j {
                } else {
                }
            }
            assert(texts(v@.take(i + 1)) =~= texts(v@.take(i as int)).push(v@[i as int]@));
            assert(x@ == v@[i as int]@);
            vstd::seq_lib::to_multiset_insert(t, j as int, x@);
            vstd::seq_lib::to_multiset_build(texts(v@.take(i as int)), x@);
        }
    }
    assert(v@.take(n as int) =~= v@);
    *v = out;
}

/// The names of the tools, in order (a tool without a string name
/// skipped).
pub open spec fn names_of(tools: Seq<JView>) -> Seq<Seq<char>>
    decreases tools.len(),
{
    if tools.len() == 0 {
        Seq::empty()
    } else {
        let rest = names_of(tools.drop_last());
        match view_str(member(tools.last(), "name"@)) {
            Some(n) => rest.push(n),
            None => rest,
        }
    }
}

/// The tools of a scenario.
pub open spec fn scenario_tools(sc: JView) -> Seq<JView> {
    items_or_empty(index_or_null(sc, "tools"@))
}

/// The model script of a scenario.
pub open spec fn model_steps(sc: JView) -> Seq<JView> {
    items_or_empty(index_or_null(sc, "model_script"@))
}

/// The mock model's response at step `k`.
pub open spec fn respond(sc: JView, k: int) -> JView {
    index_or_null(model_steps(sc)[k], "respond"@)
}

/// The scenario's user input content.
pub open spec fn input_content(sc: JView) -> JView {
    index_or_null(index_or_null(sc, "input"@), "content"@)
}

/// The scenario's input role, `user` by default.
pub open spec fn input_role(sc: JView) -> Seq<char> {
    match view_str(member(index_or_null(sc, "input"@), "role"@)) {
        Some(r) => r,
        None => "user"@,
    }
}

/// A chat message.
pub open spec fn message(role: Seq<char>, content: JView) -> JView {
    JView::Object(seq![("role"@, JView::Str(role)), ("content"@, content)])
}

/// The tool message recording a blocked tool call.
pub open spec fn blocked_message(reason: Option<Seq<char>>) -> JView {
    message("tool"@, JView::Str("blocked: "@ + match reason {
        Some(r) => r,
        None => Seq::empty(),
    }))
}

/// The assistant's content, `""` for a null one.
pub open spec fn assistant_content(resp: JView) -> JView {
    if index_or_null(resp, "content"@) == JView::Null {
        JView::Str(Seq::empty())
    } else {
        index_or_null(resp, "content"@)
    }
}

/// The tool log entry of a call.
pub open spec fn log_entry(name: Seq<char>, args: JView) -> JView {
    JView::Object(seq![("name"@, JView::Str(name)), ("args"@, args)])
}

/// Where the reference agent is: the emission it is waiting on.
#[derive(Debug, Clone, Copy, PartialEq, Eq, Structural)]
pub enum AgentPhase {
    Startup,
    Input,
    PreModelCall,
    PostModelCall,
    PreToolCall,
    PostToolCall,
    Output,
    Finished,
}

/// What the reference agent asks its host to build and emit next, or how
/// its run ended.
#[derive(Debug)]
pub enum AgentRequest {
    Startup { tools: Vec<String> },
    Input { content: JsonValue, role: String },
    PreModelCall { messages: Vec<JsonValue> },
    PostModelCall { content: JsonValue, tool_calls: Vec<JsonValue>, finish_reason: String },
    PreToolCall { id: String, name: String, args: JsonValue },
    PostToolCall { id: String, name: String, args: JsonValue, value: JsonValue, is_error: bool },
    Output { content: JsonValue },
    /// The run is over: `completed` unless an emission blocked.
    Finished { completed: bool, final_output: JsonValue },
    /// The scenario has no tool `name`, or no behavior for `args`: the run
    /// cannot go on.
    ToolUnavailable { name: String, args: JsonValue },
}

/// View of a request.
pub enum RequestView {
    Startup(Seq<Seq<char>>),
    Input(JView, Seq<char>),
    PreModelCall(Seq<JView>),
    PostModelCall(JView, Seq<JView>, Seq<char>),
    PreToolCall(Seq<char>, Seq<char>, JView),
    PostToolCall(Seq<char>, Seq<char>, JView, JView, bool),
    Output(JView),
    Finished(bool, JView),
    ToolUnavailable(Seq<char>, JView),
}

impl View for AgentRequest {
    type V = RequestView;

    open spec fn view(&self) -> RequestView {
        match self {
            AgentRequest::Startup { tools } => RequestView::Startup(texts(tools@)),
            AgentRequest::Input { content, role } => RequestView::Input(content@, role@),
            AgentRequest::PreModelCall { messages } => RequestView::PreModelCall(jv_seq(messages@)),
            AgentRequest::PostModelCall { content, tool_calls, finish_reason } => RequestView::PostModelCall(
                content@,
                jv_seq(tool_calls@),
                finish_reason@,
            ),
            AgentRequest::PreToolCall { id, name, args } => RequestView::PreToolCall(id@, name@, args@),
            AgentRequest::PostToolCall { id, name, args, value, is_error } => RequestView::PostToolCall(
                id@,
                name@,
                args@,
                value@,
                *is_error,
            ),
            AgentRequest::Output { content } => RequestView::Output(content@),
            AgentRequest::Finished { completed, final_output } => RequestView::Finished(*completed, final_output@),
            AgentRequest::ToolUnavailable { name, args } => RequestView::ToolUnavailable(name@, args@),
        }
    }
}

/// The reference agent of the conformance kit: a minimal in-memory agent
/// loop over a vector's scenario (mock model and tools). Its host builds
/// and emits each context it asks for and reports whether the emission
/// let the action proceed.
#[derive(Debug)]
pub struct ReferenceAgent {
    pub scenario: JsonValue,
    pub phase: AgentPhase,
    /// The model step in progress.
    pub step: usize,
    /// The tool call in progress within the step.
    pub call: usize,
    pub messages: Vec<JsonValue>,
    /// The tool calls of the current model response.
    pub tool_calls: Vec<JsonValue>,
    /// The value the tool call in progress returned.
    pub pending_value: JsonValue,
    /// `{name, args}` of every tool invoked.
    pub tool_log: Vec<JsonValue>,
    pub final_output: JsonValue,
    pub completed: bool,
}

/// View of the reference agent.
pub struct AgentView {
    pub scenario: JView,
    pub phase: AgentPhase,
    pub step: nat,
    pub call: nat,
    pub messages: Seq<JView>,
    pub tool_calls: Seq<JView>,
    pub pending_value: JView,
    pub tool_log: Seq<JView>,
    pub final_output: JView,
    pub completed: bool,
}

impl View for ReferenceAgent {
    type V = AgentView;

    open spec fn view(&self) -> AgentView {
        AgentView {
            scenario: self.scenario@,
            phase: self.phase,
            step: self.step as nat,
            call: self.call as nat,
            messages: jv_seq(self.messages@),
            tool_calls: jv_seq(self.tool_calls@),
            pending_value: self.pending_value@,
            tool_log: jv_seq(self.tool_log@),
            final_output: self.final_output@,
            completed: self.completed,
        }
    }
}

/// The agent's step and call indices are in range for the phase.
pub open spec fn agent_wf(s: AgentView) -> bool {
    &&& (s.phase is PreModelCall || s.phase is PostModelCall || s.phase is PreToolCall || s.phase is PostToolCall)
        ==> s.step < model_steps(s.scenario).len()
    &&& (s.phase is PreToolCall || s.phase is PostToolCall) ==> s.call < s.tool_calls.len()
}

/// The run ends.
pub open spec fn finished(s: AgentView, completed: bool, out: JView) -> (AgentView, RequestView) {
    (
        AgentView { phase: AgentPhase::Finished, final_output: out, completed: completed, ..s },
        RequestView::Finished(completed, out),
    )
}

/// After the model loop: the output emission when there is a final output.
pub open spec fn after_model_loop(s: AgentView) -> (AgentView, RequestView) {
    if s.final_output == JView::Null {
        finished(s, true, JView::Null)
    } else {
        (AgentView { phase: AgentPhase::Output, ..s }, RequestView::Output(s.final_output))
    }
}

/// Model step `k`, or the end of the model loop.
pub open spec fn model_step(s: AgentView, k: nat) -> (AgentView, RequestView) {
    if k < model_steps(s.scenario).len() {
        (AgentView { phase: AgentPhase::PreModelCall, step: k, ..s }, RequestView::PreModelCall(s.messages))
    } else {
        after_model_loop(s)
    }
}

/// Tool call `j` of the current response, or, after the last, the
/// assistant's message and the next model step.
pub open spec fn tool_step(s: AgentView, j: nat) -> (AgentView, RequestView) {
    if j < s.tool_calls.len() {
        let tc = s.tool_calls[j as int];
        (
            AgentView { phase: AgentPhase::PreToolCall, call: j, ..s },
            RequestView::PreToolCall(
                crate::ctk_engine::str_or_empty(tc, "id"@),
                crate::ctk_engine::str_or_empty(tc, "name"@),
                index_or_null(tc, "args"@),
            ),
        )
    } else {
        let resp = respond(s.scenario, s.step as int);
        model_step(
            AgentView { messages: s.messages.push(message("assistant"@, assistant_content(resp))), ..s },
            s.step + 1,
        )
    }
}

/// The agent's next state and request once the emission it asked for
/// completed: `proceeds` tells whether the action may go on, `ctx` is the
/// context after composition (transforms applied), and `reason` the
/// combined verdict's reason. A blocked emission ends the run, except for
/// a tool call, which is recorded as blocked while the agent goes on.
pub open spec fn spec_on_emitted(s: AgentView, proceeds: bool, ctx: Entries, reason: Option<Seq<char>>) -> (AgentView, RequestView) {
    let sc = s.scenario;
    let c = JView::Object(ctx);
    match s.phase {
        AgentPhase::Startup => if !proceeds {
            finished(s, false, JView::Null)
        } else {
            (AgentView { phase: AgentPhase::Input, ..s }, RequestView::Input(input_content(sc), input_role(sc)))
        },
        AgentPhase::Input => if !proceeds {
            finished(s, false, JView::Null)
        } else {
            model_step(AgentView { messages: seq![message(input_role(sc), input_content(sc))], ..s }, 0)
        },
        AgentPhase::PreModelCall => if !proceeds {
            finished(s, false, JView::Null)
        } else {
            let msgs = match member(c, "messages"@) {
                Some(JView::Array(a)) => a,
                _ => s.messages,
            };
            let resp = respond(sc, s.step as int);
            let tcs = items_or_empty(index_or_null(resp, "tool_calls"@));
            (
                AgentView { phase: AgentPhase::PostModelCall, messages: msgs, tool_calls: tcs, ..s },
                RequestView::PostModelCall(index_or_null(resp, "content"@), tcs, crate::ctk_engine::str_or_empty(resp, "finish_reason"@)),
            )
        },
        AgentPhase::PostModelCall => if !proceeds {
            finished(s, false, JView::Null)
        } else if s.tool_calls.len() == 0 {
            after_model_loop(AgentView { final_output: index_or_null(respond(sc, s.step as int), "content"@), ..s })
        } else {
            tool_step(s, 0)
        },
        AgentPhase::PreToolCall => if !proceeds {
            tool_step(AgentView { messages: s.messages.push(blocked_message(reason)), ..s }, s.call + 1)
        } else {
            let tc = s.tool_calls[s.call as int];
            let id = crate::ctk_engine::str_or_empty(tc, "id"@);
            let name = crate::ctk_engine::str_or_empty(tc, "name"@);
            let args = index_or_null(index_or_null(c, "tool_call"@), "args"@);
            match spec_invoke_tool(sc, name, args) {
                None => (AgentView { phase: AgentPhase::Finished, ..s }, RequestView::ToolUnavailable(name, args)),
                Some(out) => (
                    AgentView {
                        phase: AgentPhase::PostToolCall,
                        pending_value: out.0,
                        tool_log: s.tool_log.push(log_entry(name, args)),
                        ..s
                    },
                    RequestView::PostToolCall(id, name, args, out.0, out.1),
                ),
            }
        },
        AgentPhase::PostToolCall => {
            let m = if !proceeds {
                blocked_message(reason)
            } else {
                message("tool"@, s.pending_value)
            };
            tool_step(AgentView { messages: s.messages.push(m), ..s }, s.call + 1)
        },
        AgentPhase::Output => if !proceeds {
            finished(s, false, JView::Null)
        } else {
            finished(s, true, index_or_null(index_or_null(c, "output"@), "content"@))
        },
        AgentPhase::Finished => (s, RequestView::Finished(s.completed, s.final_output)),
    }
}

fn string_value(s: &str) -> (r: JsonValue)
    ensures
        r@ == JView::Str(s@),
{
    JsonValue::String(to_owned(s))
}

fn message_value(role: &str, content: JsonValue) -> (r: JsonValue)
    ensures
        r@ == message(role@, content@),
{
    let mut e: Vec<(String, JsonValue)> = Vec::new();
    e.push((to_owned("role"), string_value(role)));
    e.push((to_owned("content"), content));
    let r = JsonValue::Object(JsonMap { entries: e });
    assert(crate::json::jv_entries(e@) =~= seq![("role"@, JView::Str(role@)), ("content"@, content@)]);
    r
}

fn log_entry_value(name: &str, args: JsonValue) -> (r: JsonValue)
    ensures
        r@ == log_entry(name@, args@),
{
    let mut e: Vec<(String, JsonValue)> = Vec::new();
    e.push((to_owned("name"), string_value(name)));
    e.push((to_owned("args"), args));
    let r = JsonValue::Object(JsonMap { entries: e });
    assert(crate::json::jv_entries(e@) =~= seq![("name"@, JView::Str(name@)), ("args"@, args@)]);
    r
}

fn blocked_message_value(reason: &Option<String>) -> (r: JsonValue)
    ensures
        r@ == blocked_message(crate::types::opt_str_view(*reason)),
{
    let mut text = to_owned("blocked: ");
    match reason {
        Some(x) => crate::text::push_str(&mut text, x.as_str()),
        None => {},
    }
    proof {
        reveal_strlit("blocked: ");
        match reason {
            Some(x) => {},
            None => { assert(text@ =~= "blocked: "@ + Seq::<char>::empty()); },
        }
    }
    message_value("tool", JsonValue::String(text))
}

fn values_clone(v: &Vec<JsonValue>) -> (r: Vec<JsonValue>)
    ensures
        jv_seq(r@) == jv_seq(v@),
{
    let mut out: Vec<JsonValue> = Vec::new();
    let n = v.len();
    for i in 0..n
        invariant
            n == v@.len(),
            jv_seq(out@) == jv_seq(v@).take(i as int),
    {
        out.push(v[i].clone());
        assert(jv_seq(out@) =~= jv_seq(v@).take(i + 1));
    }
    assert(jv_seq(v@).take(n as int) =~= jv_seq(v@));
    out
}

fn names_clone(tools: &[JsonValue]) -> (r: Vec<String>)
    ensures
        texts(r@) == names_of(jv_seq(tools@)),
{
    let ghost tv = jv_seq(tools@);
    let mut out: Vec<String> = Vec::new();
    let n = tools.len();
    for i in 0..n
        invariant
            n == tools@.len(),
            tv == jv_seq(tools@),
            texts(out@) == names_of(tv.take(i as int)),
    {
        assert(tv.take(i + 1).drop_last() =~= tv.take(i as int));
        assert(tv[i as int] == tools@[i as int]@);
        let ghost before = out@;
        match tools[i].get("name") {
            Some(JsonValue::String(s)) => {
                out.push(s.clone());
                assert(texts(out@) =~= texts(before).push(s@));
            },
            _ => {},
        }
    }
    assert(tv.take(n as int) =~= tv);
    out
}

impl ReferenceAgent {
    /// A reference agent about to run `scenario`.
    pub fn new(scenario: JsonValue) -> (r: Self)
        ensures
            r@.scenario == scenario@,
            r.phase == AgentPhase::Startup,
            r@.messages.len() == 0,
            r@.tool_log.len() == 0,
            r@.final_output == JView::Null,
            agent_wf(r@),
    {
        ReferenceAgent {
            scenario,
            phase: AgentPhase::Startup,
            step: 0,
            call: 0,
            messages: Vec::new(),
            tool_calls: Vec::new(),
            pending_value: JsonValue::Null,
            tool_log: Vec::new(),
            final_output: JsonValue::Null,
            completed: false,
        }
    }

    /// The first request: the startup emission with the scenario's tool
    /// names in ascending order.
    pub fn startup_request(&self) -> (r: AgentRequest)
        ensures
            r@ matches RequestView::Startup(names) && names.to_multiset() == names_of(scenario_tools(self@.scenario)).to_multiset()
                && sorted_texts(names),
    {
        let tools = array_items(self.scenario.get("tools"));
        let mut names = names_clone(tools);
        sort_strings(&mut names);
        AgentRequest::Startup { tools: names }
    }

    fn finish(&mut self, completed: bool, out: JsonValue) -> (r: AgentRequest)
        ensures
            (final(self)@, r@) == finished(old(self)@, completed, out@),
    {
        self.phase = AgentPhase::Finished;
        self.completed = completed;
        self.final_output = out.clone();
        AgentRequest::Finished { completed, final_output: out }
    }

    fn after_model_loop(&mut self) -> (r: AgentRequest)
        ensures
            (final(self)@, r@) == after_model_loop(old(self)@),
    {
        if self.final_output.is_null() {
            self.finish(true, JsonValue::Null)
        } else {
            self.phase = AgentPhase::Output;
            AgentRequest::Output { content: self.final_output.clone() }
        }
    }

    fn model_step(&mut self, k: usize) -> (r: AgentRequest)
        ensures
            (final(self)@, r@) == model_step(old(self)@, k as nat),
    {
        let steps = array_items(self.scenario.get("model_script"));
        if k < steps.len() {
            self.phase = AgentPhase::PreModelCall;
            self.step = k;
            AgentRequest::PreModelCall { messages: values_clone(&self.messages) }
        } else {
            self.after_model_loop()
        }
    }

    fn tool_step(&mut self, j: usize) -> (r: AgentRequest)
        requires
            old(self).step < model_steps(old(self)@.scenario).len(),
        ensures
            (final(self)@, r@) == tool_step(old(self)@, j as nat),
    {
        if j < self.tool_calls.len() {
            let tc = &self.tool_calls[j];
            let id = crate::ctk_engine::str_member_or_empty(tc, "id");
            let name = crate::ctk_engine::str_member_or_empty(tc, "name");
            let args = index_or_null_clone(tc, "args");
            self.phase = AgentPhase::PreToolCall;
            self.call = j;
            AgentRequest::PreToolCall { id, name, args }
        } else {
            let steps = array_items(self.scenario.get("model_script"));
            let ghost sv = jv_seq(steps@);
            assert(sv[self.step as int] == steps@[self.step as int]@);
            let resp = index_or_null_clone(&steps[self.step], "respond");
            let content = index_or_null_clone(&resp, "content");
            let content = if content.is_null() {
                string_value("")
            } else {
                content
            };
            proof {
                reveal_strlit("");
                assert(""@ =~= Seq::<char>::empty());
            }
            let m = message_value("assistant", content);
            let ghost before = jv_seq(self.messages@);
            self.messages.push(m);
            assert(jv_seq(self.messages@) =~= before.push(m@));
            self.model_step(self.step + 1)
        }
    }

    /// Report the emission the agent asked for: whether it proceeds, the
    /// context after composition, and the combined verdict's reason.
    pub fn on_emitted(&mut self, proceeds: bool, ctx: &JsonMap, reason: Option<String>) -> (r: AgentRequest)
        requires
            agent_wf(old(self)@),
        ensures
            (final(self)@, r@) == spec_on_emitted(old(self)@, proceeds, ctx@, crate::types::opt_str_view(reason)),
            agent_wf(final(self)@),
    {
        match self.phase {
            AgentPhase::Startup => {
                if !proceeds {
                    return self.finish(false, JsonValue::Null);
                }
                self.phase = AgentPhase::Input;
                let input = index_or_null_clone(&self.scenario, "input");
                let content = index_or_null_clone(&input, "content");
                let role = match input.get("role") {
                    Some(JsonValue::String(r)) => r.clone(),
                    _ => to_owned("user"),
                };
                AgentRequest::Input { content, role }
            },
            AgentPhase::Input => {
                if !proceeds {
                    return self.finish(false, JsonValue::Null);
                }
                let input = index_or_null_clone(&self.scenario, "input");
                let content = index_or_null_clone(&input, "content");
                let role = match input.get("role") {
                    Some(JsonValue::String(r)) => r.clone(),
                    _ => to_owned("user"),
                };
                let m = message_value(role.as_str(), content);
                let mut msgs: Vec<JsonValue> = Vec::new();
                msgs.push(m);
                assert(jv_seq(msgs@) =~= seq![m@]);
                self.messages = msgs;
                self.model_step(0)
            },
            AgentPhase::PreModelCall => {
                if !proceeds {
                    return self.finish(false, JsonValue::Null);
                }
                match ctx.get("messages") {
                    Some(JsonValue::Array(a)) => {
                        self.messages = values_clone(a);
                    },
                    _ => {},
                }
                let steps = array_items(self.scenario.get("model_script"));
                let ghost sv = jv_seq(steps@);
                assert(sv[self.step as int] == steps@[self.step as int]@);
                let resp = index_or_null_clone(&steps[self.step], "respond");
                let tcs = match resp.get("tool_calls") {
                    Some(v) => items_clone(v),
                    None => {
                        let e: Vec<JsonValue> = Vec::new();
                        assert(jv_seq(e@) =~= Seq::<JView>::empty());
                        e
                    },
                };
                self.tool_calls = values_clone(&tcs);
                self.phase = AgentPhase::PostModelCall;
                AgentRequest::PostModelCall {
                    content: index_or_null_clone(&resp, "content"),
                    tool_calls: tcs,
                    finish_reason: crate::ctk_engine::str_member_or_empty(&resp, "finish_reason"),
                }
            },
            AgentPhase::PostModelCall => {
                if !proceeds {
                    return self.finish(false, JsonValue::Null);
                }
                if self.tool_calls.len() == 0 {
                    let steps = array_items(self.scenario.get("model_script"));
                    let ghost sv = jv_seq(steps@);
                    assert(sv[self.step as int] == steps@[self.step as int]@);
                    let resp = index_or_null_clone(&steps[self.step], "respond");
                    self.final_output = index_or_null_clone(&resp, "content");
                    self.after_model_loop()
                } else {
                    self.tool_step(0)
                }
            },
            AgentPhase::PreToolCall => {
                if !proceeds {
                    let m = blocked_message_value(&reason);
                    let ghost before = jv_seq(self.messages@);
                    self.messages.push(m);
                    assert(jv_seq(self.messages@) =~= before.push(m@));
                    let ncalls = self.tool_calls.len();
                    assert(jv_seq(self.tool_calls@).len() == ncalls);
                    return self.tool_step(self.call + 1);
                }
                let ghost tcv = jv_seq(self.tool_calls@);
                assert(tcv[self.call as int] == self.tool_calls@[self.call as int]@);
                let id = crate::ctk_engine::str_member_or_empty(&self.tool_calls[self.call], "id");
                let name = crate::ctk_engine::str_member_or_empty(&self.tool_calls[self.call], "name");
                let args = match ctx.get("tool_call") {
                    Some(tc) => index_or_null_clone(tc, "args"),
                    None => JsonValue::Null,
                };
                match invoke_tool(&self.scenario, name.as_str(), &args) {
                    None => {
                        self.phase = AgentPhase::Finished;
                        AgentRequest::ToolUnavailable { name, args }
                    },
                    Some((value, is_error)) => {
                        let entry = log_entry_value(name.as_str(), args.clone());
                        let ghost before = jv_seq(self.tool_log@);
                        self.tool_log.push(entry);
                        assert(jv_seq(self.tool_log@) =~= before.push(entry@));
                        self.pending_value = value.clone();
                        self.phase = AgentPhase::PostToolCall;
                        AgentRequest::PostToolCall { id, name, args, value, is_error }
                    },
                }
            },
            AgentPhase::PostToolCall => {
                let m = if !proceeds {
                    blocked_message_value(&reason)
                } else {
                    message_value("tool", self.pending_value.clone())
                };
                let ghost before = jv_seq(self.messages@);
                self.messages.push(m);
                assert(jv_seq(self.messages@) =~= before.push(m@));
                let ncalls = self.tool_calls.len();
                assert(jv_seq(self.tool_calls@).len() == ncalls);
                self.tool_step(self.call + 1)
            },
            AgentPhase::Output => {
                if !proceeds {
                    return self.finish(false, JsonValue::Null);
                }
                let out = match ctx.get("output") {
                    Some(o) => index_or_null_clone(o, "content"),
                    None => JsonValue::Null,
                };
                self.finish(true, out)
            },
            AgentPhase::Finished => AgentRequest::Finished {
                completed: self.completed,
                final_output: self.final_output.clone(),
            },
        }
    }
}

// ---- the run record ---------------------------------------------------------------------------

/// The identity pairs of a run's records, one per record in order.
pub fn identity_pairs(records: &Vec<crate::types::InterceptionRecord>) -> (r: Vec<crate::ctk_engine::IdentityPair>)
    ensures
        r@.len() == records@.len(),
        forall|i: int| 0 <= i < records@.len() ==> {
            &&& (#[trigger] r@[i]).input_identity == records@[i].input_identity
            &&& r@[i].enforced_identity == records@[i].enforced_identity
        },
{
    let mut out: Vec<crate::ctk_engine::IdentityPair> = Vec::new();
    let n = records.len();
    for i in 0..n
        invariant
            n == records@.len(),
            out@.len() == i,
            forall|k: int| 0 <= k < i ==> {
                &&& (#[trigger] out@[k]).input_identity == records@[k].input_identity
                &&& out@[k].enforced_identity == records@[k].enforced_identity
            },
    {
        out.push(crate::ctk_engine::IdentityPair {
            input_identity: crate::types::opt_string_clone(&records[i].input_identity),
            enforced_identity: crate::types::opt_string_clone(&records[i].enforced_identity),
        });
    }
    out
}

} // verus!
