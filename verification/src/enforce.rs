//! Stateless enforcement: applying a transform to a context, the
//! payload-free projection of a verdict, and the record of a completed
//! emission.
use vstd::prelude::*;
use crate::canonical::{
    context_identity, identity_domain, identity_error, spec_identity, spec_validate_envelope,
    validate_envelope,
};
use crate::composition::{spec_with_knob_defaults, CompositionConfig};
use crate::json::{
    group_json_view, lemma_map_insert, map_get, map_insert, member, view_i64, view_str, Entries,
    JView, JsonMap, JsonValue,
};
use crate::path::{spec_apply, spec_resolve};
use crate::text::{push_char, to_owned};
use crate::types::{
    host_error_view, ip_from_name, opt_str_view, spec_permits, spec_transform_permitted, Decision,
    EnforcementMode, HostError, InterceptionPoint, InterceptionRecord, TraceContext, Transform,
    TransformView, Verdict, VerdictSummary, VerdictView, Warning, WarningView, JCS_SHA256,
};

verus! {

broadcast use group_json_view;

// ---- transforms ---------------------------------------------------------------

/// The interception point a context names.
pub open spec fn spec_ip_of(ctx: Entries) -> Result<InterceptionPoint, HostError> {
    match view_str(map_get(ctx, "interception_point"@)) {
        Some(s) => match ip_from_name(s) {
            Some(ip) => Ok(ip),
            None => Err(HostError::ContextInvalid),
        },
        None => Err(HostError::ContextInvalid),
    }
}

fn interception_point_of(ctx: &JsonMap) -> (r: Result<InterceptionPoint, HostError>)
    ensures
        r == spec_ip_of(ctx@),
{
    match ctx.get("interception_point") {
        Some(JsonValue::String(s)) => InterceptionPoint::from_name(s.as_str()),
        _ => Err(HostError::ContextInvalid),
    }
}

/// Sets member `key` of the object member `field` of `ctx` to `t`, when
/// `field` is an object; otherwise `ctx` unchanged.
pub open spec fn set_nested(ctx: Entries, field: Seq<char>, key: Seq<char>, t: JView) -> Entries {
    match map_get(ctx, field) {
        Some(JView::Object(es)) => map_insert(ctx, field, JView::Object(map_insert(es, key, t))),
        _ => ctx,
    }
}

/// Mirrors the transformed target into the conditional field it aliases.
pub open spec fn spec_write_back(ip: InterceptionPoint, ctx: Entries, t: JView) -> Entries {
    match ip {
        InterceptionPoint::Input => map_insert(ctx, "input"@, t),
        InterceptionPoint::PreModelCall => map_insert(ctx, "messages"@, t),
        InterceptionPoint::PostModelCall => map_insert(ctx, "response"@, t),
        InterceptionPoint::PreToolCall => set_nested(ctx, "tool_call"@, "args"@, t),
        InterceptionPoint::PostToolCall => set_nested(ctx, "tool_result"@, "value"@, t),
        InterceptionPoint::Output => map_insert(ctx, "output"@, t),
        _ => ctx,
    }
}

/// The context's target (`null` when absent).
pub open spec fn target_of(ctx: Entries) -> JView {
    match map_get(ctx, "target"@) {
        Some(t) => t,
        None => JView::Null,
    }
}

/// The context after applying `t` to its target and mirroring the result
/// into the aliased conditional field; the failure when the point forbids
/// transforms or the path does not resolve.
pub open spec fn spec_apply_transform(ctx: Entries, t: TransformView) -> Result<Entries, HostError> {
    match spec_ip_of(ctx) {
        Err(e) => Err(e),
        Ok(ip) => if !spec_transform_permitted(ip) {
            Err(HostError::TransformTargetForbidden)
        } else {
            match spec_apply(target_of(ctx), t.path, t.value) {
                Err(e) => Err(e),
                Ok(applied) => Ok(spec_write_back(ip, map_insert(ctx, "target"@, applied), applied)),
            }
        },
    }
}

/// Whether `t` would apply to the context, without applying it.
pub open spec fn spec_validate_transform(ctx: Entries, t: TransformView) -> Result<(), HostError> {
    match spec_ip_of(ctx) {
        Err(e) => Err(e),
        Ok(ip) => if !spec_transform_permitted(ip) {
            Err(HostError::TransformTargetForbidden)
        } else {
            match spec_apply(target_of(ctx), t.path, t.value) {
                Err(e) => Err(e),
                Ok(_) => Ok(()),
            }
        },
    }
}

fn set_nested_member(ctx: &mut JsonMap, field: &str, key: &str, t: &JsonValue)
    ensures
        final(ctx)@ == set_nested(old(ctx)@, field@, key@, t@),
{
    let sub: Option<JsonMap> = match ctx.get(field) {
        Some(JsonValue::Object(m)) => Some(m.copy()),
        _ => None,
    };
    match sub {
        Some(mut m) => {
            m.insert(to_owned(key), t.clone());
            ctx.insert(to_owned(field), JsonValue::Object(m));
        },
        None => {},
    }
}

fn write_back_target(ip: InterceptionPoint, ctx: &mut JsonMap, transformed: &JsonValue)
    ensures
        final(ctx)@ == spec_write_back(ip, old(ctx)@, transformed@),
{
    match ip {
        InterceptionPoint::Input => ctx.insert(to_owned("input"), transformed.clone()),
        InterceptionPoint::PreModelCall => ctx.insert(to_owned("messages"), transformed.clone()),
        InterceptionPoint::PostModelCall => ctx.insert(to_owned("response"), transformed.clone()),
        InterceptionPoint::PreToolCall => set_nested_member(ctx, "tool_call", "args", transformed),
        InterceptionPoint::PostToolCall => set_nested_member(ctx, "tool_result", "value", transformed),
        InterceptionPoint::Output => ctx.insert(to_owned("output"), transformed.clone()),
        InterceptionPoint::AgentStartup | InterceptionPoint::AgentShutdown => {},
    }
}

fn target_clone(ctx: &JsonMap) -> (r: JsonValue)
    ensures
        r@ == target_of(ctx@),
{
    match ctx.get("target") {
        Some(t) => t.clone(),
        None => JsonValue::Null,
    }
}

/// Apply one transform to the context's `target` and mirror it into the
/// conditional field it aliases. Fails closed, leaving the context as it
/// was, on a context without a valid interception point
/// (`ContextInvalid`), a point that forbids transforms
/// (`TransformTargetForbidden`), or a path that does not resolve.
pub fn apply_transform_to_ctx(ctx: &mut JsonMap, transform: &Transform) -> (r: Result<(), HostError>)
    ensures
        match spec_apply_transform(old(ctx)@, transform@) {
            Ok(c) => r is Ok && final(ctx)@ == c,
            Err(e) => r == Err::<(), HostError>(e) && final(ctx)@ == old(ctx)@,
        },
{
    let ip = interception_point_of(ctx)?;
    if !ip.transform_permitted() {
        return Err(HostError::TransformTargetForbidden);
    }
    let target = target_clone(ctx);
    let applied = crate::path::apply(target, transform.path.as_str(), transform.value.clone())?;
    ctx.insert(to_owned("target"), applied.clone());
    write_back_target(ip, ctx, &applied);
    Ok(())
}

/// `evaluate_only`: validate a transform against the current target
/// without applying it.
pub fn validate_transform(ctx: &JsonMap, transform: &Transform) -> (r: Result<(), HostError>)
    ensures
        r == spec_validate_transform(ctx@, transform@),
{
    let ip = interception_point_of(ctx)?;
    if !ip.transform_permitted() {
        return Err(HostError::TransformTargetForbidden);
    }
    let target = target_clone(ctx);
    match crate::path::apply(target, transform.path.as_str(), transform.value.clone()) {
        Ok(_) => Ok(()),
        Err(e) => Err(e),
    }
}

/// Validating a transform accepts exactly what applying it accepts, and
/// refuses with the same failure.
pub proof fn law_validate_matches_apply(ctx: Entries, t: TransformView)
    ensures
        spec_validate_transform(ctx, t) == (match spec_apply_transform(ctx, t) {
            Ok(_) => Ok::<(), HostError>(()),
            Err(e) => Err(e),
        }),
{
}

/// After a transform applies, the target holds the value at the path, and
/// the conditional field the point aliases mirrors the whole target.
pub proof fn law_transform_applies_and_mirrors(ctx: Entries, t: TransformView)
    requires
        spec_apply_transform(ctx, t) is Ok,
    ensures
        ({
            let c = spec_apply_transform(ctx, t)->Ok_0;
            let ip = spec_ip_of(ctx)->Ok_0;
            &&& map_get(c, "target"@) matches Some(nt) && spec_resolve(nt, t.path) == Ok::<JView, HostError>(t.value)
            &&& ip is Input ==> map_get(c, "input"@) == map_get(c, "target"@)
            &&& ip is PreModelCall ==> map_get(c, "messages"@) == map_get(c, "target"@)
            &&& ip is PostModelCall ==> map_get(c, "response"@) == map_get(c, "target"@)
            &&& ip is Output ==> map_get(c, "output"@) == map_get(c, "target"@)
            &&& (ip is PreToolCall && map_get(ctx, "tool_call"@) matches Some(JView::Object(_)))
                ==> member(map_get(c, "tool_call"@)->Some_0, "args"@) == map_get(c, "target"@)
            &&& (ip is PostToolCall && map_get(ctx, "tool_result"@) matches Some(JView::Object(_)))
                ==> member(map_get(c, "tool_result"@)->Some_0, "value"@) == map_get(c, "target"@)
        }),
{
    let ip = spec_ip_of(ctx)->Ok_0;
    let applied = spec_apply(target_of(ctx), t.path, t.value)->Ok_0;
    crate::path::law_apply_then_resolve(target_of(ctx), t.path, t.value);
    let c1 = map_insert(ctx, "target"@, applied);
    reveal_strlit("target");
    reveal_strlit("input");
    reveal_strlit("messages");
    reveal_strlit("response");
    reveal_strlit("output");
    reveal_strlit("tool_call");
    reveal_strlit("tool_result");
    reveal_strlit("args");
    reveal_strlit("value");
    lemma_map_insert(ctx, "target"@, applied, "tool_call"@);
    lemma_map_insert(ctx, "target"@, applied, "tool_result"@);
    lemma_map_insert(ctx, "target"@, applied, "target"@);
    assert(map_get(c1, "target"@) == Some(applied));
    let c = spec_write_back(ip, c1, applied);
    assert(spec_apply_transform(ctx, t) == Ok::<Entries, HostError>(c));
    match ip {
        InterceptionPoint::Input => {
            lemma_map_insert(c1, "input"@, applied, "target"@);
            assert(map_get(c, "target"@) == Some(applied));
        },
        InterceptionPoint::PreModelCall => {
            lemma_map_insert(c1, "messages"@, applied, "target"@);
            assert(map_get(c, "target"@) == Some(applied));
        },
        InterceptionPoint::PostModelCall => {
            lemma_map_insert(c1, "response"@, applied, "target"@);
            assert(map_get(c, "target"@) == Some(applied));
        },
        InterceptionPoint::Output => {
            lemma_map_insert(c1, "output"@, applied, "target"@);
            assert(map_get(c, "target"@) == Some(applied));
        },
        InterceptionPoint::PreToolCall => {
            if let Some(JView::Object(es)) = map_get(c1, "tool_call"@) {
                lemma_map_insert(c1, "tool_call"@, JView::Object(map_insert(es, "args"@, applied)), "target"@);
                lemma_map_insert(es, "args"@, applied, "args"@);
                assert(c == map_insert(c1, "tool_call"@, JView::Object(map_insert(es, "args"@, applied))));
                assert("target"@.len() != "tool_call"@.len());
                assert(map_get(c, "target"@) == Some(applied));
            }
        },
        InterceptionPoint::PostToolCall => {
            if let Some(JView::Object(es)) = map_get(c1, "tool_result"@) {
                lemma_map_insert(c1, "tool_result"@, JView::Object(map_insert(es, "value"@, applied)), "target"@);
                lemma_map_insert(es, "value"@, applied, "value"@);
                assert("target"@.len() != "tool_result"@.len());
                assert(map_get(c, "target"@) == Some(applied));
            }
        },
        _ => {},
    }
    assert(map_get(c, "target"@) == Some(applied));
}


// ---- payload-free projection ----------------------------------------------------------

/// The largest character boundary of `b` at or below `k`.
pub open spec fn boundary_below(b: Seq<u8>, k: int) -> int
    decreases k,
{
    if k <= 0 {
        0
    } else if vstd::utf8::is_char_boundary(b, k) {
        k
    } else {
        boundary_below(b, k - 1)
    }
}

/// The longest byte budget of a projected message.
pub const MAX_MESSAGE_BYTES: usize = 256;

/// `s` when its UTF-8 encoding fits in 256 bytes; otherwise its longest
/// prefix that does, cut on a character boundary, followed by `…`.
pub open spec fn spec_truncate(s: Seq<char>) -> Seq<char> {
    let b = vstd::utf8::encode_utf8(s);
    if b.len() <= MAX_MESSAGE_BYTES {
        s
    } else {
        vstd::utf8::decode_utf8(b.subrange(0, boundary_below(b, MAX_MESSAGE_BYTES as int))) + seq!['…']
    }
}

/// Truncate to at most 256 UTF-8 bytes on a character boundary, appending
/// `…` when truncated.
pub fn truncate_message(s: &str) -> (r: String)
    ensures
        r@ == spec_truncate(s@),
{
    broadcast use vstd::utf8::group_utf8_lib;

    if s.as_bytes().len() <= MAX_MESSAGE_BYTES {
        return to_owned(s);
    }
    let ghost b = vstd::utf8::encode_utf8(s@);
    assert(vstd::utf8::is_char_boundary(b, 0));
    let mut end: usize = MAX_MESSAGE_BYTES;
    while !s.is_char_boundary(end)
        invariant
            b == vstd::utf8::encode_utf8(s@),
            b.len() > MAX_MESSAGE_BYTES,
            end <= MAX_MESSAGE_BYTES,
            vstd::utf8::is_char_boundary(b, 0),
            boundary_below(b, MAX_MESSAGE_BYTES as int) == boundary_below(b, end as int),
        decreases end,
    {
        end = end - 1;
    }
    let (head, _) = s.split_at(end);
    assert(vstd::utf8::encode_utf8(head@) == b.subrange(0, end as int));
    let mut out = to_owned(head);
    push_char(&mut out, '…');
    out
}

/// The projection of a message, when present.
pub open spec fn truncate_opt(m: Option<Seq<char>>) -> Option<Seq<char>> {
    match m {
        Some(s) => Some(spec_truncate(s)),
        None => None,
    }
}

/// A warning with its message truncated.
pub open spec fn project_warning(w: WarningView) -> WarningView {
    WarningView { reason: w.reason, message: truncate_opt(w.message) }
}

/// Payload-free projection: the transform keeps its path
/// with a `null` value, `approval` becomes an empty block, and free-form
/// messages are truncated; everything else passes through.
pub open spec fn spec_projection(v: VerdictView) -> VerdictView {
    VerdictView {
        decision: v.decision,
        reason: v.reason,
        message: truncate_opt(v.message),
        warnings: v.warnings.map_values(|w: WarningView| project_warning(w)),
        approval: match v.approval {
            Some(_) => Some(Seq::empty()),
            None => None,
        },
        transform: match v.transform {
            Some(t) => Some(TransformView { path: t.path, value: JView::Null }),
            None => None,
        },
        evidence: v.evidence,
        result_labels: v.result_labels,
    }
}

fn truncate_opt_exec(m: &Option<String>) -> (r: Option<String>)
    ensures
        opt_str_view(r) == truncate_opt(opt_str_view(*m)),
{
    match m {
        Some(s) => Some(truncate_message(s.as_str())),
        None => None,
    }
}

/// Project a combined verdict payload-free: drops
/// `transform.value`, strips `approval` members, and truncates free-form
/// messages.
pub fn payload_free_projection(v: &Verdict) -> (r: Verdict)
    ensures
        r@ == spec_projection(v@),
{
    let mut warnings: Vec<Warning> = Vec::new();
    let n = v.warnings.len();
    for i in 0..n
        invariant
            n == v.warnings@.len(),
            crate::types::warnings_view(warnings@) == v@.warnings.take(i as int).map_values(
                |w: WarningView| project_warning(w),
            ),
    {
        let w = Warning {
            reason: crate::types::opt_string_clone(&v.warnings[i].reason),
            message: truncate_opt_exec(&v.warnings[i].message),
        };
        let ghost before = warnings@;
        warnings.push(w);
        proof {
            assert(v@.warnings[i as int] == v.warnings@[i as int]@);
            assert(warnings@.drop_last() == before);
            assert(crate::types::warnings_view(warnings@).drop_last() =~= crate::types::warnings_view(before));
            assert(crate::types::warnings_view(warnings@)[i as int] == project_warning(v@.warnings[i as int]));
            let f = |w: WarningView| project_warning(w);
            assert forall|j: int| 0 <= j < i + 1 implies #[trigger] crate::types::warnings_view(warnings@)[j] == v@.warnings.take(i + 1).map_values(f)[j] by {
                if j < i {
                    assert(crate::types::warnings_view(warnings@)[j] == crate::types::warnings_view(before)[j]);
                    assert(crate::types::warnings_view(before)[j] == v@.warnings.take(i as int).map_values(f)[j]);
                }
            }
            assert(crate::types::warnings_view(warnings@) =~= v@.warnings.take(i + 1).map_values(
                |w: WarningView| project_warning(w),
            ));
        }
    }
    assert(v@.warnings.take(n as int) =~= v@.warnings);
    let r = Verdict {
        decision: v.decision,
        reason: crate::types::opt_string_clone(&v.reason),
        message: truncate_opt_exec(&v.message),
        warnings,
        approval: match &v.approval {
            Some(_) => Some(JsonMap::new()),
            None => None,
        },
        transform: match &v.transform {
            Some(t) => Some(Transform { path: t.path.clone(), value: JsonValue::Null }),
            None => None,
        },
        evidence: match &v.evidence {
            Some(e) => Some(e.clone()),
            None => None,
        },
        result_labels: crate::types::strings_clone(&v.result_labels),
    };
    r
}


// ---- the record ------------------------------------------------------------------------

/// Everything [`finalize`] needs beyond the context and the combined
/// verdict.
#[derive(Debug)]
pub struct FinalizeMeta {
    /// Provider output computed before dispatch; `None` when no provider is
    /// declared or it rejected the context.
    pub input_identity: Option<String>,
    /// The declared provider name. For `jcs-sha256`, [`finalize`] computes
    /// the enforced identity from the post-composition context itself; a
    /// custom provider's host passes `enforced_identity`.
    pub identity_provider: Option<String>,
    /// Pre-computed post-composition identity for custom providers.
    pub enforced_identity: Option<String>,
    /// The raw-text scan rejected the context at a JSON funnel: the parsed
    /// context then holds already-coerced numbers, so no identity is
    /// computed from it.
    pub jcs_input_rejected: bool,
    /// No transform was applied since `input_identity` was computed, so
    /// the `jcs-sha256` arm reuses it.
    pub unchanged_since_input: bool,
    pub decided_by: Option<u32>,
    pub composition: CompositionConfig,
    /// Per-interceptor summaries (multi-verdict profiles).
    pub verdicts: Vec<VerdictSummary>,
    /// Sequential profiles.
    pub fold_truncated: Option<bool>,
    /// Consultation outcome: `"approval"` / `"rejection"` / none.
    pub resolved_by: Option<&'static str>,
    /// Interceptors registered at emission time.
    pub interceptors_registered: u32,
}

impl Default for FinalizeMeta {
    fn default() -> (r: Self)
        ensures
            r.input_identity is None,
            r.identity_provider is None,
            r.enforced_identity is None,
            !r.jcs_input_rejected,
            !r.unchanged_since_input,
            r.decided_by is None,
            r.composition == crate::composition::default_config(),
            r.verdicts@.len() == 0,
            r.fold_truncated is None,
            r.resolved_by is None,
            r.interceptors_registered == 0,
    {
        FinalizeMeta {
            input_identity: None,
            identity_provider: None,
            enforced_identity: None,
            jcs_input_rejected: false,
            unchanged_since_input: false,
            decided_by: None,
            composition: CompositionConfig::default(),
            verdicts: Vec::new(),
            fold_truncated: None,
            resolved_by: None,
            interceptors_registered: 0,
        }
    }
}

/// The verdict is already the fail-closed `context_invalid` deny.
pub open spec fn spec_is_context_invalid(v: VerdictView) -> bool {
    v.decision is Deny && v.reason == Some("host_error:context_invalid"@)
}

/// Whether a verdict is already the fail-closed `context_invalid` deny.
pub fn is_context_invalid(v: &Verdict) -> (r: bool)
    ensures
        r == spec_is_context_invalid(v@),
{
    match &v.reason {
        Some(r) => v.decision == Decision::Deny && crate::text::str_eq(r.as_str(), "host_error:context_invalid"),
        None => false,
    }
}

/// The message of the deny that replaces a permit when a text funnel
/// rejected the context and a transform then changed it.
pub open spec fn post_fold_detail() -> Seq<char> {
    "post-fold context left the I-JSON domain; string-encode 64-bit identifiers, see spec §4.4"@
}

/// The combined verdict, `decided_by` and enforced identity a record
/// carries. An invalid envelope turns any other verdict into the
/// `context_invalid` deny with no identities. Under `jcs-sha256` the
/// enforced identity is computed from the post-composition context (or
/// reused from the input identity when nothing changed); a context that
/// left the provider's domain turns a permit into the `context_invalid`
/// deny. A custom provider's identity is passed through.
pub open spec fn finalize_outcome(
    ctx: Entries,
    v: VerdictView,
    decided_by: Option<u32>,
    provider: Option<Seq<char>>,
    input: Option<Seq<char>>,
    enforced: Option<Seq<char>>,
    rejected: bool,
    unchanged: bool,
) -> (VerdictView, Option<u32>, Option<Seq<char>>) {
    match spec_validate_envelope(ctx) {
        Err(d) => if spec_is_context_invalid(v) {
            (v, decided_by, None)
        } else {
            (host_error_view(HostError::ContextInvalid, Some(d)), None, None)
        },
        Ok(_) => match provider {
            Some(p) => if p == JCS_SHA256@ {
                if rejected {
                    if input is Some && spec_permits(v.decision) {
                        (host_error_view(HostError::ContextInvalid, Some(post_fold_detail())), None, None)
                    } else {
                        (v, decided_by, None)
                    }
                } else if unchanged && input is Some {
                    (v, decided_by, input)
                } else if identity_domain(ctx) {
                    (v, decided_by, Some(spec_identity(ctx)))
                } else if spec_permits(v.decision) {
                    (host_error_view(HostError::ContextInvalid, Some(identity_error(ctx))), None, None)
                } else {
                    (v, decided_by, None)
                }
            } else {
                (v, decided_by, enforced)
            },
            None => (v, decided_by, None),
        },
    }
}

/// View of [`FinalizeMeta`].
pub struct MetaView {
    pub input_identity: Option<Seq<char>>,
    pub identity_provider: Option<Seq<char>>,
    pub enforced_identity: Option<Seq<char>>,
    pub jcs_input_rejected: bool,
    pub unchanged_since_input: bool,
    pub decided_by: Option<u32>,
    pub composition: CompositionConfig,
    pub verdicts: Seq<VerdictSummary>,
    pub fold_truncated: Option<bool>,
    pub resolved_by: Option<&'static str>,
    pub interceptors_registered: u32,
}

impl View for FinalizeMeta {
    type V = MetaView;

    open spec fn view(&self) -> MetaView {
        MetaView {
            input_identity: opt_str_view(self.input_identity),
            identity_provider: opt_str_view(self.identity_provider),
            enforced_identity: opt_str_view(self.enforced_identity),
            jcs_input_rejected: self.jcs_input_rejected,
            unchanged_since_input: self.unchanged_since_input,
            decided_by: self.decided_by,
            composition: self.composition,
            verdicts: self.verdicts@,
            fold_truncated: self.fold_truncated,
            resolved_by: self.resolved_by,
            interceptors_registered: self.interceptors_registered,
        }
    }
}

/// The outcome for a context, verdict and meta.
pub open spec fn outcome_of(ctx: Entries, v: VerdictView, meta: MetaView) -> (VerdictView, Option<u32>, Option<Seq<char>>) {
    finalize_outcome(
        ctx,
        v,
        meta.decided_by,
        meta.identity_provider,
        meta.input_identity,
        meta.enforced_identity,
        meta.jcs_input_rejected,
        meta.unchanged_since_input,
    )
}

/// `r` is the record of an emission over `ctx` with combined verdict `v`
/// under `mode` and `meta`.
pub open spec fn is_record_of(r: InterceptionRecord, ctx: Entries, v: VerdictView, mode: EnforcementMode, meta: MetaView) -> bool {
    let o = outcome_of(ctx, v, meta);
    &&& r.verdict@ == spec_projection(o.0)
    &&& r.decided_by == o.1
    &&& opt_str_view(r.enforced_identity) == o.2
    &&& r.interception_point == (match spec_ip_of(ctx) {
        Ok(ip) => ip,
        Err(_) => InterceptionPoint::AgentStartup,
    })
    &&& r.mode == mode
    &&& opt_str_view(r.input_identity) == (if spec_validate_envelope(ctx) is Err {
        None
    } else {
        meta.input_identity
    })
    &&& opt_str_view(r.identity_provider) == meta.identity_provider
    &&& r.session_id@ == session_id_of(ctx)
    &&& r.sequence == sequence_of(ctx)
    &&& opt_str_view(r.timestamp) == view_str(map_get(ctx, "timestamp"@))
    &&& trace_view(r.trace) == trace_of(ctx)
    &&& r.composition == spec_with_knob_defaults(meta.composition)
    &&& r.verdicts@ == meta.verdicts
    &&& r.fold_truncated == meta.fold_truncated
    &&& r.resolved_by == meta.resolved_by
    &&& r.interceptors_registered == meta.interceptors_registered
}

/// `ctx.session.id` (`""` when absent).
pub open spec fn session_id_of(ctx: Entries) -> Seq<char> {
    match map_get(ctx, "session"@) {
        Some(s) => match view_str(member(s, "id"@)) {
            Some(id) => id,
            None => Seq::empty(),
        },
        None => Seq::empty(),
    }
}

/// `ctx.sequence` (`-1` when absent or out of range).
pub open spec fn sequence_of(ctx: Entries) -> i64 {
    match view_i64(map_get(ctx, "sequence"@)) {
        Some(i) => i,
        None => -1i64,
    }
}

/// `ctx.trace` identifiers, when it is an object with at least one of them.
pub open spec fn trace_of(ctx: Entries) -> Option<(Option<Seq<char>>, Option<Seq<char>>)> {
    match map_get(ctx, "trace"@) {
        Some(JView::Object(es)) => {
            let t = view_str(map_get(es, "trace_id"@));
            let sp = view_str(map_get(es, "span_id"@));
            if t is Some || sp is Some {
                Some((t, sp))
            } else {
                None
            }
        },
        _ => None,
    }
}

/// The view of a record's trace.
pub open spec fn trace_view(t: Option<TraceContext>) -> Option<(Option<Seq<char>>, Option<Seq<char>>)> {
    match t {
        Some(tc) => Some((opt_str_view(tc.trace_id), opt_str_view(tc.span_id))),
        None => None,
    }
}

fn str_of(v: Option<&JsonValue>) -> (r: Option<String>)
    ensures
        opt_str_view(r) == view_str(crate::json::opt_view(v)),
{
    match v {
        Some(JsonValue::String(s)) => Some(s.clone()),
        _ => None,
    }
}

fn trace_context(ctx: &JsonMap) -> (r: Option<TraceContext>)
    ensures
        trace_view(r) == trace_of(ctx@),
{
    match ctx.get("trace") {
        Some(JsonValue::Object(t)) => {
            let tc = TraceContext { trace_id: str_of(t.get("trace_id")), span_id: str_of(t.get("span_id")) };
            if tc.trace_id.is_some() || tc.span_id.is_some() {
                Some(tc)
            } else {
                None
            }
        },
        _ => None,
    }
}

fn session_id(ctx: &JsonMap) -> (r: String)
    ensures
        r@ == session_id_of(ctx@),
{
    match ctx.get("session") {
        Some(s) => match s.get("id") {
            Some(JsonValue::String(id)) => id.clone(),
            _ => String::new(),
        },
        None => String::new(),
    }
}

fn is_jcs(p: &Option<String>) -> (r: bool)
    ensures
        r == (opt_str_view(*p) matches Some(s) && s == JCS_SHA256@),
{
    match p {
        Some(s) => crate::text::str_eq(s.as_str(), JCS_SHA256),
        None => false,
    }
}

/// Build the record of one completed emission. `meta.input_identity` must
/// have been computed from the context before interceptor dispatch; the
/// enforced identity is computed here (for `jcs-sha256`) from the
/// post-composition context, so the two differ exactly when a transform
/// changed the projection. The record carries the payload-free projection
/// of the combined verdict, never the verdict verbatim.
pub fn finalize(ctx: &JsonMap, verdict: Verdict, mode: EnforcementMode, meta: FinalizeMeta) -> (r: InterceptionRecord)
    ensures
        is_record_of(r, ctx@, verdict@, mode, meta@),
{
    let ghost v0 = verdict@;
    let mut verdict = verdict;
    let mut decided_by = meta.decided_by;
    let envelope = validate_envelope(ctx);
    let envelope_invalid = envelope.is_err();
    match &envelope {
        Err((e, detail)) => {
            if !is_context_invalid(&verdict) {
                verdict = Verdict::host_error(*e, Some(detail.clone()));
                decided_by = None;
            }
        },
        Ok(()) => {},
    }
    let ip = match interception_point_of(ctx) {
        Ok(ip) => ip,
        Err(_) => InterceptionPoint::AgentStartup,
    };
    let session_id = session_id(ctx);
    let sequence: i64 = match ctx.get("sequence") {
        Some(v) => match v.as_i64() {
            Some(i) => i,
            None => -1,
        },
        None => -1,
    };
    let timestamp = str_of(ctx.get("timestamp"));
    let trace = trace_context(ctx);
    let enforced_identity: Option<String> = if envelope_invalid {
        None
    } else if is_jcs(&meta.identity_provider) {
        if meta.jcs_input_rejected {
            if meta.input_identity.is_some() && verdict.decision.permits() {
                verdict = Verdict::host_error(
                    HostError::ContextInvalid,
                    Some(to_owned("post-fold context left the I-JSON domain; string-encode 64-bit identifiers, see spec §4.4")),
                );
                decided_by = None;
            }
            None
        } else if meta.unchanged_since_input && meta.input_identity.is_some() {
            crate::types::opt_string_clone(&meta.input_identity)
        } else {
            match context_identity(ctx) {
                Ok(id) => Some(id),
                Err((e, detail)) => {
                    if verdict.decision.permits() {
                        verdict = Verdict::host_error(e, Some(detail));
                        decided_by = None;
                    }
                    None
                },
            }
        }
    } else if meta.identity_provider.is_some() {
        meta.enforced_identity
    } else {
        None
    };
    let input_identity = if envelope_invalid {
        None
    } else {
        meta.input_identity
    };
    InterceptionRecord {
        interception_point: ip,
        mode,
        verdict: payload_free_projection(&verdict),
        input_identity,
        enforced_identity,
        identity_provider: meta.identity_provider,
        session_id,
        sequence,
        timestamp,
        trace,
        decided_by,
        composition: meta.composition.with_knob_defaults(),
        verdicts: meta.verdicts,
        fold_truncated: meta.fold_truncated,
        resolved_by: meta.resolved_by,
        interceptors_registered: meta.interceptors_registered,
    }
}

/// An envelope the check rejects never earns a normal record: the verdict
/// is the `context_invalid` deny (so the guarded action does not proceed
/// under `enforce`) and no enforced identity is recorded.
pub proof fn law_envelope_invalid_never_plausible(
    ctx: Entries,
    v: VerdictView,
    decided_by: Option<u32>,
    provider: Option<Seq<char>>,
    input: Option<Seq<char>>,
    enforced: Option<Seq<char>>,
    rejected: bool,
    unchanged: bool,
)
    requires
        spec_validate_envelope(ctx) is Err,
    ensures
        ({
            let o = finalize_outcome(ctx, v, decided_by, provider, input, enforced, rejected, unchanged);
            &&& spec_is_context_invalid(o.0)
            &&& !crate::types::spec_proceeds(EnforcementMode::Enforce, o.0.decision)
            &&& o.2 is None
        }),
{
}

/// Under `jcs-sha256`, when the post-composition context has the same
/// projection as the one the input identity was computed from, the
/// enforced identity equals the input identity and the verdict stands.
pub proof fn law_identity_stable_without_projection_change(
    before: Entries,
    ctx: Entries,
    v: VerdictView,
    decided_by: Option<u32>,
    enforced: Option<Seq<char>>,
    unchanged: bool,
)
    requires
        spec_validate_envelope(ctx) is Ok,
        identity_domain(before),
        crate::canonical::preimage(before) == crate::canonical::preimage(ctx),
    ensures
        ({
            let input = Some(spec_identity(before));
            let o = finalize_outcome(ctx, v, decided_by, Some(JCS_SHA256@), input, enforced, false, unchanged);
            &&& o.2 == input
            &&& o.0 == v
            &&& o.1 == decided_by
        }),
{
}

/// Under `jcs-sha256`, a context whose projection left the provider's
/// domain after composition turns a permitting verdict into the
/// `context_invalid` deny with the provider's detail, and records no
/// enforced identity.
pub proof fn law_post_fold_rejection_fails_closed(
    ctx: Entries,
    v: VerdictView,
    decided_by: Option<u32>,
    input: Option<Seq<char>>,
    enforced: Option<Seq<char>>,
    unchanged: bool,
)
    requires
        spec_validate_envelope(ctx) is Ok,
        !identity_domain(ctx),
        spec_permits(v.decision),
        !(unchanged && input is Some),
    ensures
        ({
            let o = finalize_outcome(ctx, v, decided_by, Some(JCS_SHA256@), input, enforced, false, unchanged);
            &&& o.0 == host_error_view(HostError::ContextInvalid, Some(identity_error(ctx)))
            &&& !crate::types::spec_proceeds(EnforcementMode::Enforce, o.0.decision)
            &&& o.1 is None
            &&& o.2 is None
        }),
{
}

/// A truncated message is at most 256 bytes plus the three of `…`, and a
/// message that fits is kept whole.
pub proof fn law_truncate_bound(s: Seq<char>)
    ensures
        vstd::utf8::encode_utf8(s).len() <= MAX_MESSAGE_BYTES ==> spec_truncate(s) == s,
        vstd::utf8::encode_utf8(spec_truncate(s)).len() <= MAX_MESSAGE_BYTES + 3,
{
    broadcast use vstd::utf8::group_utf8_lib;

    let b = vstd::utf8::encode_utf8(s);
    if b.len() > MAX_MESSAGE_BYTES {
        let end = boundary_below(b, MAX_MESSAGE_BYTES as int);
        lemma_boundary_below(b, MAX_MESSAGE_BYTES as int);
        let head = b.subrange(0, end);
        assert(vstd::utf8::valid_utf8(head));
        assert(vstd::utf8::encode_utf8(vstd::utf8::decode_utf8(head)) == head);
        crate::text::lemma_encode_utf8_concat(vstd::utf8::decode_utf8(head), seq!['…']);
        let e = seq!['…'];
        assert(e[0] as u32 == 0x2026u32);
        assert(e.drop_first() =~= Seq::<char>::empty());
        assert(vstd::utf8::encode_utf8(e.drop_first()) =~= Seq::<u8>::empty());
        assert(vstd::utf8::encode_scalar(e[0] as u32).len() == 3);
        assert(vstd::utf8::encode_utf8(e).len() == 3);
    }
}

proof fn lemma_boundary_below(b: Seq<u8>, k: int)
    requires
        vstd::utf8::valid_utf8(b),
        k <= b.len(),
    ensures
        0 <= boundary_below(b, k),
        k >= 0 ==> boundary_below(b, k) <= k,
        vstd::utf8::is_char_boundary(b, boundary_below(b, k)),
    decreases k,
{
    broadcast use vstd::utf8::group_utf8_lib;

    assert(vstd::utf8::is_char_boundary(b, 0));
    if k > 0 && !vstd::utf8::is_char_boundary(b, k) {
        lemma_boundary_below(b, k - 1);
    }
}

/// The payload-free projection keeps the decision, reason, evidence and
/// labels as they are; keeps each warning's reason and whether it has a
/// message; keeps a transform's path but never its value; keeps whether an
/// approval block is present but none of its members; and keeps a message
/// within its short form (unchanged when already short).
pub proof fn law_projection_payload_free(v: VerdictView)
    ensures
        spec_projection(v).decision == v.decision,
        spec_projection(v).reason == v.reason,
        spec_projection(v).evidence == v.evidence,
        spec_projection(v).result_labels == v.result_labels,
        spec_projection(v).warnings.len() == v.warnings.len(),
        forall|i: int| 0 <= i < v.warnings.len() ==> (#[trigger] spec_projection(v).warnings[i]).reason == v.warnings[i].reason
            && (spec_projection(v).warnings[i].message is Some <==> v.warnings[i].message is Some),
        spec_projection(v).approval is Some <==> v.approval is Some,
        spec_projection(v).approval matches Some(a) ==> a.len() == 0,
        spec_projection(v).transform is Some <==> v.transform is Some,
        v.transform matches Some(t) ==> spec_projection(v).transform == Some(TransformView { path: t.path, value: JView::Null }),
        spec_projection(v).message is Some <==> v.message is Some,
        v.message matches Some(m) ==> (vstd::utf8::encode_utf8(m).len() <= MAX_MESSAGE_BYTES ==> spec_projection(v).message == Some(m)),
{
    if let Some(m) = v.message {
        law_truncate_bound(m);
    }
}

} // verus!
