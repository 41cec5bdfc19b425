//! The operations every language binding exposes, on parsed values.
//!
//! A binding parses its JSON text arguments into the library's values,
//! calls one of these, and serializes the result; an error is the pair of
//! the reserved `host_error:*` code and a detail message.
use vstd::prelude::*;
use crate::canonical::{scan_text, spec_scan_projection, spec_validate_envelope};
use crate::composition::{
    aggregate_strictest, is_unanimous_allow, spec_aggregate, spec_is_sequential,
    spec_unanimous_allow, spec_with_unions, views, with_unions, Aggregate, AggregateView,
    CompositionConfig, CompositionProfile,
};
use crate::emitter::{conflict_detail, disagreement_detail, spec_summaries, synthesized_view};
use crate::enforce::{spec_apply_transform, spec_validate_transform, FinalizeMeta};
use crate::jcs::canon;
use crate::json::{JView, JsonMap, JsonValue};
use crate::path::spec_apply;
use crate::text::{push_str, to_owned};
use crate::types::{
    host_error_name, reserved_reason, spec_liftable, verdict_valid, Decision, EnforcementMode,
    HostError, Transform, TransformView, Verdict, VerdictSummary, VerdictView,
};

verus! {

/// `(host_error_code, detail_message)`.
pub type FfiError = (String, String);

/// The view of an error: its code and detail.
pub open spec fn ffi_view(e: FfiError) -> (Seq<char>, Seq<char>) {
    (e.0@, e.1@)
}

/// The error for `e` with `detail`.
pub open spec fn ffi_err(e: HostError, detail: Seq<char>) -> (Seq<char>, Seq<char>) {
    (host_error_name(e), detail)
}

/// An error: the wire code of `e` and a detail.
pub fn err(e: HostError, detail: String) -> (r: FfiError)
    ensures
        ffi_view(r) == ffi_err(e, detail@),
{
    (e.to_string(), detail)
}

fn failure_to_ffi(f: (HostError, String)) -> (r: FfiError)
    ensures
        ffi_view(r) == ffi_err(f.0, f.1@),
{
    err(f.0, f.1)
}

/// Version stamp for binding sanity checks.
pub fn spec_version() -> (r: &'static str)
    ensures
        r@ == crate::types::SPEC_VERSION@,
{
    crate::types::SPEC_VERSION
}

/// Canonical JSON of a value parsed from `value_json`; an integer literal
/// beyond ±(2⁵³−1) in the text is refused (the parse would already have
/// rounded it).
pub fn canonical_json(value: &JsonValue, value_json: &str) -> (r: Result<String, FfiError>)
    ensures
        match scan_text(value_json@) {
            Err(d) => r matches Err(e) && ffi_view(e) == ffi_err(HostError::ContextInvalid, d),
            Ok(_) => r matches Ok(s) && s@ == canon(value@),
        },
{
    match crate::canonical::scan_raw_integer_domain(value_json) {
        Err(f) => Err(failure_to_ffi(f)),
        Ok(()) => Ok(crate::canonical::canonical_json(value)),
    }
}

/// The `jcs-sha256` identity of a context parsed from `ctx_json`: the raw
/// text of its projection is scanned first, then the parsed context goes
/// to the provider.
pub fn context_identity(ctx: &JsonMap, ctx_json: &str) -> (r: Result<String, FfiError>)
    ensures
        match spec_scan_projection(ctx_json@) {
            Err(d) => r matches Err(e) && ffi_view(e) == ffi_err(HostError::ContextInvalid, d),
            Ok(_) => match r {
                Ok(id) => crate::canonical::identity_domain(ctx@) && id@ == crate::canonical::spec_identity(ctx@),
                Err(e) => !crate::canonical::identity_domain(ctx@) && ffi_view(e) == ffi_err(
                    HostError::ContextInvalid,
                    crate::canonical::identity_error(ctx@),
                ),
            },
        },
{
    match crate::canonical::scan_projection_raw(ctx_json) {
        Err(f) => return Err(failure_to_ffi(f)),
        Ok(()) => {},
    }
    match crate::canonical::context_identity(ctx) {
        Ok(id) => Ok(id),
        Err(f) => Err(failure_to_ffi(f)),
    }
}

/// Validation of a verdict in wire form, giving the normalized verdict or the failure.
pub fn validate_verdict(raw: &JsonValue) -> (r: Result<Verdict, FfiError>)
    ensures
        match r {
            Ok(v) => crate::verdict::spec_from_wire(raw@) == Ok::<VerdictView, HostError>(v@),
            Err(e) => crate::verdict::spec_from_wire(raw@) is Err && e.0@ == host_error_name(HostError::VerdictInvalid)
                && (crate::verdict::wire_admission(raw@) matches Err(d) && ffi_view(e) == ffi_err(HostError::VerdictInvalid, d)),
        },
{
    match crate::verdict::from_wire(raw) {
        Ok(v) => Ok(v),
        Err(f) => Err(failure_to_ffi(f)),
    }
}

/// Apply a transform path to a target.
pub fn apply_transform(target: JsonValue, path: &str, value: JsonValue) -> (r: Result<JsonValue, FfiError>)
    ensures
        match spec_apply(target@, path@, value@) {
            Ok(t) => r matches Ok(x) && x@ == t,
            Err(e) => r matches Err(f) && ffi_view(f) == ffi_err(e, path@),
        },
{
    match crate::path::apply(target, path, value) {
        Ok(x) => Ok(x),
        Err(e) => Err(err(e, to_owned(path))),
    }
}

/// Apply one transform to a context's target (and its aliased field);
/// the updated context.
pub fn apply_transform_ctx(ctx: JsonMap, path: &str, value: JsonValue) -> (r: Result<JsonMap, FfiError>)
    ensures
        match spec_apply_transform(ctx@, TransformView { path: path@, value: value@ }) {
            Ok(c) => r matches Ok(x) && x@ == c,
            Err(e) => r matches Err(f) && ffi_view(f) == ffi_err(e, path@),
        },
{
    let mut ctx = ctx;
    let t = Transform { path: to_owned(path), value };
    match crate::enforce::apply_transform_to_ctx(&mut ctx, &t) {
        Ok(()) => Ok(ctx),
        Err(e) => Err(err(e, to_owned(path))),
    }
}

/// Validate a transform against a context's current target without
/// applying it.
pub fn validate_transform_ctx(ctx: &JsonMap, path: &str, value: JsonValue) -> (r: Result<(), FfiError>)
    ensures
        match spec_validate_transform(ctx@, TransformView { path: path@, value: value@ }) {
            Ok(_) => r is Ok,
            Err(e) => r matches Err(f) && ffi_view(f) == ffi_err(e, path@),
        },
{
    let t = Transform { path: to_owned(path), value };
    match crate::enforce::validate_transform(ctx, &t) {
        Ok(()) => Ok(()),
        Err(e) => Err(err(e, to_owned(path))),
    }
}

/// Envelope validation of a parsed context.
pub fn validate_envelope(ctx: &JsonMap) -> (r: Result<(), FfiError>)
    ensures
        match spec_validate_envelope(ctx@) {
            Ok(_) => r is Ok,
            Err(d) => r matches Err(e) && ffi_view(e) == ffi_err(HostError::ContextInvalid, d),
        },
{
    match crate::canonical::validate_envelope(ctx) {
        Ok(()) => Ok(()),
        Err(f) => Err(failure_to_ffi(f)),
    }
}

// ---- aggregation --------------------------------------------------------------------------

/// The outcome of an aggregation for a binding that drives dispatch itself.
#[derive(Debug)]
pub struct ComposeResult {
    /// The winner (or synthesized verdict) with the unions applied.
    pub combined: Verdict,
    /// The aggregation winner's index.
    pub decided_by: Option<u32>,
    /// `combined` is a liftable deny to consult (resolver, mode and point
    /// checks stay with the binding).
    pub consult: bool,
    /// Parallel only: `combined` is the single winning transform, not yet
    /// applied.
    pub apply_transform: bool,
    /// Per-interceptor summaries.
    pub verdicts: Vec<VerdictSummary>,
}

/// The host-synthesized failure shape: a deny with a reserved reason and
/// no transform.
pub open spec fn synthesized_shape(v: VerdictView) -> bool {
    v.decision is Deny && reserved_reason(v.reason) && v.transform is None
}

/// Every entry is valid or has the synthesized shape.
pub open spec fn all_admitted(s: Seq<VerdictView>) -> bool {
    forall|i: int| 0 <= i < s.len() ==> synthesized_shape(#[trigger] s[i]) || verdict_valid(s[i])
}

/// The detail for entry `i` failing validation.
pub open spec fn gate_detail(i: int) -> Seq<char> {
    "verdicts["@ + crate::jcs::decimal(i as nat) + "]: fails the §5 gate"@
}

/// The combined verdict, attribution and transform flag of an aggregation
/// of admitted verdicts.
pub open spec fn spec_compose(cfg: CompositionConfig, s: Seq<VerdictView>) -> (VerdictView, Option<u32>, bool) {
    if cfg.profile is ParallelUnanimous && !spec_unanimous_allow(s) {
        (spec_with_unions(synthesized_view(HostError::CompositionDisagreement, disagreement_detail(), cfg.on_disagreement), s), None, false)
    } else {
        let sequential = spec_is_sequential(cfg.profile);
        match spec_aggregate(s, sequential) {
            AggregateView::TransformConflict(idxs) => (
                spec_with_unions(synthesized_view(HostError::TransformConflict, conflict_detail(idxs), cfg.on_transform_conflict), s),
                None,
                false,
            ),
            AggregateView::Winner(i) => (
                spec_with_unions(s[i], s),
                if s[i].decision is Allow { None } else { Some(i as u32) },
                !sequential && s[i].decision is Transform,
            ),
        }
    }
}

fn gate_message(i: usize) -> (r: String)
    ensures
        r@ == gate_detail(i as int),
{
    let mut d = to_owned("verdicts[");
    crate::jcs::write_decimal(i as u64, &mut d);
    push_str(&mut d, "]: fails the §5 gate");
    d
}

/// Aggregation for the multi-verdict profiles, for bindings that drive
/// dispatch natively: every entry must be valid or be exactly the
/// host-synthesized failure shape; then the profile's aggregation decides.
/// An empty list is `no_interceptor`.
pub fn compose_aggregate(cfg: CompositionConfig, all: Vec<Verdict>) -> (r: Result<ComposeResult, FfiError>)
    requires
        all@.len() <= u32::MAX,
    ensures
        match r {
            Err(e) => if all@.len() == 0 {
                ffi_view(e) == ffi_err(HostError::NoInterceptor, "empty verdict list"@)
            } else {
                exists|i: int| 0 <= i < all@.len()
                    && !synthesized_shape(#[trigger] views(all@)[i]) && !verdict_valid(views(all@)[i])
                    && (forall|j: int| 0 <= j < i ==> synthesized_shape(#[trigger] views(all@)[j]) || verdict_valid(views(all@)[j]))
                    && ffi_view(e) == ffi_err(HostError::VerdictInvalid, gate_detail(i))
            },
            Ok(c) => {
                let k = spec_compose(cfg, views(all@));
                &&& all@.len() > 0 && all_admitted(views(all@))
                &&& c.combined@ == k.0
                &&& c.decided_by == k.1
                &&& c.apply_transform == k.2
                &&& c.consult == spec_liftable(k.0)
                &&& c.verdicts@ == spec_summaries(all@)
            },
        },
{
    if all.len() == 0 {
        return Err(err(HostError::NoInterceptor, to_owned("empty verdict list")));
    }
    let ghost s = views(all@);
    let n = all.len();
    for i in 0..n
        invariant
            n == all@.len(),
            s == views(all@),
            forall|j: int| 0 <= j < i ==> synthesized_shape(#[trigger] s[j]) || verdict_valid(s[j]),
    {
        let v = &all[i];
        let shape = v.decision == Decision::Deny && crate::emitter::is_host_synthesized(v) && v.transform.is_none();
        if !shape {
            match v.validate() {
                Ok(()) => {},
                Err(e) => {
                    assert(!synthesized_shape(s[i as int]) && !verdict_valid(s[i as int]));
                    return Err(err(e, gate_message(i)));
                },
            }
        }
    }
    let sequential = cfg.profile.is_sequential();
    let verdicts = crate::emitter::summaries_of_public(&all);
    proof {
        crate::composition::law_aggregate_strictest(s, sequential);
    }
    let (combined, decided_by, apply) = if cfg.profile == CompositionProfile::ParallelUnanimous && !is_unanimous_allow(&all) {
        let v = crate::emitter::synthesize(
            HostError::CompositionDisagreement,
            to_owned("non-unanimous outcome under parallel/unanimous"),
            cfg.on_disagreement,
        );
        (with_unions(v, &all), None, false)
    } else {
        match aggregate_strictest(&all, sequential) {
            Aggregate::TransformConflict(idxs) => {
                let detail = crate::emitter::conflict_message(&idxs);
                let v = crate::emitter::synthesize(HostError::TransformConflict, detail, cfg.on_transform_conflict);
                (with_unions(v, &all), None, false)
            },
            Aggregate::Winner(i) => {
                let winner = all[i].clone();
                let decided_by = match winner.decision {
                    Decision::Allow => None,
                    _ => Some(i as u32),
                };
                let apply = !sequential && winner.decision == Decision::Transform;
                (with_unions(winner, &all), decided_by, apply)
            },
        }
    };
    let consult = combined.is_liftable();
    Ok(ComposeResult { combined, decided_by, consult, apply_transform: apply, verdicts })
}


// ---- the record -------------------------------------------------------------------------

/// The mode named `mode`.
pub fn parse_mode(mode: &str) -> (r: Result<EnforcementMode, FfiError>)
    ensures
        if mode@ == "enforce"@ {
            r == Ok::<EnforcementMode, FfiError>(EnforcementMode::Enforce)
        } else if mode@ == "evaluate_only"@ {
            r == Ok::<EnforcementMode, FfiError>(EnforcementMode::EvaluateOnly)
        } else {
            r matches Err(e) && ffi_view(e) == ffi_err(HostError::ContextInvalid, "mode: "@ + mode@)
        },
{
    if crate::text::str_eq(mode, "enforce") {
        Ok(EnforcementMode::Enforce)
    } else if crate::text::str_eq(mode, "evaluate_only") {
        Ok(EnforcementMode::EvaluateOnly)
    } else {
        let mut d = to_owned("mode: ");
        push_str(&mut d, mode);
        Err(err(HostError::ContextInvalid, d))
    }
}

/// Member `k` of the options, when a string.
pub open spec fn opt_str_member(opts: JView, k: Seq<char>) -> Option<Seq<char>> {
    crate::json::view_str(crate::json::member(opts, k))
}

/// Member `k` of the options, when an unsigned integer.
pub open spec fn opt_u64_member(opts: JView, k: Seq<char>) -> Option<u64> {
    match crate::json::member(opts, k) {
        Some(JView::Number(crate::json::JNum::PosInt(u))) => Some(u),
        _ => None,
    }
}

/// Member `k` of the options, when a boolean.
pub open spec fn opt_bool_member(opts: JView, k: Seq<char>) -> Option<bool> {
    match crate::json::member(opts, k) {
        Some(JView::Bool(b)) => Some(b),
        _ => None,
    }
}

/// The `resolved_by` option: `"approval"`, `"rejection"`, or none.
pub open spec fn resolved_by_option(opts: JView) -> Option<&'static str> {
    match opt_str_member(opts, "resolved_by"@) {
        Some(s) => if s == "approval"@ {
            Some("approval")
        } else if s == "rejection"@ {
            Some("rejection")
        } else {
            None
        },
        None => None,
    }
}

/// The record metadata an options object describes. Integers are taken
/// modulo 2³² where the record holds a `u32`.
pub open spec fn options_meta(
    opts: JView,
    scan_rejected: bool,
    composition: CompositionConfig,
    verdicts: Seq<VerdictSummary>,
) -> crate::enforce::MetaView {
    crate::enforce::MetaView {
        input_identity: opt_str_member(opts, "input_identity"@),
        identity_provider: opt_str_member(opts, "identity_provider"@),
        enforced_identity: opt_str_member(opts, "enforced_identity"@),
        jcs_input_rejected: opt_str_member(opts, "identity_provider"@) == Some(crate::types::JCS_SHA256@) && scan_rejected,
        unchanged_since_input: opt_bool_member(opts, "unchanged_since_input"@) == Some(true),
        decided_by: match opt_u64_member(opts, "decided_by"@) {
            Some(d) => Some(d as u32),
            None => None,
        },
        composition: composition,
        verdicts: verdicts,
        fold_truncated: opt_bool_member(opts, "fold_truncated"@),
        resolved_by: resolved_by_option(opts),
        interceptors_registered: match opt_u64_member(opts, "interceptors_registered"@) {
            Some(u) => u as u32,
            None => 0,
        },
    }
}

fn member_str(opts: &JsonValue, k: &str) -> (r: Option<String>)
    ensures
        crate::types::opt_str_view(r) == opt_str_member(opts@, k@),
{
    match opts.get(k) {
        Some(JsonValue::String(s)) => Some(s.clone()),
        _ => None,
    }
}

fn member_u64(opts: &JsonValue, k: &str) -> (r: Option<u64>)
    ensures
        r == opt_u64_member(opts@, k@),
{
    match opts.get(k) {
        Some(JsonValue::Number(crate::json::JsonNumber::PosInt(u))) => Some(*u),
        _ => None,
    }
}

fn member_bool(opts: &JsonValue, k: &str) -> (r: Option<bool>)
    ensures
        r == opt_bool_member(opts@, k@),
{
    match opts.get(k) {
        Some(JsonValue::Bool(b)) => Some(*b),
        _ => None,
    }
}

/// Build the record of one completed emission from a binding's options
/// (`input_identity`, `identity_provider`, `enforced_identity`,
/// `decided_by`, `fold_truncated`, `resolved_by`, `unchanged_since_input`,
/// `interceptors_registered`; `composition` and `verdicts` parsed by the
/// binding). A host-defined provider name must satisfy the name rules.
/// Under `jcs-sha256`, a context whose raw text fails the projection scan
/// gets no identities (its parse already rounded the offending numbers).
pub fn finalize(
    ctx: &JsonMap,
    ctx_json: &str,
    verdict: Verdict,
    mode: EnforcementMode,
    opts: &JsonValue,
    composition: CompositionConfig,
    verdicts: Vec<VerdictSummary>,
) -> (r: Result<crate::types::InterceptionRecord, FfiError>)
    ensures
        ({
            let m = options_meta(opts@, spec_scan_projection(ctx_json@) is Err, composition, verdicts@);
            match m.identity_provider {
                Some(name) => if name != crate::types::JCS_SHA256@ && crate::types::spec_validate_provider_name(name) is Err {
                    r matches Err(e) && ffi_view(e) == ffi_err(
                        HostError::ContextInvalid,
                        "options.identity_provider: "@ + crate::types::spec_validate_provider_name(name)->Err_0,
                    )
                } else {
                    r matches Ok(rec) && crate::enforce::is_record_of(rec, ctx@, verdict@, mode, m)
                },
                None => r matches Ok(rec) && crate::enforce::is_record_of(rec, ctx@, verdict@, mode, m),
            }
        }),
{
    let provider = member_str(opts, "identity_provider");
    let is_jcs = match &provider {
        Some(p) => crate::text::str_eq(p.as_str(), crate::types::JCS_SHA256),
        None => false,
    };
    let jcs_input_rejected = is_jcs && crate::canonical::scan_projection_raw(ctx_json).is_err();
    match &provider {
        Some(name) => {
            if !is_jcs {
                match crate::types::validate_provider_name(name.as_str()) {
                    Ok(()) => {},
                    Err((e, d)) => {
                        let mut detail = to_owned("options.identity_provider: ");
                        push_str(&mut detail, d.as_str());
                        return Err(err(e, detail));
                    },
                }
            }
        },
        None => {},
    }
    let resolved_by: Option<&'static str> = match member_str(opts, "resolved_by") {
        Some(s) => if crate::text::str_eq(s.as_str(), "approval") {
            Some("approval")
        } else if crate::text::str_eq(s.as_str(), "rejection") {
            Some("rejection")
        } else {
            None
        },
        None => None,
    };
    let meta = FinalizeMeta {
        input_identity: member_str(opts, "input_identity"),
        identity_provider: provider,
        enforced_identity: member_str(opts, "enforced_identity"),
        jcs_input_rejected,
        unchanged_since_input: match member_bool(opts, "unchanged_since_input") {
            Some(b) => b,
            None => false,
        },
        decided_by: match member_u64(opts, "decided_by") {
            Some(d) => Some(#[verifier::truncate] (d as u32)),
            None => None,
        },
        composition,
        verdicts,
        fold_truncated: member_bool(opts, "fold_truncated"),
        resolved_by,
        interceptors_registered: match member_u64(opts, "interceptors_registered") {
            Some(u) => #[verifier::truncate] (u as u32),
            None => 0,
        },
    };
    Ok(crate::enforce::finalize(ctx, verdict, mode, meta))
}
} // verus!
