//! The decisions of an emission, as steps a host's dispatch loop drives.
//!
//! The host calls its interceptors and its approval resolver itself (they
//! are its own asynchronous code); after each call it hands the result to
//! one of the steps here, which folds it into the emission's state and
//! says what to do next: call the next interceptor, consult the approval
//! seam with a liftable deny, or stop with the combined outcome. Every
//! rule of composition, folding, consultation and recording lives here.
use vstd::prelude::*;
use crate::composition::{
    aggregate_strictest, is_unanimous_allow, spec_aggregate, spec_unanimous_allow,
    spec_with_unions, summaries, summary_of, views, with_unions, Aggregate, AggregateView,
    CompositionConfig, OnApproval, SynthesisPolicy,
};
use crate::enforce::{
    apply_transform_to_ctx, spec_apply_transform, spec_validate_transform, validate_transform,
    FinalizeMeta,
};
use crate::json::{map_get, view_str, Entries, JsonMap, JsonValue};
use crate::text::{starts_with, str_eq, to_owned};
use crate::types::{
    host_error_liftable_view, host_error_view, reserved_reason, spec_liftable, spec_permits,
    verdict_valid, ApprovalOutcome, ApprovalResolution, Decision, EnforcementMode, HostError,
    Verdict, VerdictSummary, VerdictView, HOST_ERROR_PREFIX,
};

verus! {

// ---- outcomes ----------------------------------------------------------------------

/// The combined verdict of one profile dispatch and its record metadata.
#[derive(Debug)]
pub struct DispatchOutcome {
    pub combined: Verdict,
    /// Registration index of the deciding interceptor.
    pub decided_by: Option<u32>,
    /// Per-interceptor summaries.
    pub verdicts: Vec<VerdictSummary>,
    /// Whether registered interceptors were never invoked
    /// (`sequential/first_deny`).
    pub fold_truncated: Option<bool>,
    /// `"approval"` or `"rejection"` when the seam was consulted.
    pub resolved_by: Option<&'static str>,
}

/// The summaries of a sequence of verdicts, index-aligned.
pub open spec fn spec_summaries(vs: Seq<Verdict>) -> Seq<VerdictSummary> {
    Seq::new(vs.len(), |i: int| summary_of(i, vs[i]))
}

fn summaries_of(vs: &Vec<Verdict>) -> (r: Vec<VerdictSummary>)
    ensures
        r@ == spec_summaries(vs@),
{
    let r = summaries(vs);
    assert(r@ =~= spec_summaries(vs@));
    r
}

/// The summaries of `vs`, index-aligned.
pub fn summaries_of_public(vs: &Vec<Verdict>) -> (r: Vec<VerdictSummary>)
    ensures
        r@ == spec_summaries(vs@),
{
    summaries_of(vs)
}

/// `o` carries exactly these members.
pub open spec fn outcome_is(
    o: DispatchOutcome,
    combined: VerdictView,
    decided_by: Option<u32>,
    per: Seq<Verdict>,
    fold_truncated: Option<bool>,
    resolved_by: Option<&'static str>,
) -> bool {
    &&& o.combined@ == combined
    &&& o.decided_by == decided_by
    &&& o.verdicts@ == spec_summaries(per)
    &&& o.fold_truncated == fold_truncated
    &&& o.resolved_by == resolved_by
}

impl DispatchOutcome {
    /// A host-synthesized deny with no interceptor attribution.
    pub fn synthesized(err: HostError, detail: Option<String>) -> (r: Self)
        ensures
            r.combined@ == host_error_view(err, crate::types::opt_str_view(detail)),
            r.decided_by is None,
            r.verdicts@.len() == 0,
            r.fold_truncated is None,
            r.resolved_by is None,
    {
        DispatchOutcome {
            combined: Verdict::host_error(err, detail),
            decided_by: None,
            verdicts: Vec::new(),
            fold_truncated: None,
            resolved_by: None,
        }
    }
}

/// What ends an emission before any interceptor runs: an invalid envelope
/// (its failure), else a failing identity provider (its failure), else no
/// registered interceptor (`no_interceptor`); nothing when dispatch goes
/// ahead.
pub open spec fn spec_early_failure(
    envelope: Result<(), (HostError, Seq<char>)>,
    identity: Result<Option<Seq<char>>, (HostError, Seq<char>)>,
    interceptors: nat,
) -> Option<VerdictView> {
    match envelope {
        Err(f) => Some(host_error_view(f.0, Some(f.1))),
        Ok(_) => match identity {
            Err(f) => Some(host_error_view(f.0, Some(f.1))),
            Ok(_) => if interceptors == 0 {
                Some(host_error_view(HostError::NoInterceptor, None))
            } else {
                None
            },
        },
    }
}

/// The view of a failure.
pub open spec fn failure_view<T>(r: Result<T, (HostError, String)>) -> Result<(), (HostError, Seq<char>)> {
    match r {
        Ok(_) => Ok(()),
        Err(f) => Err((f.0, f.1@)),
    }
}

/// The view of a provider's answer.
pub open spec fn identity_view(r: Result<Option<String>, (HostError, String)>) -> Result<Option<Seq<char>>, (HostError, Seq<char>)> {
    match r {
        Ok(id) => Ok(crate::types::opt_str_view(id)),
        Err(f) => Err((f.0, f.1@)),
    }
}

/// The outcome that ends an emission before dispatch, given the envelope
/// check, the provider's answer on the input context (not consulted when
/// the envelope failed) and the number of registered interceptors. Such an
/// outcome is a host-synthesized deny with no attribution and no summaries.
pub fn early_outcome(
    envelope: &Result<(), (HostError, String)>,
    identity: &Result<Option<String>, (HostError, String)>,
    interceptors: usize,
) -> (r: Option<DispatchOutcome>)
    ensures
        match spec_early_failure(failure_view(*envelope), identity_view(*identity), interceptors as nat) {
            None => r is None,
            Some(v) => r matches Some(o) && o.combined@ == v && o.decided_by is None && o.verdicts@.len() == 0
                && o.fold_truncated is None && o.resolved_by is None,
        },
{
    match envelope {
        Err((e, d)) => Some(DispatchOutcome::synthesized(*e, Some(d.clone()))),
        Ok(()) => match identity {
            Err((e, d)) => Some(DispatchOutcome::synthesized(*e, Some(d.clone()))),
            Ok(_) => if interceptors == 0 {
                Some(DispatchOutcome::synthesized(HostError::NoInterceptor, None))
            } else {
                None
            },
        },
    }
}

/// What a consultation of the approval seam produced.
#[derive(Debug)]
pub enum Consultation {
    /// Seam not consulted; the liftable deny stands as-is.
    NotConsulted,
    /// A resolution (or a host-synthesized failure verdict) that substitutes
    /// for the triggering verdict; `permitted` for an `approve` carrying a
    /// permit verdict.
    Substituted { verdict: Verdict, permitted: bool },
}

// ---- single verdicts ---------------------------------------------------------------

/// A verdict the host synthesized (its reason is a reserved `host_error:*`).
pub open spec fn spec_host_synthesized(v: VerdictView) -> bool {
    reserved_reason(v.reason)
}

/// Whether a verdict was synthesized by the host rather than returned by
/// an interceptor or resolver.
pub fn is_host_synthesized(v: &Verdict) -> (r: bool)
    ensures
        r == spec_host_synthesized(v@),
{
    match &v.reason {
        Some(r) => starts_with(r.as_str(), HOST_ERROR_PREFIX),
        None => false,
    }
}

/// What one interceptor call counts as: its own answer when that is
/// valid, the `verdict_invalid` deny when not; a host-synthesized failure
/// (panic, timeout) is taken as it is.
pub open spec fn spec_admit(raw: Result<VerdictView, VerdictView>) -> VerdictView {
    match raw {
        Ok(v) => if verdict_valid(v) {
            v
        } else {
            host_error_view(HostError::VerdictInvalid, None)
        },
        Err(f) => f,
    }
}

/// Validation of an interceptor's return: `Ok` is the verdict the
/// interceptor returned, `Err` a failure verdict the host substituted.
pub fn admit_verdict(raw: Result<Verdict, Verdict>) -> (r: Verdict)
    ensures
        r@ == spec_admit(match raw {
            Ok(v) => Ok::<VerdictView, VerdictView>(v@),
            Err(f) => Err(f@),
        }),
{
    match raw {
        Ok(v) => {
            if v.validate().is_err() {
                Verdict::host_error(HostError::VerdictInvalid, None)
            } else {
                v
            }
        },
        Err(f) => f,
    }
}

/// Folding one transform: under `enforce` it is applied to the
/// context, under `evaluate_only` only validated; a verdict without a
/// transform, or one that does not apply, becomes the host's failure deny
/// (naming the path) and the context is left as it was.
pub open spec fn spec_fold(ctx: Entries, mode: EnforcementMode, v: VerdictView) -> (Entries, VerdictView) {
    match v.transform {
        None => (ctx, host_error_view(HostError::TransformInvalid, None)),
        Some(t) => match mode {
            EnforcementMode::Enforce => match spec_apply_transform(ctx, t) {
                Ok(c) => (c, v),
                Err(e) => (ctx, host_error_view(e, Some(t.path))),
            },
            EnforcementMode::EvaluateOnly => match spec_validate_transform(ctx, t) {
                Ok(_) => (ctx, v),
                Err(e) => (ctx, host_error_view(e, Some(t.path))),
            },
        },
    }
}

/// Apply (`enforce`) or validate (`evaluate_only`) one transform verdict.
pub fn fold_transform(ctx: &mut JsonMap, mode: EnforcementMode, v: Verdict) -> (r: Verdict)
    ensures
        (final(ctx)@, r@) == spec_fold(old(ctx)@, mode, v@),
{
    let t = match &v.transform {
        Some(t) => t.clone(),
        None => return Verdict::host_error(HostError::TransformInvalid, None),
    };
    let result = match mode {
        EnforcementMode::Enforce => apply_transform_to_ctx(ctx, &t),
        EnforcementMode::EvaluateOnly => validate_transform(ctx, &t),
    };
    match result {
        Ok(()) => v,
        Err(e) => Verdict::host_error(e, Some(t.path)),
    }
}

/// A permit resolution's transform folds like an interceptor's; any other
/// verdict passes as it is.
pub open spec fn spec_fold_if_transform(ctx: Entries, mode: EnforcementMode, v: VerdictView) -> (Entries, VerdictView) {
    if v.decision is Transform {
        spec_fold(ctx, mode, v)
    } else {
        (ctx, v)
    }
}

fn fold_if_transform(ctx: &mut JsonMap, mode: EnforcementMode, v: Verdict) -> (r: Verdict)
    ensures
        (final(ctx)@, r@) == spec_fold_if_transform(old(ctx)@, mode, v@),
{
    if v.decision == Decision::Transform {
        fold_transform(ctx, mode, v)
    } else {
        v
    }
}

/// Whether a verdict goes to the approval seam: it is liftable, the mode
/// is `enforce`, the point is not `agent_shutdown`, and a resolver is
/// registered.
pub open spec fn spec_needs_consult(v: VerdictView, mode: EnforcementMode, ctx: Entries, has_resolver: bool) -> bool {
    &&& spec_liftable(v)
    &&& mode is Enforce
    &&& view_str(map_get(ctx, "interception_point"@)) != Some("agent_shutdown"@)
    &&& has_resolver
}

/// Whether the seam is consulted for `v`.
pub fn needs_consult(v: &Verdict, mode: EnforcementMode, ctx: &JsonMap, has_resolver: bool) -> (r: bool)
    ensures
        r == spec_needs_consult(v@, mode, ctx@, has_resolver),
{
    if !v.is_liftable() || mode != EnforcementMode::Enforce {
        return false;
    }
    let at_shutdown = match ctx.get("interception_point") {
        Some(JsonValue::String(s)) => str_eq(s.as_str(), "agent_shutdown"),
        _ => false,
    };
    !at_shutdown && has_resolver
}

/// What a resolution amounts to: the substituting verdict and whether it
/// permits. The identity must be echoed byte for byte, the resolution must
/// be resolved with a valid verdict, `approve` must carry a
/// permit and `reject` a deny; any breach is the matching failure deny.
pub open spec fn spec_judge(
    identity: Option<Seq<char>>,
    outcome: ApprovalOutcome,
    echoed: Option<Seq<char>>,
    verdict: Option<VerdictView>,
) -> (VerdictView, bool) {
    if echoed != identity {
        (host_error_view(HostError::ApprovalIdentityMismatch, None), false)
    } else {
        match verdict {
            None => (host_error_view(HostError::ApprovalUnresolved, None), false),
            Some(rv) => if outcome is Unresolved {
                (host_error_view(HostError::ApprovalUnresolved, None), false)
            } else if !verdict_valid(rv) {
                (host_error_view(HostError::VerdictInvalid, None), false)
            } else if outcome is Approve {
                if spec_permits(rv.decision) {
                    (rv, true)
                } else {
                    (host_error_view(HostError::VerdictInvalid, None), false)
                }
            } else if rv.decision is Deny {
                (rv, false)
            } else {
                (host_error_view(HostError::VerdictInvalid, None), false)
            },
        }
    }
}

/// The view of an optional verdict.
pub open spec fn opt_verdict_view(v: Option<Verdict>) -> Option<VerdictView> {
    match v {
        Some(x) => Some(x@),
        None => None,
    }
}

/// Judge a resolver's answer to a request that carried `identity`.
pub fn judge_resolution(identity: &Option<String>, res: ApprovalResolution) -> (r: Consultation)
    ensures
        r matches Consultation::Substituted { verdict, permitted } && (verdict@, permitted) == spec_judge(
            crate::types::opt_str_view(*identity),
            res.outcome,
            crate::types::opt_str_view(res.context_identity),
            opt_verdict_view(res.verdict),
        ),
{
    let fail = |e: HostError| -> (c: Consultation)
        ensures
            c matches Consultation::Substituted { verdict, permitted } && verdict@ == host_error_view(e, None) && !permitted,
    { Consultation::Substituted { verdict: Verdict::host_error(e, None), permitted: false } };
    let echoed = match (&res.context_identity, identity) {
        (Some(a), Some(b)) => str_eq(a.as_str(), b.as_str()),
        (None, None) => true,
        _ => false,
    };
    if !echoed {
        return fail(HostError::ApprovalIdentityMismatch);
    }
    let rv = match res.verdict {
        Some(rv) => rv,
        None => return fail(HostError::ApprovalUnresolved),
    };
    if res.outcome == ApprovalOutcome::Unresolved {
        return fail(HostError::ApprovalUnresolved);
    }
    if rv.validate().is_err() {
        return fail(HostError::VerdictInvalid);
    }
    let permitted = match res.outcome {
        ApprovalOutcome::Approve => {
            if !rv.decision.permits() {
                return fail(HostError::VerdictInvalid);
            }
            true
        },
        _ => {
            if rv.decision != Decision::Deny {
                return fail(HostError::VerdictInvalid);
            }
            false
        },
    };
    Consultation::Substituted { verdict: rv, permitted }
}

/// A resolution permits only as an `approve` that echoed the request's
/// identity and carries a valid permit verdict; every other resolution
/// leaves a deny standing.
pub proof fn law_resolution_permits_only_on_valid_approve(
    identity: Option<Seq<char>>,
    outcome: ApprovalOutcome,
    echoed: Option<Seq<char>>,
    verdict: Option<VerdictView>,
)
    ensures
        ({
            let j = spec_judge(identity, outcome, echoed, verdict);
            &&& j.1 <==> (outcome is Approve && echoed == identity && (verdict matches Some(rv) && verdict_valid(rv) && spec_permits(rv.decision)))
            &&& j.1 ==> spec_permits(j.0.decision)
            &&& !j.1 ==> j.0.decision is Deny
            &&& echoed != identity ==> j.0 == host_error_view(HostError::ApprovalIdentityMismatch, None)
        }),
{
}


// ---- sequential/first_deny ------------------------------------------------------------

/// What the host does after a step.
#[derive(Debug)]
pub enum FoldStep {
    /// Call the next interceptor.
    Continue,
    /// Consult the approval seam with this liftable deny, then report the
    /// consultation.
    Consult(Verdict),
    /// The dispatch is over.
    Done(DispatchOutcome),
}

/// The `sequential/first_deny` fold: transforms fold through into the
/// context, the first deny short-circuits, and a liftable deny consults
/// the seam, after which a permit resolution either ends the emission
/// (`stop`) or substitutes and lets the fold continue (`resume`).
#[derive(Debug)]
pub struct FirstDenyFold {
    /// Interceptors registered.
    pub count: usize,
    pub on_approval: OnApproval,
    /// One gated verdict per invoked interceptor, in registration order.
    pub per_interceptor: Vec<Verdict>,
    /// Every verdict seen, substituted resolutions included (for the unions).
    pub pool: Vec<Verdict>,
    /// The latest applied transform and its interceptor.
    pub last_transform: Option<(u32, Verdict)>,
    pub resolved_by: Option<&'static str>,
}

/// The `on_approval` knob, `stop` by default.
pub open spec fn approval_knob(k: Option<OnApproval>) -> OnApproval {
    match k {
        Some(a) => a,
        None => OnApproval::Stop,
    }
}

impl FirstDenyFold {
    /// A fold over `count` interceptors.
    pub fn new(count: usize, on_approval: Option<OnApproval>) -> (r: Self)
        ensures
            r.count == count,
            r.on_approval == approval_knob(on_approval),
            r.per_interceptor@.len() == 0,
            r.pool@.len() == 0,
            r.last_transform is None,
            r.resolved_by is None,
    {
        FirstDenyFold {
            count,
            on_approval: match on_approval {
                Some(a) => a,
                None => OnApproval::Stop,
            },
            per_interceptor: Vec::new(),
            pool: Vec::new(),
            last_transform: None,
            resolved_by: None,
        }
    }

    fn stop_at(&self, combined: Verdict, decided_by: Option<u32>) -> (r: DispatchOutcome)
        requires
            self.per_interceptor@.len() > 0,
        ensures
            outcome_is(r, combined@, decided_by, self.per_interceptor@,
                Some(self.per_interceptor@.len() < self.count), self.resolved_by),
    {
        DispatchOutcome {
            combined,
            decided_by,
            verdicts: summaries_of(&self.per_interceptor),
            fold_truncated: Some(self.per_interceptor.len() < self.count),
            resolved_by: self.resolved_by,
        }
    }

    /// Fold the gated verdict of the next interceptor.
    pub fn on_verdict(&mut self, ctx: &mut JsonMap, mode: EnforcementMode, has_resolver: bool, v: Verdict) -> (r: FoldStep)
        requires
            old(self).per_interceptor@.len() < old(self).count,
            old(self).count <= u32::MAX,
        ensures
            final(self).count == old(self).count,
            final(self).on_approval == old(self).on_approval,
            final(self).resolved_by == old(self).resolved_by,
            final(self).per_interceptor@.drop_last() == old(self).per_interceptor@,
            final(self).per_interceptor@.len() == old(self).per_interceptor@.len() + 1,
            final(self).per_interceptor@.last()@ == v@,
            final(self).per_interceptor@.last().decision == v.decision,
            final(self).per_interceptor@.last().reason == v.reason,
            final(self).pool@.drop_last() == old(self).pool@,
            final(self).pool@.len() == old(self).pool@.len() + 1,
            final(self).pool@.last()@ == v@,
            ({
                let i = old(self).per_interceptor@.len();
                let trunc = Some(i + 1 < old(self).count);
                let per = final(self).per_interceptor@;
                let pool = views(final(self).pool@);
                if spec_host_synthesized(v@) {
                    &&& final(ctx)@ == old(ctx)@
                    &&& final(self).last_transform == old(self).last_transform
                    &&& r matches FoldStep::Done(o) && outcome_is(o, spec_with_unions(v@, pool), Some(i as u32), per, trunc, old(self).resolved_by)
                } else if v.decision is Deny {
                    &&& final(ctx)@ == old(ctx)@
                    &&& final(self).last_transform == old(self).last_transform
                    &&& if spec_needs_consult(v@, mode, old(ctx)@, has_resolver) {
                        r matches FoldStep::Consult(c) && c@ == v@
                    } else {
                        r matches FoldStep::Done(o) && outcome_is(o, spec_with_unions(v@, pool), Some(i as u32), per, trunc, old(self).resolved_by)
                    }
                } else if v.decision is Transform {
                    let f = spec_fold(old(ctx)@, mode, v@);
                    &&& final(ctx)@ == f.0
                    &&& if spec_permits(f.1.decision) {
                        &&& r is Continue
                        &&& final(self).last_transform matches Some(lt) && lt.0 == i && lt.1@ == f.1
                    } else {
                        &&& final(self).last_transform == old(self).last_transform
                        &&& r matches FoldStep::Done(o) && outcome_is(o, f.1, None, per, trunc, old(self).resolved_by)
                    }
                } else {
                    &&& final(ctx)@ == old(ctx)@
                    &&& final(self).last_transform == old(self).last_transform
                    &&& r is Continue
                }
            }),
    {
        let idx = self.per_interceptor.len() as u32;
        self.per_interceptor.push(v.clone());
        self.pool.push(v.clone());
        if is_host_synthesized(&v) {
            let c = with_unions(v, &self.pool);
            return FoldStep::Done(self.stop_at(c, Some(idx)));
        }
        match v.decision {
            Decision::Deny => {
                if needs_consult(&v, mode, ctx, has_resolver) {
                    FoldStep::Consult(v)
                } else {
                    let c = with_unions(v, &self.pool);
                    FoldStep::Done(self.stop_at(c, Some(idx)))
                }
            },
            Decision::Transform => {
                let f = fold_transform(ctx, mode, v);
                if !f.decision.permits() {
                    return FoldStep::Done(self.stop_at(f, None));
                }
                self.last_transform = Some((idx, f));
                FoldStep::Continue
            },
            Decision::Allow => FoldStep::Continue,
        }
    }

    /// Fold the consultation of the seam for the deny of the latest
    /// interceptor.
    pub fn on_consultation(&mut self, ctx: &mut JsonMap, mode: EnforcementMode, c: Consultation) -> (r: FoldStep)
        requires
            old(self).per_interceptor@.len() > 0,
            old(self).per_interceptor@.len() <= old(self).count,
            old(self).count <= u32::MAX,
        ensures
            final(self).count == old(self).count,
            final(self).on_approval == old(self).on_approval,
            final(self).per_interceptor == old(self).per_interceptor,
            ({
                let per = old(self).per_interceptor@;
                let i = per.len() - 1;
                let trunc = Some(i + 1 < old(self).count);
                let old_pool = views(old(self).pool@);
                match c {
                    Consultation::NotConsulted => {
                        &&& final(ctx)@ == old(ctx)@
                        &&& final(self).pool == old(self).pool
                        &&& final(self).last_transform == old(self).last_transform
                        &&& final(self).resolved_by == old(self).resolved_by
                        &&& r matches FoldStep::Done(o) && outcome_is(o, spec_with_unions(per[i]@, old_pool), Some(i as u32), per, trunc, old(self).resolved_by)
                    },
                    Consultation::Substituted { verdict, permitted } => {
                        let rb = if permitted {
                            Some("approval")
                        } else {
                            Some("rejection")
                        };
                        &&& final(self).resolved_by == rb
                        &&& if !permitted {
                            &&& final(ctx)@ == old(ctx)@
                            &&& final(self).pool == old(self).pool
                            &&& final(self).last_transform == old(self).last_transform
                            &&& r matches FoldStep::Done(o) && outcome_is(o, spec_with_unions(verdict@, old_pool),
                                if spec_host_synthesized(verdict@) { None } else { Some(i as u32) }, per, trunc, rb)
                        } else {
                            let f = spec_fold_if_transform(old(ctx)@, mode, verdict@);
                            &&& final(ctx)@ == f.0
                            &&& if !spec_permits(f.1.decision) {
                                &&& final(self).pool == old(self).pool
                                &&& final(self).last_transform == old(self).last_transform
                                &&& r matches FoldStep::Done(o) && outcome_is(o, f.1, None, per, trunc, rb)
                            } else {
                                &&& final(self).pool@.drop_last() == old(self).pool@
                                &&& final(self).pool@.len() == old(self).pool@.len() + 1
                                &&& final(self).pool@.last()@ == f.1
                                &&& match old(self).on_approval {
                                    OnApproval::Stop => {
                                        &&& final(self).last_transform == old(self).last_transform
                                        &&& r matches FoldStep::Done(o) && outcome_is(o, spec_with_unions(f.1, views(final(self).pool@)), Some(i as u32), per, trunc, rb)
                                    },
                                    OnApproval::Resume => {
                                        &&& r is Continue
                                        &&& if f.1.decision is Transform {
                                            final(self).last_transform matches Some(lt) && lt.0 == i && lt.1@ == f.1
                                        } else {
                                            final(self).last_transform == old(self).last_transform
                                        }
                                    },
                                }
                            }
                        }
                    },
                }
            }),
    {
        let i = self.per_interceptor.len() - 1;
        let idx = i as u32;
        match c {
            Consultation::NotConsulted => {
                let v = self.per_interceptor[i].clone();
                let c = with_unions(v, &self.pool);
                FoldStep::Done(self.stop_at(c, Some(idx)))
            },
            Consultation::Substituted { verdict, permitted } => {
                self.resolved_by = Some(if permitted { "approval" } else { "rejection" });
                if !permitted {
                    let synthesized = is_host_synthesized(&verdict);
                    let c = with_unions(verdict, &self.pool);
                    return FoldStep::Done(self.stop_at(c, if synthesized { None } else { Some(idx) }));
                }
                let sub = fold_if_transform(ctx, mode, verdict);
                if !sub.decision.permits() {
                    return FoldStep::Done(self.stop_at(sub, None));
                }
                self.pool.push(sub.clone());
                match self.on_approval {
                    OnApproval::Stop => {
                        let c = with_unions(sub, &self.pool);
                        FoldStep::Done(self.stop_at(c, Some(idx)))
                    },
                    OnApproval::Resume => {
                        if sub.decision == Decision::Transform {
                            self.last_transform = Some((idx, sub));
                        }
                        FoldStep::Continue
                    },
                }
            },
        }
    }

    /// The outcome once every interceptor ran without a standing deny: the
    /// latest transform (attributed to its interceptor), else `allow`.
    pub fn finish(self) -> (r: DispatchOutcome)
        requires
            self.per_interceptor@.len() == self.count,
        ensures
            match self.last_transform {
                Some(lt) => outcome_is(r, spec_with_unions(lt.1@, views(self.pool@)), Some(lt.0), self.per_interceptor@, Some(false), self.resolved_by),
                None => outcome_is(r, spec_with_unions(crate::types::allow_view(), views(self.pool@)), None, self.per_interceptor@, Some(false), self.resolved_by),
            },
    {
        let verdicts = summaries_of(&self.per_interceptor);
        let (combined, decided_by) = match self.last_transform {
            Some((idx, v)) => (v, Some(idx)),
            None => (Verdict::allow(), None),
        };
        DispatchOutcome {
            combined: with_unions(combined, &self.pool),
            decided_by,
            verdicts,
            fold_truncated: Some(false),
            resolved_by: self.resolved_by,
        }
    }
}


// ---- sequential/run_all -----------------------------------------------------------------

/// Fold the gated verdict of the next interceptor under
/// `sequential/run_all`: a transform folds through (a failing one stops
/// the dispatch with its failure deny); every verdict is kept for the
/// aggregation.
pub fn run_all_step(ctx: &mut JsonMap, mode: EnforcementMode, all: &mut Vec<Verdict>, v: Verdict) -> (r: Option<DispatchOutcome>)
    ensures
        if v.decision is Transform {
            let f = spec_fold(old(ctx)@, mode, v@);
            &&& final(ctx)@ == f.0
            &&& final(all)@.drop_last() == old(all)@
            &&& final(all)@.len() == old(all)@.len() + 1
            &&& final(all)@.last()@ == f.1
            &&& if spec_permits(f.1.decision) {
                r is None
            } else {
                r matches Some(o) && outcome_is(o, f.1, None, final(all)@, None, None)
            }
        } else {
            &&& final(ctx)@ == old(ctx)@
            &&& final(all)@ == old(all)@.push(v)
            &&& r is None
        },
{
    if v.decision == Decision::Transform {
        let folded = fold_transform(ctx, mode, v);
        if !folded.decision.permits() {
            all.push(folded.clone());
            return Some(DispatchOutcome {
                combined: folded,
                decided_by: None,
                verdicts: summaries_of(all),
                fold_truncated: None,
                resolved_by: None,
            });
        }
        all.push(folded);
        None
    } else {
        all.push(v);
        None
    }
}

// ---- aggregation -------------------------------------------------------------------------

/// A liftable deny awaiting the seam, with what the outcome needs after it.
#[derive(Debug)]
pub struct PendingConsult {
    /// The liftable deny presented to the seam.
    pub liftable: Verdict,
    /// Every gated verdict, index-aligned with registration.
    pub all: Vec<Verdict>,
    /// The winning interceptor, or `None` for a host-synthesized deny.
    pub winner: Option<u32>,
    pub resolved_by: Option<&'static str>,
}

/// What the host does after an aggregation.
#[derive(Debug)]
pub enum AggregateStep {
    Done(DispatchOutcome),
    /// Consult the seam with `pending.liftable`, then resume.
    Consult(PendingConsult),
}

/// `[i, j, …]`, the indices joined by `", "`.
pub open spec fn index_list(s: Seq<int>) -> Seq<char> {
    "["@ + index_join(s) + "]"@
}

/// The indices in decimal, joined by `", "`.
pub open spec fn index_join(s: Seq<int>) -> Seq<char>
    decreases s.len(),
{
    if s.len() == 0 {
        Seq::empty()
    } else if s.len() == 1 {
        crate::jcs::decimal(s[0] as nat)
    } else {
        index_join(s.drop_last()) + ", "@ + crate::jcs::decimal(s.last() as nat)
    }
}

/// The detail of a transform conflict.
pub open spec fn conflict_detail(idxs: Seq<int>) -> Seq<char> {
    "conflicting transforms from interceptors "@ + index_list(idxs)
}

/// The detail of a disagreement under `parallel/unanimous`.
pub open spec fn disagreement_detail() -> Seq<char> {
    "non-unanimous outcome under parallel/unanimous"@
}

pub(crate) fn conflict_message(idxs: &Vec<usize>) -> (r: String)
    ensures
        r@ == conflict_detail(idxs@.map_values(|x: usize| x as int)),
{
    let ghost s = idxs@.map_values(|x: usize| x as int);
    let mut d = to_owned("conflicting transforms from interceptors ");
    crate::text::push_str(&mut d, "[");
    let ghost d0 = d@;
    let n = idxs.len();
    for k in 0..n
        invariant
            n == idxs@.len(),
            s == idxs@.map_values(|x: usize| x as int),
            d@ == d0 + index_join(s.take(k as int)),
    {
        proof {
            assert(s.take(k + 1).drop_last() =~= s.take(k as int));
        }
        if k > 0 {
            crate::text::push_str(&mut d, ", ");
        }
        crate::jcs::write_decimal(idxs[k] as u64, &mut d);
        proof {
            if k == 0 {
                assert(s.take(k as int) =~= Seq::<int>::empty());
            }
            assert(d@ =~= d0 + index_join(s.take(k + 1)));
        }
    }
    assert(s.take(n as int) =~= s);
    crate::text::push_str(&mut d, "]");
    assert(d@ =~= "conflicting transforms from interceptors "@ + ("["@ + index_join(s) + "]"@));
    d
}

/// A host-synthesized deny under synthesis `policy` (`deny` by default):
/// plain, or liftable for the seam.
pub open spec fn synthesized_view(err: HostError, detail: Seq<char>, policy: Option<SynthesisPolicy>) -> VerdictView {
    match policy {
        Some(SynthesisPolicy::Approval) => host_error_liftable_view(err, Some(detail)),
        _ => host_error_view(err, Some(detail)),
    }
}

pub(crate) fn synthesize(err: HostError, detail: String, policy: Option<SynthesisPolicy>) -> (r: Verdict)
    ensures
        r@ == synthesized_view(err, detail@, policy),
{
    match policy {
        Some(SynthesisPolicy::Approval) => Verdict::host_error_liftable(err, Some(detail)),
        _ => Verdict::host_error(err, Some(detail)),
    }
}

/// `step` stops with `combined` (no attribution) unless it is a liftable
/// deny the seam must see.
pub open spec fn synthesized_step(
    step: AggregateStep,
    combined: VerdictView,
    ctx: Entries,
    mode: EnforcementMode,
    has_resolver: bool,
    all: Vec<Verdict>,
    resolved_by: Option<&'static str>,
) -> bool {
    if spec_needs_consult(combined, mode, ctx, has_resolver) {
        step matches AggregateStep::Consult(p) && p.liftable@ == combined && p.all == all && p.winner is None && p.resolved_by == resolved_by
    } else {
        step matches AggregateStep::Done(o) && outcome_is(o, spec_with_unions(combined, views(all@)), None, all@, None, resolved_by)
    }
}

fn synthesized_plan(
    ctx: &JsonMap,
    mode: EnforcementMode,
    has_resolver: bool,
    v: Verdict,
    all: Vec<Verdict>,
    resolved_by: Option<&'static str>,
) -> (r: AggregateStep)
    ensures
        synthesized_step(r, v@, ctx@, mode, has_resolver, all, resolved_by),
{
    if needs_consult(&v, mode, ctx, has_resolver) {
        AggregateStep::Consult(PendingConsult { liftable: v, all, winner: None, resolved_by })
    } else {
        let verdicts = summaries_of(&all);
        AggregateStep::Done(DispatchOutcome {
            combined: with_unions(v, &all),
            decided_by: None,
            verdicts,
            fold_truncated: None,
            resolved_by,
        })
    }
}

/// Severity-max aggregation of every gated verdict (`sequential/run_all`
/// and `parallel/strictest`): the winner decides; a liftable winning deny
/// goes to the seam; a transform conflict (parallel) is synthesized under
/// the `on_transform_conflict` knob; a parallel winning transform is
/// applied now (sequential ones already folded during dispatch).
pub fn aggregate_plan(
    ctx: &mut JsonMap,
    mode: EnforcementMode,
    has_resolver: bool,
    all: Vec<Verdict>,
    sequential: bool,
    resolved_by: Option<&'static str>,
    on_transform_conflict: Option<SynthesisPolicy>,
) -> (r: AggregateStep)
    requires
        all@.len() > 0,
        all@.len() <= u32::MAX,
    ensures
        match spec_aggregate(views(all@), sequential) {
            AggregateView::TransformConflict(idxs) => {
                &&& final(ctx)@ == old(ctx)@
                &&& synthesized_step(r, synthesized_view(HostError::TransformConflict, conflict_detail(idxs), on_transform_conflict),
                    old(ctx)@, mode, has_resolver, all, resolved_by)
            },
            AggregateView::Winner(i) => {
                let w = all@[i]@;
                match w.decision {
                    Decision::Deny => {
                        &&& final(ctx)@ == old(ctx)@
                        &&& if spec_needs_consult(w, mode, old(ctx)@, has_resolver) {
                            r matches AggregateStep::Consult(p) && p.liftable@ == w && p.all == all && p.winner == Some(i as u32) && p.resolved_by == resolved_by
                        } else {
                            r matches AggregateStep::Done(o) && outcome_is(o, spec_with_unions(w, views(all@)), Some(i as u32), all@, None, resolved_by)
                        }
                    },
                    Decision::Transform => if sequential {
                        &&& final(ctx)@ == old(ctx)@
                        &&& r matches AggregateStep::Done(o) && outcome_is(o, spec_with_unions(w, views(all@)), Some(i as u32), all@, None, resolved_by)
                    } else {
                        let f = spec_fold(old(ctx)@, mode, w);
                        &&& final(ctx)@ == f.0
                        &&& if spec_permits(f.1.decision) {
                            r matches AggregateStep::Done(o) && outcome_is(o, spec_with_unions(f.1, views(all@)), Some(i as u32), all@, None, resolved_by)
                        } else {
                            r matches AggregateStep::Done(o) && outcome_is(o, f.1, None, all@, None, resolved_by)
                        }
                    },
                    Decision::Allow => {
                        &&& final(ctx)@ == old(ctx)@
                        &&& r matches AggregateStep::Done(o) && outcome_is(o, spec_with_unions(crate::types::allow_view(), views(all@)), None, all@, None, resolved_by)
                    },
                }
            },
        },
{
    proof {
        crate::composition::law_aggregate_strictest(views(all@), sequential);
    }
    match aggregate_strictest(&all, sequential) {
        Aggregate::TransformConflict(idxs) => {
            let detail = conflict_message(&idxs);
            let v = synthesize(HostError::TransformConflict, detail, on_transform_conflict);
            synthesized_plan(ctx, mode, has_resolver, v, all, resolved_by)
        },
        Aggregate::Winner(i) => {
            let idx = i as u32;
            let winner = all[i].clone();
            match winner.decision {
                Decision::Deny => {
                    if needs_consult(&winner, mode, ctx, has_resolver) {
                        AggregateStep::Consult(PendingConsult { liftable: winner, all, winner: Some(idx), resolved_by })
                    } else {
                        let verdicts = summaries_of(&all);
                        AggregateStep::Done(DispatchOutcome {
                            combined: with_unions(winner, &all),
                            decided_by: Some(idx),
                            verdicts,
                            fold_truncated: None,
                            resolved_by,
                        })
                    }
                },
                Decision::Transform => {
                    let verdicts = summaries_of(&all);
                    let winner = if sequential {
                        winner
                    } else {
                        let folded = fold_transform(ctx, mode, winner);
                        if !folded.decision.permits() {
                            return AggregateStep::Done(DispatchOutcome {
                                combined: folded,
                                decided_by: None,
                                verdicts,
                                fold_truncated: None,
                                resolved_by,
                            });
                        }
                        folded
                    };
                    AggregateStep::Done(DispatchOutcome {
                        combined: with_unions(winner, &all),
                        decided_by: Some(idx),
                        verdicts,
                        fold_truncated: None,
                        resolved_by,
                    })
                },
                Decision::Allow => {
                    let verdicts = summaries_of(&all);
                    AggregateStep::Done(DispatchOutcome {
                        combined: with_unions(Verdict::allow(), &all),
                        decided_by: None,
                        verdicts,
                        fold_truncated: None,
                        resolved_by,
                    })
                },
            }
        },
    }
}

/// `parallel/unanimous`: anything but a unanimous allow is a disagreement,
/// synthesized under the `on_disagreement` knob.
pub fn unanimous_plan(
    ctx: &JsonMap,
    mode: EnforcementMode,
    has_resolver: bool,
    all: Vec<Verdict>,
    on_disagreement: Option<SynthesisPolicy>,
) -> (r: AggregateStep)
    ensures
        if spec_unanimous_allow(views(all@)) {
            r matches AggregateStep::Done(o) && outcome_is(o, spec_with_unions(crate::types::allow_view(), views(all@)), None, all@, None, None)
        } else {
            synthesized_step(r, synthesized_view(HostError::CompositionDisagreement, disagreement_detail(), on_disagreement),
                ctx@, mode, has_resolver, all, None)
        },
{
    if is_unanimous_allow(&all) {
        let verdicts = summaries_of(&all);
        return AggregateStep::Done(DispatchOutcome {
            combined: with_unions(Verdict::allow(), &all),
            decided_by: None,
            verdicts,
            fold_truncated: None,
            resolved_by: None,
        });
    }
    let v = synthesize(HostError::CompositionDisagreement, to_owned("non-unanimous outcome under parallel/unanimous"), on_disagreement);
    synthesized_plan(ctx, mode, has_resolver, v, all, None)
}

/// Attribution after a consultation: a synthesized deny is never
/// attributed; a winner's is, unless a failure deny replaced it.
pub open spec fn resumed_decided_by(winner: Option<u32>, permitted: bool, synthesized: bool) -> Option<u32> {
    match winner {
        None => None,
        Some(idx) => if synthesized && !permitted {
            None
        } else {
            Some(idx)
        },
    }
}

/// Finish an aggregation after its consultation: an unconsulted deny
/// stands; a permit resolution substitutes (its transform folded, and the
/// unions taken over the verdicts and the resolution); any other
/// resolution's deny stands.
pub fn resume_aggregate(ctx: &mut JsonMap, mode: EnforcementMode, p: PendingConsult, c: Consultation) -> (r: DispatchOutcome)
    ensures
        ({
            let pool = views(p.all@);
            match c {
                Consultation::NotConsulted => {
                    &&& final(ctx)@ == old(ctx)@
                    &&& outcome_is(r, spec_with_unions(p.liftable@, pool), p.winner, p.all@, None, p.resolved_by)
                },
                Consultation::Substituted { verdict, permitted } => {
                    let rb = if permitted {
                        Some("approval")
                    } else {
                        Some("rejection")
                    };
                    let dby = resumed_decided_by(p.winner, permitted, spec_host_synthesized(verdict@));
                    if permitted {
                        let f = spec_fold_if_transform(old(ctx)@, mode, verdict@);
                        &&& final(ctx)@ == f.0
                        &&& outcome_is(r, if spec_permits(f.1.decision) {
                            spec_with_unions(f.1, pool.push(f.1))
                        } else {
                            f.1
                        }, dby, p.all@, None, rb)
                    } else {
                        &&& final(ctx)@ == old(ctx)@
                        &&& outcome_is(r, spec_with_unions(verdict@, pool), dby, p.all@, None, rb)
                    }
                },
            }
        }),
{
    let verdicts = summaries_of(&p.all);
    match c {
        Consultation::NotConsulted => DispatchOutcome {
            combined: with_unions(p.liftable, &p.all),
            decided_by: p.winner,
            verdicts,
            fold_truncated: None,
            resolved_by: p.resolved_by,
        },
        Consultation::Substituted { verdict, permitted } => {
            let resolved_by: Option<&'static str> = Some(if permitted { "approval" } else { "rejection" });
            let synthesized = is_host_synthesized(&verdict);
            let decided_by = match p.winner {
                None => None,
                Some(idx) => if synthesized && !permitted {
                    None
                } else {
                    Some(idx)
                },
            };
            let combined = if permitted {
                let sub = fold_if_transform(ctx, mode, verdict);
                if sub.decision.permits() {
                    let mut pool = clone_verdicts(&p.all);
                    pool.push(sub.clone());
                    proof {
                        assert(views(pool@) =~= views(p.all@).push(sub@));
                    }
                    with_unions(sub, &pool)
                } else {
                    sub
                }
            } else {
                with_unions(verdict, &p.all)
            };
            DispatchOutcome { combined, decided_by, verdicts, fold_truncated: None, resolved_by }
        },
    }
}

proof fn lemma_views_push(s: Seq<Verdict>, x: Verdict)
    ensures
        views(s.push(x)) == views(s).push(x@),
{
    assert(views(s.push(x)) =~= views(s).push(x@));
}

fn clone_verdicts(vs: &Vec<Verdict>) -> (r: Vec<Verdict>)
    ensures
        views(r@) == views(vs@),
{
    let mut out: Vec<Verdict> = Vec::new();
    let n = vs.len();
    for i in 0..n
        invariant
            n == vs@.len(),
            views(out@) == views(vs@.take(i as int)),
    {
        let ghost before = out@;
        out.push(vs[i].clone());
        proof {
            assert(vs@.take(i + 1).drop_last() =~= vs@.take(i as int));
            lemma_views_push(before, out@.last());
            lemma_views_push(vs@.take(i as int), vs@[i as int]);
            assert(out@ == before.push(out@.last()));
            assert(vs@.take(i + 1) == vs@.take(i as int).push(vs@[i as int]));
        }
    }
    assert(vs@.take(n as int) =~= vs@);
    out
}


// ---- the record of an emission ------------------------------------------------------

/// No transform can have changed the context since the input identity was
/// computed: `evaluate_only` never applies one; under `enforce`, no
/// consultation substituted and neither the combined verdict nor any
/// interceptor's is a transform.
pub open spec fn spec_unchanged_since_input(mode: EnforcementMode, o: DispatchOutcome) -> bool {
    mode is EvaluateOnly || (o.resolved_by is None && !(o.combined.decision is Transform) && forall|i: int|
        0 <= i < o.verdicts@.len() ==> !((#[trigger] o.verdicts@[i]).decision is Transform))
}

/// Whether the context cannot have changed since the input identity.
pub fn unchanged_since_input(mode: EnforcementMode, o: &DispatchOutcome) -> (r: bool)
    ensures
        r == spec_unchanged_since_input(mode, *o),
{
    if mode == EnforcementMode::EvaluateOnly {
        return true;
    }
    if o.resolved_by.is_some() || o.combined.decision == Decision::Transform {
        return false;
    }
    let n = o.verdicts.len();
    for i in 0..n
        invariant
            n == o.verdicts@.len(),
            !(mode is EvaluateOnly),
            forall|j: int| 0 <= j < i ==> !((#[trigger] o.verdicts@[j]).decision is Transform),
    {
        if o.verdicts[i].decision == Decision::Transform {
            assert(o.verdicts@[i as int].decision is Transform);
            return false;
        }
    }
    true
}

/// The record metadata of an emission and its combined verdict.
pub fn emission_meta(
    o: DispatchOutcome,
    mode: EnforcementMode,
    input_identity: Option<String>,
    identity_provider: Option<String>,
    enforced_identity: Option<String>,
    composition: CompositionConfig,
    interceptors_registered: u32,
) -> (r: (FinalizeMeta, Verdict))
    ensures
        r.1 == o.combined,
        r.0.input_identity == input_identity,
        r.0.identity_provider == identity_provider,
        r.0.enforced_identity == enforced_identity,
        !r.0.jcs_input_rejected,
        r.0.unchanged_since_input == spec_unchanged_since_input(mode, o),
        r.0.decided_by == o.decided_by,
        r.0.composition == composition,
        r.0.verdicts == o.verdicts,
        r.0.fold_truncated == o.fold_truncated,
        r.0.resolved_by == o.resolved_by,
        r.0.interceptors_registered == interceptors_registered,
{
    let unchanged = unchanged_since_input(mode, &o);
    let meta = FinalizeMeta {
        input_identity,
        identity_provider,
        enforced_identity,
        jcs_input_rejected: false,
        unchanged_since_input: unchanged,
        decided_by: o.decided_by,
        composition,
        verdicts: o.verdicts,
        fold_truncated: o.fold_truncated,
        resolved_by: o.resolved_by,
        interceptors_registered,
    };
    (meta, o.combined)
}

/// The in-memory record buffer of a session, optionally bounded.
#[derive(Debug)]
pub struct RecordBuffer {
    pub records: Vec<crate::types::InterceptionRecord>,
    /// When full, the oldest record is dropped.
    pub max_records: Option<usize>,
    /// Records evicted by the bound.
    pub dropped: u64,
}

/// How many records a delivery evicts from a buffer of `len` records.
pub open spec fn evictions(len: nat, max_records: Option<usize>) -> nat {
    match max_records {
        None => 0,
        Some(m) => {
            let cap: nat = if m >= 1 { m as nat } else { 1 };
            if len >= cap {
                (len - cap + 1) as nat
            } else {
                0
            }
        },
    }
}

impl RecordBuffer {
    /// An empty, unbounded buffer.
    pub fn new() -> (r: Self)
        ensures
            r.records@.len() == 0,
            r.max_records is None,
            r.dropped == 0,
    {
        RecordBuffer { records: Vec::new(), max_records: None, dropped: 0 }
    }

    /// Deliver a record: evict the oldest records while the buffer is full,
    /// keep a copy of `record`, and hand `record` back.
    pub fn deliver(&mut self, record: crate::types::InterceptionRecord) -> (r: crate::types::InterceptionRecord)
        requires
            old(self).dropped + old(self).records@.len() <= u64::MAX,
        ensures
            r == record,
            final(self).max_records == old(self).max_records,
            ({
                let k = evictions(old(self).records@.len(), old(self).max_records);
                &&& final(self).dropped == old(self).dropped + k
                &&& final(self).records@.drop_last() == old(self).records@.skip(k as int)
                &&& final(self).records@.len() == old(self).records@.len() - k + 1
                &&& crate::types::same_record(final(self).records@.last(), record)
            }),
    {
        let ghost old_records = self.records@;
        let ghost k = evictions(old_records.len(), self.max_records);
        match self.max_records {
            Some(max) => {
                let cap: usize = if max >= 1 { max } else { 1 };
                let ghost start = self.dropped;
                while self.records.len() >= cap
                    invariant
                        cap >= 1,
                        cap == (if max >= 1 { max as nat } else { 1nat }),
                        self.max_records == Some(max),
                        self.records@.len() <= old_records.len(),
                        self.dropped == start + (old_records.len() - self.records@.len()),
                        start + old_records.len() <= u64::MAX,
                        self.records@ == old_records.skip(old_records.len() - self.records@.len()),
                        old_records.len() >= cap ==> self.records@.len() >= cap - 1,
                        old_records.len() < cap ==> self.records@.len() == old_records.len(),
                        k == evictions(old_records.len(), Some(max)),
                    decreases self.records@.len(),
                {
                    let ghost before = self.records@;
                    self.records.remove(0);
                    self.dropped = self.dropped + 1;
                    assert(self.records@ =~= old_records.skip(old_records.len() - self.records@.len()));
                }
            },
            None => {
                assert(old_records.skip(0) =~= old_records);
            },
        }
        assert(self.records@.len() == old_records.len() - k);
        assert(self.records@ == old_records.skip(k as int));
        self.records.push(record.clone());
        record
    }
}

/// Envelope facts for a host projection failure: what the host still
/// knows of an emission whose context it could not construct. Absent
/// members record the unknown values (`session_id: ""`, `sequence: -1`,
/// `timestamp` absent).
#[derive(Debug, Default)]
pub struct HostFailure {
    /// Payload-free failure detail (a type name or a path), recorded as the
    /// verdict message.
    pub detail: Option<String>,
    /// `session.id` of the failed emission.
    pub session_id: Option<String>,
    /// The sequence number the failed emission would have carried.
    pub sequence: Option<i64>,
    /// Event time, when the host has one.
    pub timestamp: Option<String>,
}

/// The JSON number of an `i64`.
pub open spec fn int_view(i: i64) -> crate::json::JView {
    if i >= 0 {
        crate::json::JView::Number(crate::json::JNum::PosInt(i as u64))
    } else {
        crate::json::JView::Number(crate::json::JNum::NegInt(i))
    }
}

/// The partial context a host failure is recorded over: the point, and the
/// session, sequence and timestamp when known. It never carries `spec`, so
/// it never passes the envelope check.
pub open spec fn failure_basis(point: Seq<char>, session_id: Option<Seq<char>>, sequence: Option<i64>, timestamp: Option<Seq<char>>) -> Entries {
    let b0: Entries = seq![("interception_point"@, crate::json::JView::Str(point))];
    let b1 = match session_id {
        Some(s) => crate::json::map_insert(b0, "session"@, crate::json::JView::Object(seq![("id"@, crate::json::JView::Str(s))])),
        None => b0,
    };
    let b2 = match sequence {
        Some(q) => crate::json::map_insert(b1, "sequence"@, int_view(q)),
        None => b1,
    };
    match timestamp {
        Some(t) => crate::json::map_insert(b2, "timestamp"@, crate::json::JView::Str(t)),
        None => b2,
    }
}

/// The partial context of a host failure.
pub fn host_failure_basis(point: crate::types::InterceptionPoint, failure: &HostFailure) -> (r: JsonMap)
    ensures
        r@ == failure_basis(crate::types::ip_name(point), crate::types::opt_str_view(failure.session_id),
            failure.sequence, crate::types::opt_str_view(failure.timestamp)),
{
    let mut basis = JsonMap::new();
    basis.insert(to_owned("interception_point"), JsonValue::String(to_owned(point.as_str())));
    assert(basis@ =~= seq![("interception_point"@, crate::json::JView::Str(crate::types::ip_name(point)))]);
    match &failure.session_id {
        Some(sid) => {
            let mut s = JsonMap::new();
            s.insert(to_owned("id"), JsonValue::String(sid.clone()));
            assert(s@ =~= seq![("id"@, crate::json::JView::Str(sid@))]);
            basis.insert(to_owned("session"), JsonValue::Object(s));
        },
        None => {},
    }
    match failure.sequence {
        Some(q) => {
            let n = if q >= 0 {
                crate::json::JsonNumber::PosInt(q as u64)
            } else {
                crate::json::JsonNumber::NegInt(q)
            };
            basis.insert(to_owned("sequence"), JsonValue::Number(n));
        },
        None => {},
    }
    match &failure.timestamp {
        Some(t) => {
            basis.insert(to_owned("timestamp"), JsonValue::String(t.clone()));
        },
        None => {},
    }
    basis
}

/// The fail-closed record of a host projection failure: the payload-free
/// projection of a `context_invalid` deny carrying the failure detail, no
/// identities under the declared provider, no attribution and no
/// per-interceptor summaries, with the envelope members the host still
/// knows.
pub fn record_host_failure(
    point: crate::types::InterceptionPoint,
    failure: HostFailure,
    identity_provider: Option<String>,
    mode: EnforcementMode,
    composition: CompositionConfig,
    interceptors_registered: u32,
) -> (r: crate::types::InterceptionRecord)
    ensures
        r.interception_point == point,
        r.mode == mode,
        r.verdict@ == crate::enforce::spec_projection(host_error_view(HostError::ContextInvalid, crate::types::opt_str_view(failure.detail))),
        r.verdict.decision is Deny,
        r.input_identity is None,
        r.enforced_identity is None,
        crate::types::opt_str_view(r.identity_provider) == crate::types::opt_str_view(identity_provider),
        r.decided_by is None,
        r.verdicts@.len() == 0,
        r.session_id@ == (match failure.session_id {
            Some(s) => s@,
            None => Seq::<char>::empty(),
        }),
        r.sequence == (match failure.sequence {
            Some(q) => q,
            None => -1i64,
        }),
        crate::types::opt_str_view(r.timestamp) == crate::types::opt_str_view(failure.timestamp),
        r.trace is None,
        r.composition == crate::composition::spec_with_knob_defaults(composition),
        r.fold_truncated is None,
        r.resolved_by is None,
        r.interceptors_registered == interceptors_registered,
{
    let basis = host_failure_basis(point, &failure);
    let ghost b = basis@;
    proof {
        lemma_failure_basis(crate::types::ip_name(point), crate::types::opt_str_view(failure.session_id), failure.sequence,
            crate::types::opt_str_view(failure.timestamp));
        crate::types::lemma_ip_name_roundtrip(point);
    }
    let verdict = Verdict::host_error(HostError::ContextInvalid, failure.detail);
    let meta = FinalizeMeta {
        input_identity: None,
        identity_provider,
        enforced_identity: None,
        jcs_input_rejected: false,
        unchanged_since_input: false,
        decided_by: None,
        composition,
        verdicts: Vec::new(),
        fold_truncated: None,
        resolved_by: None,
        interceptors_registered,
    };
    crate::enforce::finalize(&basis, verdict, mode, meta)
}

proof fn lemma_failure_basis(point: Seq<char>, session_id: Option<Seq<char>>, sequence: Option<i64>, timestamp: Option<Seq<char>>)
    ensures
        ({
            let b = failure_basis(point, session_id, sequence, timestamp);
            &&& map_get(b, "spec"@) is None
            &&& map_get(b, "interception_point"@) == Some(crate::json::JView::Str(point))
            &&& map_get(b, "trace"@) is None
            &&& crate::enforce::session_id_of(b) == (match session_id {
                Some(s) => s,
                None => Seq::<char>::empty(),
            })
            &&& crate::enforce::sequence_of(b) == (match sequence {
                Some(q) => q,
                None => -1i64,
            })
            &&& view_str(map_get(b, "timestamp"@)) == timestamp
        }),
{
    reveal_strlit("spec");
    reveal_strlit("interception_point");
    reveal_strlit("session");
    reveal_strlit("sequence");
    reveal_strlit("timestamp");
    reveal_strlit("trace");
    reveal_strlit("id");
    let b0: Entries = seq![("interception_point"@, crate::json::JView::Str(point))];
    assert(b0[0].0 == "interception_point"@);
    crate::json::lemma_first_index(b0, "spec"@);
    crate::json::lemma_first_index(b0, "trace"@);
    crate::json::lemma_first_index(b0, "session"@);
    crate::json::lemma_first_index(b0, "sequence"@);
    crate::json::lemma_first_index(b0, "timestamp"@);
    crate::json::lemma_first_index_at(b0, "interception_point"@, 0);
    assert("spec"@.len() != "interception_point"@.len());
    assert("trace"@.len() != "interception_point"@.len());
    assert("session"@.len() != "interception_point"@.len());
    assert("sequence"@.len() != "interception_point"@.len());
    assert("timestamp"@.len() != "interception_point"@.len());
    assert(!crate::json::key_at(b0, 0, "spec"@));
    assert(!crate::json::key_at(b0, 0, "trace"@));
    assert(!crate::json::key_at(b0, 0, "session"@));
    assert(!crate::json::key_at(b0, 0, "sequence"@));
    assert(!crate::json::key_at(b0, 0, "timestamp"@));
    let b1 = match session_id {
        Some(s) => crate::json::map_insert(b0, "session"@, crate::json::JView::Object(seq![("id"@, crate::json::JView::Str(s))])),
        None => b0,
    };
    if let Some(s) = session_id {
        let v = crate::json::JView::Object(seq![("id"@, crate::json::JView::Str(s))]);
        crate::json::lemma_map_insert(b0, "session"@, v, "spec"@);
        crate::json::lemma_map_insert(b0, "session"@, v, "interception_point"@);
        crate::json::lemma_map_insert(b0, "session"@, v, "trace"@);
        crate::json::lemma_map_insert(b0, "session"@, v, "sequence"@);
        crate::json::lemma_map_insert(b0, "session"@, v, "timestamp"@);
        crate::json::lemma_map_insert(b0, "session"@, v, "session"@);
        let es = seq![("id"@, crate::json::JView::Str(s))];
        crate::json::lemma_first_index_at(es, "id"@, 0);
    }
    let b2 = match sequence {
        Some(q) => crate::json::map_insert(b1, "sequence"@, int_view(q)),
        None => b1,
    };
    if let Some(q) = sequence {
        crate::json::lemma_map_insert(b1, "sequence"@, int_view(q), "spec"@);
        crate::json::lemma_map_insert(b1, "sequence"@, int_view(q), "interception_point"@);
        crate::json::lemma_map_insert(b1, "sequence"@, int_view(q), "trace"@);
        crate::json::lemma_map_insert(b1, "sequence"@, int_view(q), "session"@);
        crate::json::lemma_map_insert(b1, "sequence"@, int_view(q), "timestamp"@);
        crate::json::lemma_map_insert(b1, "sequence"@, int_view(q), "sequence"@);
    }
    if let Some(t) = timestamp {
        crate::json::lemma_map_insert(b2, "timestamp"@, crate::json::JView::Str(t), "spec"@);
        crate::json::lemma_map_insert(b2, "timestamp"@, crate::json::JView::Str(t), "interception_point"@);
        crate::json::lemma_map_insert(b2, "timestamp"@, crate::json::JView::Str(t), "trace"@);
        crate::json::lemma_map_insert(b2, "timestamp"@, crate::json::JView::Str(t), "session"@);
        crate::json::lemma_map_insert(b2, "timestamp"@, crate::json::JView::Str(t), "sequence"@);
        crate::json::lemma_map_insert(b2, "timestamp"@, crate::json::JView::Str(t), "timestamp"@);
    }
}

// ---- a blocked emission -------------------------------------------------------------------------

/// The wire name of a decision.
pub open spec fn decision_name(d: Decision) -> Seq<char> {
    match d {
        Decision::Allow => "allow"@,
        Decision::Deny => "deny"@,
        Decision::Transform => "transform"@,
    }
}

/// How a blocked emission describes itself: `"<point> blocked: <decision>
/// (<reason>)"`, with `no reason` when the verdict has none.
pub open spec fn blocked_text(r: crate::types::InterceptionRecord) -> Seq<char> {
    crate::types::ip_name(r.interception_point) + " blocked: "@ + decision_name(r.verdict.decision) + " ("@
        + match r.verdict.reason {
            Some(x) => x@,
            None => "no reason"@,
        } + ")"@
}

/// The description of a blocked emission's record.
pub fn blocked_description(r: &crate::types::InterceptionRecord) -> (t: String)
    ensures
        t@ == blocked_text(*r),
{
    let mut t = to_owned(r.interception_point.as_str());
    crate::text::push_str(&mut t, " blocked: ");
    crate::text::push_str(&mut t, r.verdict.decision.as_str());
    crate::text::push_str(&mut t, " (");
    match &r.verdict.reason {
        Some(x) => crate::text::push_str(&mut t, x.as_str()),
        None => crate::text::push_str(&mut t, "no reason"),
    }
    crate::text::push_str(&mut t, ")");
    proof {
        assert(t@ =~= blocked_text(*r));
    }
    t
}

} // verus!
