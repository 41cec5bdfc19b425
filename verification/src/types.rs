//! Core types: interception points, decisions, verdicts and records.
use vstd::prelude::*;
use crate::json::{Entries, JView, JsonMap, JsonValue};
use crate::text::{has_prefix, starts_with};

verus! {

/// Spec version this crate implements (the context `spec` field).
pub const SPEC_VERSION: &'static str = "agent-hooks/0.1";

/// Name of the default identity provider.
pub const JCS_SHA256: &'static str = "jcs-sha256";

/// Maximum UTF-8 byte length of the canonical serialization of a
/// verdict's `evidence` member.
pub const EVIDENCE_MAX_BYTES: usize = 10240;

/// Prefix of every host-synthesized reason.
pub const HOST_ERROR_PREFIX: &'static str = "host_error:";

/// The closed set of agent lifecycle interception points.
#[derive(Debug, Clone, Copy, PartialEq, Eq, Hash, Structural)]
pub enum InterceptionPoint {
    AgentStartup,
    Input,
    PreModelCall,
    PostModelCall,
    PreToolCall,
    PostToolCall,
    Output,
    AgentShutdown,
}

/// Wire name of an interception point.
pub open spec fn ip_name(ip: InterceptionPoint) -> Seq<char> {
    match ip {
        InterceptionPoint::AgentStartup => "agent_startup"@,
        InterceptionPoint::Input => "input"@,
        InterceptionPoint::PreModelCall => "pre_model_call"@,
        InterceptionPoint::PostModelCall => "post_model_call"@,
        InterceptionPoint::PreToolCall => "pre_tool_call"@,
        InterceptionPoint::PostToolCall => "post_tool_call"@,
        InterceptionPoint::Output => "output"@,
        InterceptionPoint::AgentShutdown => "agent_shutdown"@,
    }
}

/// The interception point with wire name `s`.
pub open spec fn ip_from_name(s: Seq<char>) -> Option<InterceptionPoint> {
    if s == "agent_startup"@ {
        Some(InterceptionPoint::AgentStartup)
    } else if s == "input"@ {
        Some(InterceptionPoint::Input)
    } else if s == "pre_model_call"@ {
        Some(InterceptionPoint::PreModelCall)
    } else if s == "post_model_call"@ {
        Some(InterceptionPoint::PostModelCall)
    } else if s == "pre_tool_call"@ {
        Some(InterceptionPoint::PreToolCall)
    } else if s == "post_tool_call"@ {
        Some(InterceptionPoint::PostToolCall)
    } else if s == "output"@ {
        Some(InterceptionPoint::Output)
    } else if s == "agent_shutdown"@ {
        Some(InterceptionPoint::AgentShutdown)
    } else {
        None
    }
}

/// Whether a `transform` verdict is permitted at `ip`.
pub open spec fn spec_transform_permitted(ip: InterceptionPoint) -> bool {
    !(ip is AgentStartup || ip is AgentShutdown)
}

impl InterceptionPoint {
    /// Wire name (snake_case).
    pub fn as_str(self) -> (r: &'static str)
        ensures
            r@ == ip_name(self),
    {
        match self {
            InterceptionPoint::AgentStartup => "agent_startup",
            InterceptionPoint::Input => "input",
            InterceptionPoint::PreModelCall => "pre_model_call",
            InterceptionPoint::PostModelCall => "post_model_call",
            InterceptionPoint::PreToolCall => "pre_tool_call",
            InterceptionPoint::PostToolCall => "post_tool_call",
            InterceptionPoint::Output => "output",
            InterceptionPoint::AgentShutdown => "agent_shutdown",
        }
    }

    /// Whether a `transform` verdict is permitted at this point.
    pub fn transform_permitted(self) -> (r: bool)
        ensures
            r == spec_transform_permitted(self),
    {
        match self {
            InterceptionPoint::AgentStartup | InterceptionPoint::AgentShutdown => false,
            _ => true,
        }
    }

    /// The point with wire name `s`; `ContextInvalid` for any other string.
    pub fn from_name(s: &str) -> (r: Result<InterceptionPoint, HostError>)
        ensures
            match r {
                Ok(ip) => ip_from_name(s@) == Some(ip),
                Err(e) => ip_from_name(s@) is None && e == HostError::ContextInvalid,
            },
    {
        if crate::text::str_eq(s, "agent_startup") {
            Ok(InterceptionPoint::AgentStartup)
        } else if crate::text::str_eq(s, "input") {
            Ok(InterceptionPoint::Input)
        } else if crate::text::str_eq(s, "pre_model_call") {
            Ok(InterceptionPoint::PreModelCall)
        } else if crate::text::str_eq(s, "post_model_call") {
            Ok(InterceptionPoint::PostModelCall)
        } else if crate::text::str_eq(s, "pre_tool_call") {
            Ok(InterceptionPoint::PreToolCall)
        } else if crate::text::str_eq(s, "post_tool_call") {
            Ok(InterceptionPoint::PostToolCall)
        } else if crate::text::str_eq(s, "output") {
            Ok(InterceptionPoint::Output)
        } else if crate::text::str_eq(s, "agent_shutdown") {
            Ok(InterceptionPoint::AgentShutdown)
        } else {
            Err(HostError::ContextInvalid)
        }
    }
}

/// Reading a point's wire name back gives the point.
pub proof fn lemma_ip_name_roundtrip(ip: InterceptionPoint)
    ensures
        ip_from_name(ip_name(ip)) == Some(ip),
{
    reveal_strlit("agent_startup");
    reveal_strlit("input");
    reveal_strlit("pre_model_call");
    reveal_strlit("post_model_call");
    reveal_strlit("pre_tool_call");
    reveal_strlit("post_tool_call");
    reveal_strlit("output");
    reveal_strlit("agent_shutdown");
    assert("agent_startup"@.len() == 13);
    assert("input"@.len() == 5);
    assert("pre_model_call"@.len() == 14);
    assert("post_model_call"@.len() == 15);
    assert("pre_tool_call"@.len() == 13);
    assert("post_tool_call"@.len() == 14);
    assert("output"@.len() == 6);
    assert("agent_shutdown"@.len() == 14);
    assert("agent_startup"@[0] != "pre_tool_call"@[0]);
    assert("pre_model_call"@[1] != "post_tool_call"@[1]);
    assert("pre_model_call"@[0] != "agent_shutdown"@[0]);
    assert("post_tool_call"@[0] != "agent_shutdown"@[0]);
    match ip {
        InterceptionPoint::AgentStartup => {},
        InterceptionPoint::Input => {
            assert("input"@ != "agent_startup"@);
        },
        InterceptionPoint::PreModelCall => {
            assert("pre_model_call"@ != "agent_startup"@);
            assert("pre_model_call"@ != "input"@);
        },
        InterceptionPoint::PostModelCall => {
            assert("post_model_call"@ != "agent_startup"@);
            assert("post_model_call"@ != "input"@);
            assert("post_model_call"@ != "pre_model_call"@);
        },
        InterceptionPoint::PreToolCall => {
            assert("pre_tool_call"@ != "agent_startup"@);
            assert("pre_tool_call"@ != "input"@);
            assert("pre_tool_call"@ != "pre_model_call"@);
            assert("pre_tool_call"@ != "post_model_call"@);
        },
        InterceptionPoint::PostToolCall => {
            assert("post_tool_call"@ != "agent_startup"@);
            assert("post_tool_call"@ != "input"@);
            assert("post_tool_call"@ != "pre_model_call"@);
            assert("post_tool_call"@ != "post_model_call"@);
            assert("post_tool_call"@ != "pre_tool_call"@);
        },
        InterceptionPoint::Output => {
            assert("output"@ != "agent_startup"@);
            assert("output"@ != "input"@);
            assert("output"@ != "pre_model_call"@);
            assert("output"@ != "post_model_call"@);
            assert("output"@ != "pre_tool_call"@);
            assert("output"@ != "post_tool_call"@);
        },
        InterceptionPoint::AgentShutdown => {
            assert("agent_shutdown"@ != "agent_startup"@);
            assert("agent_shutdown"@ != "input"@);
            assert("agent_shutdown"@ != "pre_model_call"@);
            assert("agent_shutdown"@ != "post_model_call"@);
            assert("agent_shutdown"@ != "pre_tool_call"@);
            assert("agent_shutdown"@ != "post_tool_call"@);
            assert("agent_shutdown"@ != "output"@);
        },
    }
}

/// Verdict decision values.
#[derive(Debug, Clone, Copy, PartialEq, Eq, Structural)]
pub enum Decision {
    Allow,
    Deny,
    Transform,
}

/// Whether the action proceeds under `d`.
pub open spec fn spec_permits(d: Decision) -> bool {
    d is Allow || d is Transform
}

impl Decision {
    /// Wire name (snake_case).
    pub fn as_str(self) -> (r: &'static str)
        ensures
            r@ == (match self {
                Decision::Allow => "allow"@,
                Decision::Deny => "deny"@,
                Decision::Transform => "transform"@,
            }),
    {
        match self {
            Decision::Allow => "allow",
            Decision::Deny => "deny",
            Decision::Transform => "transform",
        }
    }

    /// Whether the action proceeds under this decision.
    pub fn permits(self) -> (r: bool)
        ensures
            r == spec_permits(self),
    {
        match self {
            Decision::Allow | Decision::Transform => true,
            Decision::Deny => false,
        }
    }
}

/// Whether the host acts on verdicts.
#[derive(Debug, Clone, Copy, PartialEq, Eq, Structural)]
pub enum EnforcementMode {
    Enforce,
    EvaluateOnly,
}

/// Reserved `host_error:*` reasons a host synthesizes.
#[derive(Debug, Clone, Copy, PartialEq, Eq, Structural)]
pub enum HostError {
    ContextInvalid,
    InterceptorFailed,
    InterceptorTimeout,
    VerdictInvalid,
    TransformInvalid,
    TransformTargetForbidden,
    /// Two or more transforms against the same snapshot in a parallel profile.
    TransformConflict,
    /// Non-unanimous outcome under `parallel/unanimous`.
    CompositionDisagreement,
    ApprovalResolverFailed,
    ApprovalUnresolved,
    /// The resolution's `context_identity` did not match the request's.
    ApprovalIdentityMismatch,
    AdapterUnsupported,
    StreamingUnsupported,
    /// An `enforce`-mode emission with zero registered interceptors.
    NoInterceptor,
}

/// The wire reason of a host error.
pub open spec fn host_error_name(e: HostError) -> Seq<char> {
    match e {
        HostError::ContextInvalid => "host_error:context_invalid"@,
        HostError::InterceptorFailed => "host_error:interceptor_failed"@,
        HostError::InterceptorTimeout => "host_error:interceptor_timeout"@,
        HostError::VerdictInvalid => "host_error:verdict_invalid"@,
        HostError::TransformInvalid => "host_error:transform_invalid"@,
        HostError::TransformTargetForbidden => "host_error:transform_target_forbidden"@,
        HostError::TransformConflict => "host_error:transform_conflict"@,
        HostError::CompositionDisagreement => "host_error:composition_disagreement"@,
        HostError::ApprovalResolverFailed => "host_error:approval_resolver_failed"@,
        HostError::ApprovalUnresolved => "host_error:approval_unresolved"@,
        HostError::ApprovalIdentityMismatch => "host_error:approval_identity_mismatch"@,
        HostError::AdapterUnsupported => "host_error:adapter_unsupported"@,
        HostError::StreamingUnsupported => "host_error:streaming_unsupported"@,
        HostError::NoInterceptor => "host_error:no_interceptor"@,
    }
}

impl HostError {
    /// The wire reason (`host_error:*`).
    pub fn as_str(self) -> (r: &'static str)
        ensures
            r@ == host_error_name(self),
    {
        match self {
            HostError::ContextInvalid => "host_error:context_invalid",
            HostError::InterceptorFailed => "host_error:interceptor_failed",
            HostError::InterceptorTimeout => "host_error:interceptor_timeout",
            HostError::VerdictInvalid => "host_error:verdict_invalid",
            HostError::TransformInvalid => "host_error:transform_invalid",
            HostError::TransformTargetForbidden => "host_error:transform_target_forbidden",
            HostError::TransformConflict => "host_error:transform_conflict",
            HostError::CompositionDisagreement => "host_error:composition_disagreement",
            HostError::ApprovalResolverFailed => "host_error:approval_resolver_failed",
            HostError::ApprovalUnresolved => "host_error:approval_unresolved",
            HostError::ApprovalIdentityMismatch => "host_error:approval_identity_mismatch",
            HostError::AdapterUnsupported => "host_error:adapter_unsupported",
            HostError::StreamingUnsupported => "host_error:streaming_unsupported",
            HostError::NoInterceptor => "host_error:no_interceptor",
        }
    }

    /// The wire reason as an owned string.
    pub fn to_string(self) -> (r: String)
        ensures
            r@ == host_error_name(self),
    {
        crate::text::to_owned(self.as_str())
    }
}

/// Every host error's wire reason starts with `host_error:`.
pub proof fn law_host_error_reasons_reserved(e: HostError)
    ensures
        has_prefix(host_error_name(e), HOST_ERROR_PREFIX@),
{
    reveal_strlit("host_error:");
    reveal_strlit("host_error:context_invalid");
    reveal_strlit("host_error:interceptor_failed");
    reveal_strlit("host_error:interceptor_timeout");
    reveal_strlit("host_error:verdict_invalid");
    reveal_strlit("host_error:transform_invalid");
    reveal_strlit("host_error:transform_target_forbidden");
    reveal_strlit("host_error:transform_conflict");
    reveal_strlit("host_error:composition_disagreement");
    reveal_strlit("host_error:approval_resolver_failed");
    reveal_strlit("host_error:approval_unresolved");
    reveal_strlit("host_error:approval_identity_mismatch");
    reveal_strlit("host_error:adapter_unsupported");
    reveal_strlit("host_error:streaming_unsupported");
    reveal_strlit("host_error:no_interceptor");
    assert(host_error_name(e).subrange(0, 11) =~= HOST_ERROR_PREFIX@);
}

/// Length and first two characters after the prefix of each wire reason.
spec fn reason_signature(e: HostError) -> (int, char, char) {
    match e {
        HostError::ContextInvalid => (26, 'c', 'o'),
        HostError::InterceptorFailed => (29, 'i', 'n'),
        HostError::InterceptorTimeout => (30, 'i', 'n'),
        HostError::VerdictInvalid => (26, 'v', 'e'),
        HostError::TransformInvalid => (28, 't', 'r'),
        HostError::TransformTargetForbidden => (37, 't', 'r'),
        HostError::TransformConflict => (29, 't', 'r'),
        HostError::CompositionDisagreement => (35, 'c', 'o'),
        HostError::ApprovalResolverFailed => (35, 'a', 'p'),
        HostError::ApprovalUnresolved => (30, 'a', 'p'),
        HostError::ApprovalIdentityMismatch => (37, 'a', 'p'),
        HostError::AdapterUnsupported => (30, 'a', 'd'),
        HostError::StreamingUnsupported => (32, 's', 't'),
        HostError::NoInterceptor => (25, 'n', 'o'),
    }
}

proof fn lemma_reason_signature(e: HostError)
    ensures
        host_error_name(e).len() == reason_signature(e).0,
        host_error_name(e)[11] == reason_signature(e).1,
        host_error_name(e)[12] == reason_signature(e).2,
{
    match e {
        HostError::ContextInvalid => reveal_strlit("host_error:context_invalid"),
        HostError::InterceptorFailed => reveal_strlit("host_error:interceptor_failed"),
        HostError::InterceptorTimeout => reveal_strlit("host_error:interceptor_timeout"),
        HostError::VerdictInvalid => reveal_strlit("host_error:verdict_invalid"),
        HostError::TransformInvalid => reveal_strlit("host_error:transform_invalid"),
        HostError::TransformTargetForbidden => reveal_strlit("host_error:transform_target_forbidden"),
        HostError::TransformConflict => reveal_strlit("host_error:transform_conflict"),
        HostError::CompositionDisagreement => reveal_strlit("host_error:composition_disagreement"),
        HostError::ApprovalResolverFailed => reveal_strlit("host_error:approval_resolver_failed"),
        HostError::ApprovalUnresolved => reveal_strlit("host_error:approval_unresolved"),
        HostError::ApprovalIdentityMismatch => reveal_strlit("host_error:approval_identity_mismatch"),
        HostError::AdapterUnsupported => reveal_strlit("host_error:adapter_unsupported"),
        HostError::StreamingUnsupported => reveal_strlit("host_error:streaming_unsupported"),
        HostError::NoInterceptor => reveal_strlit("host_error:no_interceptor"),
    }
}

/// Distinct host errors have distinct wire reasons.
pub proof fn law_host_error_reasons_distinct(a: HostError, b: HostError)
    requires
        host_error_name(a) == host_error_name(b),
    ensures
        a == b,
{
    lemma_reason_signature(a);
    lemma_reason_signature(b);
    assert(reason_signature(a) == reason_signature(b));
}

/// A copy of an optional string.
pub fn opt_string_clone(s: &Option<String>) -> (r: Option<String>)
    ensures
        r == *s,
{
    match s {
        Some(x) => Some(x.clone()),
        None => None,
    }
}

/// The view of an optional string.
pub open spec fn opt_str_view(s: Option<String>) -> Option<Seq<char>> {
    match s {
        Some(x) => Some(x@),
        None => None,
    }
}

/// A single `$target`-rooted replacement.
#[derive(Debug, PartialEq)]
pub struct Transform {
    /// Path rooted at `$target` (or the deprecated `$policy_target` alias).
    pub path: String,
    /// New value to set at `path`.
    pub value: JsonValue,
}

/// View of a transform.
pub struct TransformView {
    pub path: Seq<char>,
    pub value: JView,
}

impl View for Transform {
    type V = TransformView;

    open spec fn view(&self) -> TransformView {
        TransformView { path: self.path@, value: self.value@ }
    }
}

impl Clone for Transform {
    fn clone(&self) -> (r: Self)
        ensures
            r@ == self@,
    {
        Transform { path: self.path.clone(), value: self.value.deep_clone() }
    }
}

/// Opaque pointer to an offline-verifiable artefact.
#[derive(Debug, Default, PartialEq)]
pub struct Evidence {
    pub artefact: Option<String>,
    /// Name/pointer pairs.
    pub verification_pointers: Vec<(String, String)>,
}

/// View of evidence.
pub struct EvidenceView {
    pub artefact: Option<Seq<char>>,
    pub verification_pointers: Seq<(Seq<char>, Seq<char>)>,
}

impl View for Evidence {
    type V = EvidenceView;

    open spec fn view(&self) -> EvidenceView {
        EvidenceView {
            artefact: opt_str_view(self.artefact),
            verification_pointers: self.verification_pointers@.map_values(|p: (String, String)| (p.0@, p.1@)),
        }
    }
}

impl Clone for Evidence {
    fn clone(&self) -> (r: Self)
        ensures
            r@ == self@,
    {
        let mut ps: Vec<(String, String)> = Vec::new();
        let n = self.verification_pointers.len();
        for i in 0..n
            invariant
                n == self.verification_pointers@.len(),
                ps@.len() == i,
                forall|j: int| 0 <= j < i ==> #[trigger] ps@[j] == self.verification_pointers@[j],
        {
            let a = self.verification_pointers[i].0.clone();
            let b = self.verification_pointers[i].1.clone();
            ps.push((a, b));
        }
        let r = Evidence { artefact: opt_string_clone(&self.artefact), verification_pointers: ps };
        assert(r@.verification_pointers =~= self@.verification_pointers);
        r
    }
}

/// A recorded concern that does not affect control flow.
#[derive(Debug, Default, PartialEq)]
pub struct Warning {
    pub reason: Option<String>,
    pub message: Option<String>,
}

/// View of a warning.
pub struct WarningView {
    pub reason: Option<Seq<char>>,
    pub message: Option<Seq<char>>,
}

impl View for Warning {
    type V = WarningView;

    open spec fn view(&self) -> WarningView {
        WarningView { reason: opt_str_view(self.reason), message: opt_str_view(self.message) }
    }
}

impl Clone for Warning {
    fn clone(&self) -> (r: Self)
        ensures
            r == *self,
    {
        Warning { reason: opt_string_clone(&self.reason), message: opt_string_clone(&self.message) }
    }
}

/// Interceptor return value.
#[derive(Debug, PartialEq)]
pub struct Verdict {
    pub decision: Decision,
    pub reason: Option<String>,
    pub message: Option<String>,
    /// Recorded concerns; permitted on any decision.
    pub warnings: Vec<Warning>,
    /// Present only on `deny`: marks the deny as liftable by the approval
    /// seam.
    pub approval: Option<JsonMap>,
    pub transform: Option<Transform>,
    pub evidence: Option<Evidence>,
    pub result_labels: Vec<String>,
}

/// View of a verdict.
pub struct VerdictView {
    pub decision: Decision,
    pub reason: Option<Seq<char>>,
    pub message: Option<Seq<char>>,
    pub warnings: Seq<WarningView>,
    pub approval: Option<Entries>,
    pub transform: Option<TransformView>,
    pub evidence: Option<EvidenceView>,
    pub result_labels: Seq<Seq<char>>,
}

/// Views of warnings.
pub open spec fn warnings_view(ws: Seq<Warning>) -> Seq<WarningView> {
    ws.map_values(|w: Warning| w@)
}

/// Views of strings.
pub open spec fn strings_view(ss: Seq<String>) -> Seq<Seq<char>> {
    ss.map_values(|s: String| s@)
}

impl View for Verdict {
    type V = VerdictView;

    open spec fn view(&self) -> VerdictView {
        VerdictView {
            decision: self.decision,
            reason: opt_str_view(self.reason),
            message: opt_str_view(self.message),
            warnings: warnings_view(self.warnings@),
            approval: match self.approval {
                Some(m) => Some(m@),
                None => None,
            },
            transform: match self.transform {
                Some(t) => Some(t@),
                None => None,
            },
            evidence: match self.evidence {
                Some(e) => Some(e@),
                None => None,
            },
            result_labels: strings_view(self.result_labels@),
        }
    }
}

/// The trivial permit verdict.
pub open spec fn allow_view() -> VerdictView {
    VerdictView {
        decision: Decision::Allow,
        reason: None,
        message: None,
        warnings: Seq::empty(),
        approval: None,
        transform: None,
        evidence: None,
        result_labels: Seq::empty(),
    }
}

/// An `allow` carrying one warning.
pub open spec fn warn_view(reason: Option<Seq<char>>, message: Option<Seq<char>>) -> VerdictView {
    VerdictView { warnings: seq![WarningView { reason: reason, message: message }], ..allow_view() }
}

/// A liftable deny.
pub open spec fn escalate_view(reason: Option<Seq<char>>, message: Option<Seq<char>>) -> VerdictView {
    VerdictView {
        decision: Decision::Deny,
        reason: reason,
        message: message,
        approval: Some(Seq::empty()),
        ..allow_view()
    }
}

/// A deny carrying an `approval` block.
pub open spec fn spec_liftable(v: VerdictView) -> bool {
    v.decision is Deny && v.approval is Some
}

/// The reason starts with the reserved `host_error:` prefix.
pub open spec fn reserved_reason(r: Option<Seq<char>>) -> bool {
    match r {
        Some(s) => has_prefix(s, HOST_ERROR_PREFIX@),
        None => false,
    }
}

/// The host-synthesized deny for a failure.
pub open spec fn host_error_view(e: HostError, message: Option<Seq<char>>) -> VerdictView {
    VerdictView {
        decision: Decision::Deny,
        reason: Some(host_error_name(e)),
        message: message,
        ..allow_view()
    }
}

/// The liftable host-synthesized deny for a failure.
pub open spec fn host_error_liftable_view(e: HostError, message: Option<Seq<char>>) -> VerdictView {
    VerdictView { approval: Some(Seq::empty()), ..host_error_view(e, message) }
}

/// The §5 rules a verdict must meet, given the canonical byte size of its
/// evidence (when present).
pub open spec fn verdict_valid(v: VerdictView) -> bool {
    &&& !reserved_reason(v.reason)
    &&& (v.approval is Some ==> v.decision is Deny)
    &&& (v.evidence matches Some(e) ==> crate::canonical::evidence_size(e) <= EVIDENCE_MAX_BYTES)
    &&& (v.decision is Transform <==> v.transform is Some)
}

/// Copy of a vector of strings.
pub fn strings_clone(ss: &Vec<String>) -> (r: Vec<String>)
    ensures
        r@ == ss@,
{
    let mut out: Vec<String> = Vec::new();
    let n = ss.len();
    for i in 0..n
        invariant
            n == ss@.len(),
            out@ == ss@.take(i as int),
    {
        out.push(ss[i].clone());
        assert(out@ =~= ss@.take(i + 1));
    }
    assert(ss@.take(n as int) =~= ss@);
    out
}

/// Copy of a vector of warnings.
pub fn warnings_clone(ws: &Vec<Warning>) -> (r: Vec<Warning>)
    ensures
        r@ == ws@,
{
    let mut out: Vec<Warning> = Vec::new();
    let n = ws.len();
    for i in 0..n
        invariant
            n == ws@.len(),
            out@ == ws@.take(i as int),
    {
        out.push(ws[i].clone());
        assert(out@ =~= ws@.take(i + 1));
    }
    assert(ws@.take(n as int) =~= ws@);
    out
}

impl Clone for Verdict {
    fn clone(&self) -> (r: Self)
        ensures
            r@ == self@,
            r.decision == self.decision,
            r.reason == self.reason,
    {
        Verdict {
            decision: self.decision,
            reason: opt_string_clone(&self.reason),
            message: opt_string_clone(&self.message),
            warnings: warnings_clone(&self.warnings),
            approval: match &self.approval {
                Some(m) => Some(m.copy()),
                None => None,
            },
            transform: match &self.transform {
                Some(t) => Some(t.clone()),
                None => None,
            },
            evidence: match &self.evidence {
                Some(e) => Some(e.clone()),
                None => None,
            },
            result_labels: strings_clone(&self.result_labels),
        }
    }
}

impl Verdict {
    /// The trivial permit verdict.
    pub fn allow() -> (r: Self)
        ensures
            r@ == allow_view(),
    {
        let r = Verdict {
            decision: Decision::Allow,
            reason: None,
            message: None,
            warnings: Vec::new(),
            approval: None,
            transform: None,
            evidence: None,
            result_labels: Vec::new(),
        };
        assert(r@.warnings =~= Seq::<WarningView>::empty());
        assert(r@.result_labels =~= Seq::<Seq<char>>::empty());
        r
    }

    /// An `allow` carrying one warning.
    pub fn warn(reason: Option<String>, message: Option<String>) -> (r: Self)
        ensures
            r@ == warn_view(opt_str_view(reason), opt_str_view(message)),
    {
        let ghost w = WarningView { reason: opt_str_view(reason), message: opt_str_view(message) };
        let mut ws: Vec<Warning> = Vec::new();
        ws.push(Warning { reason, message });
        let mut r = Verdict::allow();
        r.warnings = ws;
        assert(r@.warnings =~= seq![w]);
        r
    }

    /// A liftable deny: denied as-is unless the approval seam lifts it.
    pub fn escalate(reason: Option<String>, message: Option<String>) -> (r: Self)
        ensures
            r@ == escalate_view(opt_str_view(reason), opt_str_view(message)),
    {
        let mut r = Verdict::allow();
        r.decision = Decision::Deny;
        r.reason = reason;
        r.message = message;
        r.approval = Some(JsonMap::new());
        r
    }

    /// Host-synthesized deny verdict for a failure.
    pub fn host_error(err: HostError, message: Option<String>) -> (r: Self)
        ensures
            r@ == host_error_view(err, opt_str_view(message)),
    {
        let mut r = Verdict::allow();
        r.decision = Decision::Deny;
        r.reason = Some(err.to_string());
        r.message = message;
        r
    }

    /// Host-synthesized liftable deny: the failure is consultable rather
    /// than final.
    pub fn host_error_liftable(err: HostError, message: Option<String>) -> (r: Self)
        ensures
            r@ == host_error_liftable_view(err, opt_str_view(message)),
    {
        let mut r = Verdict::host_error(err, message);
        r.approval = Some(JsonMap::new());
        r
    }

    /// A deny carrying an `approval` block.
    pub fn is_liftable(&self) -> (r: bool)
        ensures
            r == spec_liftable(self@),
    {
        self.decision == Decision::Deny && self.approval.is_some()
    }

    /// Validate per §5; `Err(VerdictInvalid)` exactly when a rule is broken.
    pub fn validate(&self) -> (r: Result<(), HostError>)
        ensures
            r is Ok <==> verdict_valid(self@),
            r matches Err(e) ==> e == HostError::VerdictInvalid,
    {
        if let Some(r) = &self.reason {
            if starts_with(r.as_str(), HOST_ERROR_PREFIX) {
                return Err(HostError::VerdictInvalid);
            }
        }
        if self.approval.is_some() && self.decision != Decision::Deny {
            return Err(HostError::VerdictInvalid);
        }
        if let Some(e) = &self.evidence {
            let text = crate::canonical::evidence_canonical(e);
            if text.as_str().as_bytes().len() > EVIDENCE_MAX_BYTES {
                return Err(HostError::VerdictInvalid);
            }
        }
        match (self.decision, &self.transform) {
            (Decision::Transform, None) => Err(HostError::VerdictInvalid),
            (Decision::Allow, Some(_)) | (Decision::Deny, Some(_)) => Err(HostError::VerdictInvalid),
            _ => Ok(()),
        }
    }
}

/// Payload-free per-interceptor summary on the record.
#[derive(Debug, PartialEq)]
pub struct VerdictSummary {
    pub index: u32,
    pub decision: Decision,
    pub reason: Option<String>,
    /// The host's payload-free interceptor name, when it attached one.
    pub name: Option<String>,
}

impl Clone for VerdictSummary {
    fn clone(&self) -> (r: Self)
        ensures
            r == *self,
    {
        VerdictSummary {
            index: self.index,
            decision: self.decision,
            reason: opt_string_clone(&self.reason),
            name: opt_string_clone(&self.name),
        }
    }
}

/// Approval resolver outcome.
#[derive(Debug, Clone, Copy, PartialEq, Eq, Structural)]
pub enum ApprovalOutcome {
    Approve,
    Reject,
    Unresolved,
}

/// What the resolver returns. `context_identity` must echo the request's
/// byte for byte (`None` echoes as `None`).
#[derive(Debug)]
pub struct ApprovalResolution {
    pub outcome: ApprovalOutcome,
    pub context_identity: Option<String>,
    pub verdict: Option<Verdict>,
}

/// Trace identifiers copied from the context for correlation.
#[derive(Debug, PartialEq)]
pub struct TraceContext {
    pub trace_id: Option<String>,
    pub span_id: Option<String>,
}

impl Clone for TraceContext {
    fn clone(&self) -> (r: Self)
        ensures
            r == *self,
    {
        TraceContext { trace_id: opt_string_clone(&self.trace_id), span_id: opt_string_clone(&self.span_id) }
    }
}

/// The audit record of one completed emission.
#[derive(Debug)]
pub struct InterceptionRecord {
    pub interception_point: InterceptionPoint,
    pub mode: EnforcementMode,
    /// The payload-free projection of the combined verdict.
    pub verdict: Verdict,
    /// Provider output before dispatch; `None` when no provider is declared
    /// (or it rejected the context).
    pub input_identity: Option<String>,
    /// Provider output after composition completes.
    pub enforced_identity: Option<String>,
    /// The declared identity provider.
    pub identity_provider: Option<String>,
    /// `ctx.session.id` — correlates records across a session.
    pub session_id: String,
    /// `ctx.sequence`; `-1` when the context lacked it.
    pub sequence: i64,
    /// `ctx.timestamp`, when a string.
    pub timestamp: Option<String>,
    /// `ctx.trace` identifiers, when any is a string.
    pub trace: Option<TraceContext>,
    /// Registration index of the interceptor whose verdict won or whose
    /// liftable deny was consulted; `None` for a pure allow or a
    /// host-synthesized verdict.
    pub decided_by: Option<u32>,
    /// The composition profile and knobs in effect.
    pub composition: crate::composition::CompositionConfig,
    /// Per-interceptor summaries (multi-verdict profiles).
    pub verdicts: Vec<VerdictSummary>,
    /// Whether registered interceptors were never invoked
    /// (`sequential/first_deny` only).
    pub fold_truncated: Option<bool>,
    /// `"approval"` or `"rejection"` when the approval seam resolved.
    pub resolved_by: Option<&'static str>,
    /// Interceptors registered at emission time.
    pub interceptors_registered: u32,
}

/// `a` is a copy of `b`: every member equal, the verdict by its view.
pub open spec fn same_record(a: InterceptionRecord, b: InterceptionRecord) -> bool {
    &&& a.interception_point == b.interception_point
    &&& a.mode == b.mode
    &&& a.verdict@ == b.verdict@
    &&& a.verdict.decision == b.verdict.decision
    &&& a.verdict.reason == b.verdict.reason
    &&& a.input_identity == b.input_identity
    &&& a.enforced_identity == b.enforced_identity
    &&& a.identity_provider == b.identity_provider
    &&& a.session_id == b.session_id
    &&& a.sequence == b.sequence
    &&& a.timestamp == b.timestamp
    &&& a.trace == b.trace
    &&& a.decided_by == b.decided_by
    &&& a.composition == b.composition
    &&& a.verdicts@ == b.verdicts@
    &&& a.fold_truncated == b.fold_truncated
    &&& a.resolved_by == b.resolved_by
    &&& a.interceptors_registered == b.interceptors_registered
}

fn summaries_clone(vs: &Vec<VerdictSummary>) -> (r: Vec<VerdictSummary>)
    ensures
        r@ == vs@,
{
    let mut out: Vec<VerdictSummary> = Vec::new();
    let n = vs.len();
    for i in 0..n
        invariant
            n == vs@.len(),
            out@ == vs@.take(i as int),
    {
        out.push(vs[i].clone());
        assert(out@ =~= vs@.take(i + 1));
    }
    assert(vs@.take(n as int) =~= vs@);
    out
}

impl Clone for InterceptionRecord {
    fn clone(&self) -> (r: Self)
        ensures
            same_record(r, *self),
    {
        InterceptionRecord {
            interception_point: self.interception_point,
            mode: self.mode,
            verdict: self.verdict.clone(),
            input_identity: opt_string_clone(&self.input_identity),
            enforced_identity: opt_string_clone(&self.enforced_identity),
            identity_provider: opt_string_clone(&self.identity_provider),
            session_id: self.session_id.clone(),
            sequence: self.sequence,
            timestamp: opt_string_clone(&self.timestamp),
            trace: match &self.trace {
                Some(t) => Some(t.clone()),
                None => None,
            },
            decided_by: self.decided_by,
            composition: self.composition,
            verdicts: summaries_clone(&self.verdicts),
            fold_truncated: self.fold_truncated,
            resolved_by: self.resolved_by,
            interceptors_registered: self.interceptors_registered,
        }
    }
}

/// Whether the guarded action executes under `mode` with decision `d`.
pub open spec fn spec_proceeds(mode: EnforcementMode, d: Decision) -> bool {
    mode is EvaluateOnly || spec_permits(d)
}

impl InterceptionRecord {
    /// Whether the guarded action executes: always in `evaluate_only`,
    /// otherwise when the verdict permits.
    pub fn proceeds(&self) -> (r: bool)
        ensures
            r == spec_proceeds(self.mode, self.verdict.decision),
    {
        match self.mode {
            EnforcementMode::EvaluateOnly => true,
            EnforcementMode::Enforce => self.verdict.decision.permits(),
        }
    }
}

/// A character a provider name may hold after its first: a lowercase
/// letter, a digit, `_` or `-`.
pub open spec fn name_char(c: char) -> bool {
    ('a' <= c && c <= 'z') || ('0' <= c && c <= '9') || c == '_' || c == '-'
}

/// `^[a-z][a-z0-9_-]*$`.
pub open spec fn name_shape(s: Seq<char>) -> bool {
    &&& s.len() > 0
    &&& 'a' <= s[0] && s[0] <= 'z'
    &&& forall|i: int| 0 <= i < s.len() ==> name_char(#[trigger] s[i])
}

/// The detail for a provider name of the wrong shape.
pub open spec fn name_shape_detail() -> Seq<char> {
    "identity provider name must match ^[a-z][a-z0-9_-]*$ (see spec §10.1)"@
}

/// The detail for a provider name claiming the reserved `jcs` prefix.
pub open spec fn name_prefix_detail() -> Seq<char> {
    "identity provider name must not begin with \"jcs\" (see spec §10.1)"@
}

/// The name rules for a host-defined identity provider.
pub open spec fn spec_validate_provider_name(s: Seq<char>) -> Result<(), Seq<char>> {
    if !name_shape(s) {
        Err(name_shape_detail())
    } else if has_prefix(s, "jcs"@) {
        Err(name_prefix_detail())
    } else {
        Ok(())
    }
}

/// Check a host-defined identity provider name: `^[a-z][a-z0-9_-]*$`,
/// and no `jcs` prefix (a custom provider must not claim the shipped
/// provider's semantics). Failures are `ContextInvalid` with a detail.
pub fn validate_provider_name(name: &str) -> (r: Result<(), (HostError, String)>)
    ensures
        match spec_validate_provider_name(name@) {
            Ok(_) => r is Ok,
            Err(d) => r matches Err(e) && e.0 == HostError::ContextInvalid && e.1@ == d,
        },
{
    let cs = crate::text::chars_of(name);
    let n = cs.len();
    let mut ok = n > 0 && cs[0] >= 'a' && cs[0] <= 'z';
    let mut i: usize = 0;
    while i < n
        invariant
            n == cs@.len(),
            cs@ == name@,
            i <= n,
            ok == (n > 0 && 'a' <= cs@[0] && cs@[0] <= 'z' && forall|j: int| 0 <= j < i ==> name_char(#[trigger] cs@[j])),
        decreases n - i,
    {
        let c = cs[i];
        let good = (c >= 'a' && c <= 'z') || (c >= '0' && c <= '9') || c == '_' || c == '-';
        if !good {
            ok = false;
        }
        i = i + 1;
    }
    if !ok {
        return Err((HostError::ContextInvalid, crate::text::to_owned("identity provider name must match ^[a-z][a-z0-9_-]*$ (see spec §10.1)")));
    }
    if starts_with(name, "jcs") {
        return Err((HostError::ContextInvalid, crate::text::to_owned("identity provider name must not begin with \"jcs\" (see spec §10.1)")));
    }
    Ok(())
}

/// A decision permits the action exactly when it is not a deny; a verdict
/// is liftable exactly when it is a deny carrying an approval block; every
/// interception point but startup and shutdown admits transforms.
pub proof fn law_decision_basics(d: Decision, v: VerdictView, ip: InterceptionPoint)
    ensures
        spec_permits(d) <==> !(d is Deny),
        spec_liftable(v) <==> (v.decision is Deny && v.approval is Some),
        spec_liftable(v) ==> !spec_permits(v.decision),
        spec_transform_permitted(ip) <==> !(ip is AgentStartup) && !(ip is AgentShutdown),
{
}

} // verus!
