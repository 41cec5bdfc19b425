//! agent-hooks: a framework-neutral agent control contract.
//!
//! The library holds the contract's logic: the context builder, the
//! `jcs-sha256` identity provider, transform paths, verdict validation and
//! composition, the enforcement record, the decision steps of an emission,
//! and the conformance assertion engine. Everything here is verified;
//! contracts speak of the mathematical views in [`json`].
use vstd::prelude::*;

pub mod canonical;
pub mod builder;
pub mod composition;
pub mod ctk_engine;
pub mod ctk_runner;
pub mod emitter;
pub mod enforce;
pub mod ffi_surface;
pub mod jcs;
pub mod json;
pub mod path;
pub mod text;
pub mod types;
pub mod verdict;

pub use builder::AgentContextBuilder;
pub use canonical::{canonical_json, context_identity, MAX_SAFE_INTEGER};
pub use composition::{
    aggregate_strictest, severity, Aggregate, CompositionConfig, CompositionProfile, OnApproval,
    SynthesisPolicy,
};
pub use emitter::HostFailure;
pub use enforce::{apply_transform_to_ctx, finalize, validate_transform, FinalizeMeta};
pub use path::{apply as apply_transform_path, parse as parse_transform_path, resolve, Segment};
pub use types::{
    ApprovalOutcome, ApprovalResolution, Decision, EnforcementMode, Evidence, HostError,
    InterceptionPoint, InterceptionRecord, Transform, Verdict, VerdictSummary, Warning,
    EVIDENCE_MAX_BYTES, JCS_SHA256, SPEC_VERSION,
};
pub use verdict::from_wire as verdict_from_wire;

verus! {
} // verus!
