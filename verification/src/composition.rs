//! Composition profiles and aggregation.
//!
//! Composition is host configuration, never verdict content: the host
//! declares which profile governs execution and aggregation, and the
//! profile in effect is recorded on every interception record. The
//! profile set is closed. Everything here is pure: severity and the
//! aggregation functions consume verdict lists and return indices and
//! outcomes.
use vstd::prelude::*;
use crate::types::{
    spec_liftable, spec_permits, strings_view, warnings_view, opt_str_view, opt_string_clone,
    Decision, Verdict, VerdictSummary, VerdictView, Warning, WarningView,
};

verus! {

/// The closed profile set.
#[derive(Debug, Clone, Copy, PartialEq, Eq, Structural)]
pub enum CompositionProfile {
    SequentialFirstDeny,
    SequentialRunAll,
    ParallelStrictest,
    ParallelUnanimous,
}

/// Whether interceptors observe predecessors' transforms.
pub open spec fn spec_is_sequential(p: CompositionProfile) -> bool {
    p is SequentialFirstDeny || p is SequentialRunAll
}

impl CompositionProfile {
    /// Wire name.
    pub fn as_str(self) -> (r: &'static str)
        ensures
            r@ == (match self {
                CompositionProfile::SequentialFirstDeny => "sequential/first_deny"@,
                CompositionProfile::SequentialRunAll => "sequential/run_all"@,
                CompositionProfile::ParallelStrictest => "parallel/strictest"@,
                CompositionProfile::ParallelUnanimous => "parallel/unanimous"@,
            }),
    {
        match self {
            CompositionProfile::SequentialFirstDeny => "sequential/first_deny",
            CompositionProfile::SequentialRunAll => "sequential/run_all",
            CompositionProfile::ParallelStrictest => "parallel/strictest",
            CompositionProfile::ParallelUnanimous => "parallel/unanimous",
        }
    }

    /// Whether interceptors observe predecessors' transforms (sequential)
    /// rather than isolated snapshots (parallel).
    pub fn is_sequential(self) -> (r: bool)
        ensures
            r == spec_is_sequential(self),
    {
        match self {
            CompositionProfile::SequentialFirstDeny | CompositionProfile::SequentialRunAll => true,
            _ => false,
        }
    }
}

/// `sequential/first_deny` knob: what a permit resolution does to the rest
/// of the fold.
#[derive(Debug, Clone, Copy, PartialEq, Eq, Structural)]
pub enum OnApproval {
    /// The resolution becomes the combined verdict; the emission ends.
    Stop,
    /// The resolution substitutes for the denying verdict and the fold
    /// continues.
    Resume,
}

/// `"deny" | "approval"` knob value: synthesize a plain deny, or a
/// liftable one and consult the seam.
#[derive(Debug, Clone, Copy, PartialEq, Eq, Structural)]
pub enum SynthesisPolicy {
    Deny,
    Approval,
}

/// The composition profile and knobs in effect for one emission.
#[derive(Debug, Clone, Copy, PartialEq, Eq, Structural)]
pub struct CompositionConfig {
    pub profile: CompositionProfile,
    /// `sequential/first_deny` only.
    pub on_approval: Option<OnApproval>,
    /// `parallel/unanimous` only.
    pub on_disagreement: Option<SynthesisPolicy>,
    /// Parallel profiles only.
    pub on_transform_conflict: Option<SynthesisPolicy>,
}

/// `o`, or `d` when `o` is absent.
pub open spec fn or_default<T>(o: Option<T>, d: T) -> Option<T> {
    match o {
        Some(x) => Some(x),
        None => Some(d),
    }
}

/// The configuration with the normative defaults filled in for the knobs
/// the profile consults and the other knobs cleared.
pub open spec fn spec_with_knob_defaults(c: CompositionConfig) -> CompositionConfig {
    match c.profile {
        CompositionProfile::SequentialFirstDeny => CompositionConfig {
            profile: c.profile,
            on_approval: or_default(c.on_approval, OnApproval::Stop),
            on_disagreement: None,
            on_transform_conflict: None,
        },
        CompositionProfile::SequentialRunAll => CompositionConfig {
            profile: c.profile,
            on_approval: None,
            on_disagreement: None,
            on_transform_conflict: None,
        },
        CompositionProfile::ParallelStrictest => CompositionConfig {
            profile: c.profile,
            on_approval: None,
            on_disagreement: None,
            on_transform_conflict: or_default(c.on_transform_conflict, SynthesisPolicy::Deny),
        },
        CompositionProfile::ParallelUnanimous => CompositionConfig {
            profile: c.profile,
            on_approval: None,
            on_disagreement: or_default(c.on_disagreement, SynthesisPolicy::Deny),
            on_transform_conflict: None,
        },
    }
}

/// A configuration of `profile` with every knob absent.
pub open spec fn bare(profile: CompositionProfile) -> CompositionConfig {
    CompositionConfig { profile: profile, on_approval: None, on_disagreement: None, on_transform_conflict: None }
}

impl CompositionConfig {
    /// Fill the normative knob defaults for the knobs this profile consults
    /// (`on_approval: stop`, synthesis knobs: `deny`) and clear knobs the
    /// profile never reads.
    pub fn with_knob_defaults(self) -> (r: Self)
        ensures
            r == spec_with_knob_defaults(self),
    {
        let mut c = self;
        match c.profile {
            CompositionProfile::SequentialFirstDeny => {
                if c.on_approval.is_none() {
                    c.on_approval = Some(OnApproval::Stop);
                }
                c.on_disagreement = None;
                c.on_transform_conflict = None;
            },
            CompositionProfile::SequentialRunAll => {
                c.on_approval = None;
                c.on_disagreement = None;
                c.on_transform_conflict = None;
            },
            CompositionProfile::ParallelStrictest => {
                c.on_approval = None;
                c.on_disagreement = None;
                if c.on_transform_conflict.is_none() {
                    c.on_transform_conflict = Some(SynthesisPolicy::Deny);
                }
            },
            CompositionProfile::ParallelUnanimous => {
                c.on_approval = None;
                if c.on_disagreement.is_none() {
                    c.on_disagreement = Some(SynthesisPolicy::Deny);
                }
                c.on_transform_conflict = None;
            },
        }
        c
    }

    /// `sequential/first_deny` with the given knob.
    pub fn first_deny(on_approval: OnApproval) -> (r: Self)
        ensures
            r == (CompositionConfig { on_approval: Some(on_approval), ..bare(CompositionProfile::SequentialFirstDeny) }),
    {
        CompositionConfig { on_approval: Some(on_approval), ..Self::default_bare(CompositionProfile::SequentialFirstDeny) }
    }

    /// `sequential/run_all`.
    pub fn run_all() -> (r: Self)
        ensures
            r == bare(CompositionProfile::SequentialRunAll),
    {
        Self::default_bare(CompositionProfile::SequentialRunAll)
    }

    /// `parallel/strictest` with the given transform-conflict knob.
    pub fn strictest(on_transform_conflict: SynthesisPolicy) -> (r: Self)
        ensures
            r == (CompositionConfig {
                on_transform_conflict: Some(on_transform_conflict),
                ..bare(CompositionProfile::ParallelStrictest)
            }),
    {
        CompositionConfig {
            on_transform_conflict: Some(on_transform_conflict),
            ..Self::default_bare(CompositionProfile::ParallelStrictest)
        }
    }

    /// `parallel/unanimous` with the given knobs.
    pub fn unanimous(on_disagreement: SynthesisPolicy, on_transform_conflict: SynthesisPolicy) -> (r: Self)
        ensures
            r == (CompositionConfig {
                on_disagreement: Some(on_disagreement),
                on_transform_conflict: Some(on_transform_conflict),
                ..bare(CompositionProfile::ParallelUnanimous)
            }),
    {
        CompositionConfig {
            on_disagreement: Some(on_disagreement),
            on_transform_conflict: Some(on_transform_conflict),
            ..Self::default_bare(CompositionProfile::ParallelUnanimous)
        }
    }

    fn default_bare(profile: CompositionProfile) -> (r: Self)
        ensures
            r == bare(profile),
    {
        CompositionConfig { profile, on_approval: None, on_disagreement: None, on_transform_conflict: None }
    }
}

/// The default configuration: `sequential/first_deny` with
/// `on_approval: stop`.
pub open spec fn default_config() -> CompositionConfig {
    CompositionConfig { on_approval: Some(OnApproval::Stop), ..bare(CompositionProfile::SequentialFirstDeny) }
}

impl Default for CompositionConfig {
    fn default() -> (r: Self)
        ensures
            r == default_config(),
    {
        CompositionConfig {
            profile: CompositionProfile::SequentialFirstDeny,
            on_approval: Some(OnApproval::Stop),
            on_disagreement: None,
            on_transform_conflict: None,
        }
    }
}

/// Filling defaults twice changes nothing more than filling them once.
pub proof fn law_knob_defaults_idempotent(c: CompositionConfig)
    ensures
        spec_with_knob_defaults(spec_with_knob_defaults(c)) == spec_with_knob_defaults(c),
{
}

// ---- severity and aggregation ---------------------------------------------

/// The fixed severity order: `deny > deny+approval > transform > allow`.
pub open spec fn spec_severity(v: VerdictView) -> nat {
    match v.decision {
        Decision::Deny => if v.approval is Some {
            2
        } else {
            3
        },
        Decision::Transform => 1,
        Decision::Allow => 0,
    }
}

/// Severity order: `deny` 3, liftable `deny` 2, `transform` 1, `allow` 0.
pub fn severity(v: &Verdict) -> (r: u8)
    ensures
        r as nat == spec_severity(v@),
{
    match (v.decision, v.is_liftable()) {
        (Decision::Deny, false) => 3,
        (Decision::Deny, true) => 2,
        (Decision::Transform, _) => 1,
        (Decision::Allow, _) => 0,
    }
}

/// Views of verdicts.
pub open spec fn views(vs: Seq<Verdict>) -> Seq<VerdictView> {
    vs.map_values(|v: Verdict| v@)
}

/// The highest severity in `s` (0 when empty).
pub open spec fn max_severity(s: Seq<VerdictView>) -> nat
    decreases s.len(),
{
    if s.len() == 0 {
        0
    } else {
        let m = max_severity(s.drop_last());
        let x = spec_severity(s.last());
        if x > m {
            x
        } else {
            m
        }
    }
}

/// Indices, ascending, of the verdicts in `s` with severity `m`.
pub open spec fn indices_with(s: Seq<VerdictView>, m: nat) -> Seq<int>
    decreases s.len(),
{
    if s.len() == 0 {
        Seq::empty()
    } else if spec_severity(s.last()) == m {
        indices_with(s.drop_last(), m).push(s.len() - 1)
    } else {
        indices_with(s.drop_last(), m)
    }
}

/// Outcome of severity-max aggregation.
#[derive(Debug, PartialEq, Eq)]
pub enum Aggregate {
    /// The winning verdict's index in the input.
    Winner(usize),
    /// Two or more transforms tied at the top under a parallel profile:
    /// transforms produced against the same snapshot do not compose.
    TransformConflict(Vec<usize>),
}

/// View of an aggregation outcome.
pub enum AggregateView {
    Winner(int),
    TransformConflict(Seq<int>),
}

impl View for Aggregate {
    type V = AggregateView;

    open spec fn view(&self) -> AggregateView {
        match self {
            Aggregate::Winner(i) => AggregateView::Winner(*i as int),
            Aggregate::TransformConflict(v) => AggregateView::TransformConflict(v@.map_values(|x: usize| x as int)),
        }
    }
}

/// Severity-max winner: ties between block verdicts resolve to the lowest
/// index; ties between transforms resolve to the highest index under a
/// sequential profile and are a conflict under a parallel one.
pub open spec fn spec_aggregate(s: Seq<VerdictView>, sequential: bool) -> AggregateView {
    let m = max_severity(s);
    let top = indices_with(s, m);
    if m == 1 && top.len() >= 2 {
        if sequential {
            AggregateView::Winner(top.last())
        } else {
            AggregateView::TransformConflict(top)
        }
    } else {
        AggregateView::Winner(top[0])
    }
}

/// `max_severity` is the severity of some verdict and bounds all of them.
pub proof fn lemma_max_severity(s: Seq<VerdictView>)
    ensures
        forall|j: int| 0 <= j < s.len() ==> spec_severity(#[trigger] s[j]) <= max_severity(s),
        s.len() > 0 ==> exists|j: int| 0 <= j < s.len() && spec_severity(#[trigger] s[j]) == max_severity(s),
        max_severity(s) <= 3,
    decreases s.len(),
{
    if s.len() > 0 {
        let t = s.drop_last();
        lemma_max_severity(t);
        assert forall|j: int| 0 <= j < s.len() implies spec_severity(#[trigger] s[j]) <= max_severity(s) by {
            if j < s.len() - 1 {
                assert(s[j] == t[j]);
            }
        }
        if spec_severity(s.last()) > max_severity(t) || t.len() == 0 {
            assert(spec_severity(s[s.len() - 1]) == max_severity(s));
        } else {
            let j = choose|j: int| 0 <= j < t.len() && spec_severity(#[trigger] t[j]) == max_severity(t);
            assert(s[j] == t[j]);
        }
    }
}

/// `indices_with` lists exactly the indices of severity `m`, ascending.
pub proof fn lemma_indices_with(s: Seq<VerdictView>, m: nat)
    ensures
        forall|k: int| 0 <= k < indices_with(s, m).len() ==> 0 <= #[trigger] indices_with(s, m)[k] < s.len()
            && spec_severity(s[indices_with(s, m)[k]]) == m,
        forall|k1: int, k2: int| 0 <= k1 < k2 < indices_with(s, m).len() ==> #[trigger] indices_with(s, m)[k1] < #[trigger] indices_with(s, m)[k2],
        forall|j: int| 0 <= j < s.len() && spec_severity(#[trigger] s[j]) == m ==> indices_with(s, m).contains(j),
    decreases s.len(),
{
    if s.len() > 0 {
        let t = s.drop_last();
        lemma_indices_with(t, m);
        let it = indices_with(t, m);
        assert forall|j: int| 0 <= j < s.len() && spec_severity(#[trigger] s[j]) == m implies indices_with(s, m).contains(j) by {
            if j < s.len() - 1 {
                assert(s[j] == t[j]);
                let k = choose|k: int| 0 <= k < it.len() && it[k] == j;
                assert(indices_with(s, m)[k] == j);
            } else {
                assert(indices_with(s, m)[indices_with(s, m).len() - 1] == j);
            }
        }
        assert forall|k: int| 0 <= k < indices_with(s, m).len() implies 0 <= #[trigger] indices_with(s, m)[k] < s.len()
            && spec_severity(s[indices_with(s, m)[k]]) == m by {
            if k < it.len() {
                assert(indices_with(s, m)[k] == it[k]);
                assert(s[it[k]] == t[it[k]]);
            }
        }
    }
}

/// Severity-max winner.
pub fn aggregate_strictest(verdicts: &Vec<Verdict>, sequential: bool) -> (r: Aggregate)
    requires
        verdicts@.len() > 0,
    ensures
        r@ == spec_aggregate(views(verdicts@), sequential),
{
    let ghost s = views(verdicts@);
    let n = verdicts.len();
    let mut max: u8 = 0;
    for i in 0..n
        invariant
            n == verdicts@.len(),
            s == views(verdicts@),
            max as nat == max_severity(s.take(i as int)),
    {
        proof {
            assert(s.take(i + 1).drop_last() =~= s.take(i as int));
            lemma_max_severity(s.take(i as int));
        }
        let x = severity(&verdicts[i]);
        if x > max {
            max = x;
        }
    }
    assert(s.take(n as int) =~= s);
    let mut top: Vec<usize> = Vec::new();
    for i in 0..n
        invariant
            n == verdicts@.len(),
            s == views(verdicts@),
            max as nat == max_severity(s),
            top@.map_values(|x: usize| x as int) == indices_with(s.take(i as int), max as nat),
    {
        proof {
            assert(s.take(i + 1).drop_last() =~= s.take(i as int));
        }
        let ghost before = top@;
        if severity(&verdicts[i]) == max {
            top.push(i);
        }
        assert(top@.map_values(|x: usize| x as int) =~= indices_with(s.take(i + 1), max as nat));
    }
    proof {
        lemma_max_severity(s);
        lemma_indices_with(s, max as nat);
        let j = choose|j: int| 0 <= j < s.len() && spec_severity(#[trigger] s[j]) == max_severity(s);
        assert(indices_with(s, max as nat).contains(j));
    }
    if max == 1 && top.len() >= 2 {
        if sequential {
            Aggregate::Winner(top[top.len() - 1])
        } else {
            Aggregate::TransformConflict(top)
        }
    } else {
        Aggregate::Winner(top[0])
    }
}

/// The aggregation winner has the highest severity of all verdicts; a
/// winning block verdict (severity 2 or 3) is the first of its severity;
/// a conflict names two or more transforms and there is no block verdict.
pub proof fn law_aggregate_strictest(s: Seq<VerdictView>, sequential: bool)
    requires
        s.len() > 0,
    ensures
        spec_aggregate(s, sequential) matches AggregateView::Winner(w) ==> {
            &&& 0 <= w < s.len()
            &&& forall|j: int| 0 <= j < s.len() ==> spec_severity(#[trigger] s[j]) <= spec_severity(s[w])
            &&& spec_severity(s[w]) >= 2 ==> forall|j: int| 0 <= j < w ==> spec_severity(#[trigger] s[j]) < spec_severity(s[w])
        },
        spec_aggregate(s, sequential) matches AggregateView::TransformConflict(t) ==> {
            &&& !sequential
            &&& t.len() >= 2
            &&& forall|k: int| 0 <= k < t.len() ==> s[#[trigger] t[k]].decision is Transform
            &&& forall|j: int| 0 <= j < s.len() ==> spec_severity(#[trigger] s[j]) <= 1
        },
{
    lemma_max_severity(s);
    let m = max_severity(s);
    lemma_indices_with(s, m);
    let top = indices_with(s, m);
    let j = choose|j: int| 0 <= j < s.len() && spec_severity(#[trigger] s[j]) == m;
    assert(top.contains(j));
    if !(m == 1 && top.len() >= 2) {
        let w = top[0];
        assert(0 <= w < s.len());
        assert forall|i: int| 0 <= i < w implies spec_severity(#[trigger] s[i]) < spec_severity(s[w]) by {
            if spec_severity(s[i]) == m {
                assert(top.contains(i));
                let k = choose|k: int| 0 <= k < top.len() && top[k] == i;
                if k > 0 {
                    assert(top[0] < top[k]);
                }
            }
        }
    } else if sequential {
        assert(0 <= top.last() < s.len());
    } else {
        assert forall|k: int| 0 <= k < top.len() implies s[#[trigger] top[k]].decision is Transform by {
            assert(spec_severity(s[top[k]]) == 1);
        }
    }
}

// ---- unanimity and liftability --------------------------------------------

/// Every verdict is an `allow`.
pub open spec fn spec_unanimous_allow(s: Seq<VerdictView>) -> bool {
    forall|i: int| 0 <= i < s.len() ==> (#[trigger] s[i]).decision is Allow
}

/// Anything but unanimous `allow` is a disagreement under
/// `parallel/unanimous`.
pub fn is_unanimous_allow(verdicts: &Vec<Verdict>) -> (r: bool)
    ensures
        r == spec_unanimous_allow(views(verdicts@)),
{
    let n = verdicts.len();
    for i in 0..n
        invariant
            n == verdicts@.len(),
            forall|j: int| 0 <= j < i ==> (#[trigger] views(verdicts@)[j]).decision is Allow,
    {
        if verdicts[i].decision != Decision::Allow {
            assert(!(views(verdicts@)[i as int].decision is Allow));
            return false;
        }
    }
    true
}

/// Every deny is liftable.
pub open spec fn spec_all_denies_liftable(s: Seq<VerdictView>) -> bool {
    forall|i: int| 0 <= i < s.len() && (#[trigger] s[i]).decision is Deny ==> spec_liftable(s[i])
}

/// The seam is consulted only when every deny in the emission is
/// liftable.
pub fn all_denies_liftable(verdicts: &Vec<Verdict>) -> (r: bool)
    ensures
        r == spec_all_denies_liftable(views(verdicts@)),
{
    let n = verdicts.len();
    for i in 0..n
        invariant
            n == verdicts@.len(),
            forall|j: int| 0 <= j < i && (#[trigger] views(verdicts@)[j]).decision is Deny ==> spec_liftable(views(verdicts@)[j]),
    {
        if verdicts[i].decision == Decision::Deny && !verdicts[i].is_liftable() {
            assert(views(verdicts@)[i as int].decision is Deny);
            return false;
        }
    }
    true
}

/// A liftable aggregation winner implies every deny is liftable.
pub proof fn law_liftable_winner_all_liftable(s: Seq<VerdictView>, sequential: bool)
    requires
        s.len() > 0,
        spec_aggregate(s, sequential) matches AggregateView::Winner(w) && spec_liftable(s[w]),
    ensures
        spec_all_denies_liftable(s),
{
    law_aggregate_strictest(s, sequential);
    if let AggregateView::Winner(w) = spec_aggregate(s, sequential) {
        assert forall|i: int| 0 <= i < s.len() && (#[trigger] s[i]).decision is Deny implies spec_liftable(s[i]) by {
            assert(spec_severity(s[i]) <= 2);
        }
    }
}

// ---- unions ---------------------------------------------------------------

/// `acc` extended by the items of `xs` it does not yet contain, in order.
pub open spec fn union_into<T>(acc: Seq<T>, xs: Seq<T>) -> Seq<T>
    decreases xs.len(),
{
    if xs.len() == 0 {
        acc
    } else {
        let a = union_into(acc, xs.drop_last());
        if a.contains(xs.last()) {
            a
        } else {
            a.push(xs.last())
        }
    }
}

/// First-seen-ordered union of the lists in `ls`.
pub open spec fn union_all<T>(ls: Seq<Seq<T>>) -> Seq<T>
    decreases ls.len(),
{
    if ls.len() == 0 {
        Seq::empty()
    } else {
        union_into(union_all(ls.drop_last()), ls.last())
    }
}

/// The warnings of each verdict.
pub open spec fn warning_lists(s: Seq<VerdictView>) -> Seq<Seq<WarningView>> {
    s.map_values(|v: VerdictView| v.warnings)
}

/// The labels of each permit verdict (non-permit verdicts contribute none).
pub open spec fn label_lists(s: Seq<VerdictView>) -> Seq<Seq<Seq<char>>> {
    s.map_values(|v: VerdictView| if spec_permits(v.decision) {
        v.result_labels
    } else {
        Seq::empty()
    })
}

/// `union_into` keeps `acc` as a prefix, adds no duplicates, and holds
/// exactly the items of `acc` and `xs`.
pub proof fn lemma_union_into<T>(acc: Seq<T>, xs: Seq<T>)
    ensures
        acc.no_duplicates() ==> union_into(acc, xs).no_duplicates(),
        forall|x: T| union_into(acc, xs).contains(x) <==> (acc.contains(x) || xs.contains(x)),
        union_into(acc, xs).len() >= acc.len(),
        union_into(acc, xs).subrange(0, acc.len() as int) == acc,
    decreases xs.len(),
{
    if xs.len() > 0 {
        let t = xs.drop_last();
        lemma_union_into(acc, t);
        let a = union_into(acc, t);
        assert forall|x: T| union_into(acc, xs).contains(x) <==> (acc.contains(x) || xs.contains(x)) by {
            if xs.contains(x) && !t.contains(x) {
                let k = choose|k: int| 0 <= k < xs.len() && xs[k] == x;
                if k < xs.len() - 1 {
                    assert(t[k] == x);
                }
                assert(x == xs.last());
                if !a.contains(x) {
                    assert(a.push(x)[a.len() as int] == x);
                }
            }
            if t.contains(x) {
                let k = choose|k: int| 0 <= k < t.len() && t[k] == x;
                assert(xs[k] == x);
            }
            if union_into(acc, xs).contains(x) && !a.contains(x) {
                let k = choose|k: int| 0 <= k < union_into(acc, xs).len() && union_into(acc, xs)[k] == x;
                if k < a.len() {
                    assert(a[k] == x);
                }
                assert(xs[xs.len() - 1] == x);
            }
            if a.contains(x) {
                let k = choose|k: int| 0 <= k < a.len() && a[k] == x;
                assert(union_into(acc, xs)[k] == x);
            }
        }
        assert(union_into(acc, xs).subrange(0, acc.len() as int) =~= acc) by {
            assert(a.subrange(0, acc.len() as int) == acc);
            if !a.contains(xs.last()) {
                assert(a.push(xs.last()).subrange(0, acc.len() as int) =~= a.subrange(0, acc.len() as int));
            }
        }
    }
}

/// The union of lists holds each item of each list exactly once, and
/// nothing else.
pub proof fn lemma_union_all<T>(ls: Seq<Seq<T>>)
    ensures
        union_all(ls).no_duplicates(),
        forall|x: T| union_all(ls).contains(x) <==> exists|i: int| 0 <= i < ls.len() && (#[trigger] ls[i]).contains(x),
    decreases ls.len(),
{
    if ls.len() > 0 {
        let t = ls.drop_last();
        lemma_union_all(t);
        lemma_union_into(union_all(t), ls.last());
        assert forall|x: T| union_all(ls).contains(x) <==> exists|i: int| 0 <= i < ls.len() && (#[trigger] ls[i]).contains(x) by {
            if exists|i: int| 0 <= i < ls.len() && (#[trigger] ls[i]).contains(x) {
                let i = choose|i: int| 0 <= i < ls.len() && (#[trigger] ls[i]).contains(x);
                if i < ls.len() - 1 {
                    assert(t[i] == ls[i]);
                }
            }
            if union_all(t).contains(x) {
                let i = choose|i: int| 0 <= i < t.len() && (#[trigger] t[i]).contains(x);
                assert(ls[i] == t[i]);
            }
        }
    } else {
        assert(Seq::<T>::empty().no_duplicates());
    }
}

/// Whether two optional strings hold the same characters.
fn opt_str_eq(a: &Option<String>, b: &Option<String>) -> (r: bool)
    ensures
        r == (opt_str_view(*a) == opt_str_view(*b)),
{
    match (a, b) {
        (Some(x), Some(y)) => crate::text::str_eq(x.as_str(), y.as_str()),
        (None, None) => true,
        _ => false,
    }
}

/// Whether `ws` holds a warning equal to `w`.
fn contains_warning(ws: &Vec<Warning>, w: &Warning) -> (r: bool)
    ensures
        r == warnings_view(ws@).contains(w@),
{
    let n = ws.len();
    for i in 0..n
        invariant
            n == ws@.len(),
            forall|j: int| 0 <= j < i ==> (#[trigger] warnings_view(ws@)[j]) != w@,
    {
        if opt_str_eq(&ws[i].reason, &w.reason) && opt_str_eq(&ws[i].message, &w.message) {
            assert(warnings_view(ws@)[i as int] == w@);
            return true;
        }
    }
    false
}

/// Whether `ls` holds a string equal to `l`.
fn contains_string(ls: &Vec<String>, l: &String) -> (r: bool)
    ensures
        r == strings_view(ls@).contains(l@),
{
    let n = ls.len();
    for i in 0..n
        invariant
            n == ls@.len(),
            forall|j: int| 0 <= j < i ==> (#[trigger] strings_view(ls@)[j]) != l@,
    {
        if crate::text::str_eq(ls[i].as_str(), l.as_str()) {
            assert(strings_view(ls@)[i as int] == l@);
            return true;
        }
    }
    false
}

/// First-seen-ordered union of `warnings` from every verdict.
pub fn union_warnings(verdicts: &Vec<Verdict>) -> (r: Vec<Warning>)
    ensures
        warnings_view(r@) == union_all(warning_lists(views(verdicts@))),
{
    let ghost ls = warning_lists(views(verdicts@));
    let mut out: Vec<Warning> = Vec::new();
    let n = verdicts.len();
    assert(warnings_view(out@) =~= union_all(ls.take(0)));
    for i in 0..n
        invariant
            n == verdicts@.len(),
            ls == warning_lists(views(verdicts@)),
            warnings_view(out@) == union_all(ls.take(i as int)),
    {
        let ghost acc0 = warnings_view(out@);
        let ws = &verdicts[i].warnings;
        assert(ls[i as int] == warnings_view(ws@));
        let m = ws.len();
        for k in 0..m
            invariant
                m == ws@.len(),
                warnings_view(out@) == union_into(acc0, warnings_view(ws@).take(k as int)),
        {
            proof {
                assert(warnings_view(ws@).take(k + 1).drop_last() =~= warnings_view(ws@).take(k as int));
            }
            if !contains_warning(&out, &ws[k]) {
                out.push(ws[k].clone());
                assert(warnings_view(out@) =~= union_into(acc0, warnings_view(ws@).take(k + 1)));
            } else {
                assert(warnings_view(out@) =~= union_into(acc0, warnings_view(ws@).take(k + 1)));
            }
        }
        proof {
            assert(warnings_view(ws@).take(m as int) =~= warnings_view(ws@));
            assert(ls.take(i + 1).drop_last() =~= ls.take(i as int));
        }
    }
    assert(ls.take(n as int) =~= ls);
    out
}

/// First-seen-ordered union of `result_labels` from every permit verdict.
pub fn union_labels(verdicts: &Vec<Verdict>) -> (r: Vec<String>)
    ensures
        strings_view(r@) == union_all(label_lists(views(verdicts@))),
{
    let ghost ls = label_lists(views(verdicts@));
    let mut out: Vec<String> = Vec::new();
    let n = verdicts.len();
    assert(strings_view(out@) =~= union_all(ls.take(0)));
    for i in 0..n
        invariant
            n == verdicts@.len(),
            ls == label_lists(views(verdicts@)),
            strings_view(out@) == union_all(ls.take(i as int)),
    {
        let ghost acc0 = strings_view(out@);
        proof {
            assert(ls.take(i + 1).drop_last() =~= ls.take(i as int));
        }
        if verdicts[i].decision.permits() {
            let xs = &verdicts[i].result_labels;
            assert(ls[i as int] == strings_view(xs@));
            let m = xs.len();
            for k in 0..m
                invariant
                    m == xs@.len(),
                    strings_view(out@) == union_into(acc0, strings_view(xs@).take(k as int)),
            {
                proof {
                    assert(strings_view(xs@).take(k + 1).drop_last() =~= strings_view(xs@).take(k as int));
                }
                if !contains_string(&out, &xs[k]) {
                    out.push(xs[k].clone());
                    assert(strings_view(out@) =~= union_into(acc0, strings_view(xs@).take(k + 1)));
                } else {
                    assert(strings_view(out@) =~= union_into(acc0, strings_view(xs@).take(k + 1)));
                }
            }
            assert(strings_view(xs@).take(m as int) =~= strings_view(xs@));
        } else {
            assert(ls[i as int] =~= Seq::<Seq<char>>::empty());
        }
    }
    assert(ls.take(n as int) =~= ls);
    out
}

/// The unions hold each warning (label) of the pool once, and nothing
/// else; labels come only from permit verdicts.
pub proof fn law_unions(s: Seq<VerdictView>)
    ensures
        union_all(warning_lists(s)).no_duplicates(),
        forall|w: WarningView| union_all(warning_lists(s)).contains(w) <==> exists|i: int| 0 <= i < s.len() && (#[trigger] s[i]).warnings.contains(w),
        union_all(label_lists(s)).no_duplicates(),
        forall|l: Seq<char>| union_all(label_lists(s)).contains(l) <==> exists|i: int| 0 <= i < s.len() && spec_permits((#[trigger] s[i]).decision) && s[i].result_labels.contains(l),
{
    lemma_union_all(warning_lists(s));
    lemma_union_all(label_lists(s));
    assert forall|w: WarningView| union_all(warning_lists(s)).contains(w) <==> exists|i: int| 0 <= i < s.len() && (#[trigger] s[i]).warnings.contains(w) by {
        if exists|i: int| 0 <= i < s.len() && (#[trigger] s[i]).warnings.contains(w) {
            let i = choose|i: int| 0 <= i < s.len() && (#[trigger] s[i]).warnings.contains(w);
            assert(warning_lists(s)[i] == s[i].warnings);
        }
    }
    assert forall|l: Seq<char>| union_all(label_lists(s)).contains(l) <==> exists|i: int| 0 <= i < s.len() && spec_permits((#[trigger] s[i]).decision) && s[i].result_labels.contains(l) by {
        if exists|i: int| 0 <= i < s.len() && spec_permits((#[trigger] s[i]).decision) && s[i].result_labels.contains(l) {
            let i = choose|i: int| 0 <= i < s.len() && spec_permits((#[trigger] s[i]).decision) && s[i].result_labels.contains(l);
            assert(label_lists(s)[i] == s[i].result_labels);
        }
        if union_all(label_lists(s)).contains(l) {
            let i = choose|i: int| 0 <= i < label_lists(s).len() && (#[trigger] label_lists(s)[i]).contains(l);
            assert(label_lists(s)[i] == (if spec_permits(s[i].decision) { s[i].result_labels } else { Seq::empty() }));
        }
    }
}

// ---- summaries and unions on the combined verdict -------------------------

/// The summary of verdict `i`.
pub open spec fn summary_of(i: int, v: Verdict) -> VerdictSummary {
    VerdictSummary { index: i as u32, decision: v.decision, reason: v.reason, name: None }
}

/// Payload-free per-interceptor summaries for the record.
pub fn summaries(verdicts: &Vec<Verdict>) -> (r: Vec<VerdictSummary>)
    ensures
        r@.len() == verdicts@.len(),
        forall|i: int| 0 <= i < r@.len() ==> #[trigger] r@[i] == summary_of(i, verdicts@[i]),
{
    let mut out: Vec<VerdictSummary> = Vec::new();
    let n = verdicts.len();
    for i in 0..n
        invariant
            n == verdicts@.len(),
            out@.len() == i,
            forall|j: int| 0 <= j < i ==> #[trigger] out@[j] == summary_of(j, verdicts@[j]),
    {
        out.push(
            VerdictSummary {
                index: #[verifier::truncate] (i as u32),
                decision: verdicts[i].decision,
                reason: opt_string_clone(&verdicts[i].reason),
                name: None,
            },
        );
    }
    out
}

/// [`summaries`] with the host's payload-free interceptor names attached
/// positionally.
pub fn summaries_named(verdicts: &Vec<Verdict>, names: &Vec<Option<String>>) -> (r: Vec<VerdictSummary>)
    ensures
        r@.len() == verdicts@.len(),
        forall|i: int| 0 <= i < r@.len() ==> #[trigger] r@[i] == (VerdictSummary {
            name: if (i as u32) < names@.len() {
                names@[(i as u32) as int]
            } else {
                None
            },
            ..summary_of(i, verdicts@[i])
        }),
{
    let mut out = summaries(verdicts);
    let n = out.len();
    for i in 0..n
        invariant
            n == out@.len(),
            n == verdicts@.len(),
            forall|j: int| i <= j < n ==> #[trigger] out@[j] == summary_of(j, verdicts@[j]),
            forall|j: int| 0 <= j < i ==> #[trigger] out@[j] == (VerdictSummary {
                name: if (j as u32) < names@.len() {
                    names@[(j as u32) as int]
                } else {
                    None
                },
                ..summary_of(j, verdicts@[j])
            }),
    {
        let idx = out[i].index as usize;
        if idx < names.len() {
            let mut s = out[i].clone();
            s.name = opt_string_clone(&names[idx]);
            out.set(i, s);
        }
    }
    out
}

/// The combined verdict with the emission's unions applied: warnings from
/// every verdict in the pool (when any), labels only onto a permit
/// combination (when any).
pub open spec fn spec_with_unions(c: VerdictView, pool: Seq<VerdictView>) -> VerdictView {
    let w = union_all(warning_lists(pool));
    let l = union_all(label_lists(pool));
    VerdictView {
        warnings: if w.len() > 0 {
            w
        } else {
            c.warnings
        },
        result_labels: if spec_permits(c.decision) && l.len() > 0 {
            l
        } else {
            c.result_labels
        },
        ..c
    }
}

/// Apply the metadata unions to a combined verdict.
pub fn with_unions(combined: Verdict, pool: &Vec<Verdict>) -> (r: Verdict)
    ensures
        r@ == spec_with_unions(combined@, views(pool@)),
{
    let mut combined = combined;
    let warnings = union_warnings(pool);
    if warnings.len() > 0 {
        combined.warnings = warnings;
    }
    if combined.decision.permits() {
        let labels = union_labels(pool);
        if labels.len() > 0 {
            combined.result_labels = labels;
        }
    }
    combined
}

/// Applying the unions changes only warnings and labels. A combination
/// that does not permit keeps its own labels; a permit combination takes
/// exactly the labels of the pool's permit verdicts when there are any.
/// The warnings become exactly the pool's when it has any.
pub proof fn law_with_unions(c: VerdictView, pool: Seq<VerdictView>)
    ensures
        spec_with_unions(c, pool).decision == c.decision,
        spec_with_unions(c, pool).reason == c.reason,
        spec_with_unions(c, pool).message == c.message,
        spec_with_unions(c, pool).approval == c.approval,
        spec_with_unions(c, pool).transform == c.transform,
        spec_with_unions(c, pool).evidence == c.evidence,
        !spec_permits(c.decision) ==> spec_with_unions(c, pool).result_labels == c.result_labels,
        (forall|i: int| 0 <= i < pool.len() && spec_permits((#[trigger] pool[i]).decision) ==> pool[i].result_labels.len() == 0)
            ==> spec_with_unions(c, pool).result_labels == c.result_labels,
        spec_permits(c.decision) && (exists|i: int| 0 <= i < pool.len() && spec_permits((#[trigger] pool[i]).decision) && pool[i].result_labels.len() > 0)
            ==> forall|l: Seq<char>| spec_with_unions(c, pool).result_labels.contains(l)
                <==> exists|i: int| 0 <= i < pool.len() && spec_permits((#[trigger] pool[i]).decision) && pool[i].result_labels.contains(l),
        (exists|i: int| 0 <= i < pool.len() && (#[trigger] pool[i]).warnings.len() > 0)
            ==> forall|w: WarningView| spec_with_unions(c, pool).warnings.contains(w)
                <==> exists|i: int| 0 <= i < pool.len() && (#[trigger] pool[i]).warnings.contains(w),
        (forall|i: int| 0 <= i < pool.len() ==> (#[trigger] pool[i]).warnings.len() == 0)
            ==> spec_with_unions(c, pool).warnings == c.warnings,
{
    law_unions(pool);
    let w = union_all(warning_lists(pool));
    let l = union_all(label_lists(pool));
    if exists|i: int| 0 <= i < pool.len() && spec_permits((#[trigger] pool[i]).decision) && pool[i].result_labels.len() > 0 {
        let i = choose|i: int| 0 <= i < pool.len() && spec_permits((#[trigger] pool[i]).decision) && pool[i].result_labels.len() > 0;
        assert(pool[i].result_labels.contains(pool[i].result_labels[0]));
        assert(l.contains(pool[i].result_labels[0]));
    }
    if l.len() > 0 {
        assert(l.contains(l[0]));
        let i = choose|i: int| 0 <= i < pool.len() && spec_permits((#[trigger] pool[i]).decision) && pool[i].result_labels.contains(l[0]);
        assert(pool[i].result_labels.len() > 0);
    }
    if exists|i: int| 0 <= i < pool.len() && (#[trigger] pool[i]).warnings.len() > 0 {
        let i = choose|i: int| 0 <= i < pool.len() && (#[trigger] pool[i]).warnings.len() > 0;
        assert(pool[i].warnings.contains(pool[i].warnings[0]));
        assert(w.contains(pool[i].warnings[0]));
    }
    if w.len() > 0 {
        assert(w.contains(w[0]));
        let i = choose|i: int| 0 <= i < pool.len() && (#[trigger] pool[i]).warnings.contains(w[0]);
        assert(pool[i].warnings.len() > 0);
    }
}


/// Each summary names its verdict's position, decision and reason, and
/// nothing of its payload.
pub proof fn law_summary_of(i: int, v: Verdict)
    requires
        0 <= i <= u32::MAX,
    ensures
        summary_of(i, v).index == i,
        summary_of(i, v).decision == v.decision,
        summary_of(i, v).reason == v.reason,
        summary_of(i, v).name is None,
{
}
} // verus!
