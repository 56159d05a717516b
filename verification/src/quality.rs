//! What an update reports about itself: issues, severities and quality figures.

use crate::double::{zero, Double};
use vstd::prelude::*;

verus! {

/// Kinds of trouble that an estimator can report.
#[derive(Clone, Copy, Debug, PartialEq, Eq, Structural)]
pub enum IssueCode {
    /// The design has no rows or no columns.
    EmptyMatrix,
    /// Two inputs that belong together differ in length.
    DimensionMismatch,
    /// A target is needed and none was given.
    MissingTarget,
    /// An input holds an infinity or a NaN.
    NonFiniteInput,
    /// A parameter or a counter is out of range.
    InvalidParameter,
    /// A weight or a rate is out of range.
    InvalidWeight,
    /// Stored or computed state is not finite.
    NonFiniteOutput,
    /// A result is too large to represent.
    NumericalOverflow,
    /// A nonzero result is too small to represent.
    NumericalUnderflow,
    /// The estimator has not been initialised.
    PartialFitBeforeInit,
    /// The number of columns changed between batches.
    FeatureSpaceChangedOnline,
    /// The update carried no usable information.
    UpdateWithZeroInformation,
    /// Too few observations so far.
    WarmupIncomplete,
    /// Forgetting left too small an effective sample to determine the parameters.
    ForgettingErasedIdentification,
    /// A matrix is too close to singular.
    NearSingular,
    /// The fit says nothing about the data.
    MeaninglessFit,
    /// A causal reading is not supported by the data.
    CausalClaimUnidentified,
    /// One class is far rarer than the others.
    ClassImbalanceSevere,
    /// Clusters coincide.
    DegenerateClusters,
    /// A distribution has collapsed.
    DegenerateDistribution,
    /// A step was too long.
    LearningRateTooLarge,
    /// A polynomial expansion grew too wide.
    PolynomialExplosion,
    /// The inputs drifted while the relation to the target may not have.
    VirtualDriftDetected,
    /// A column hardly varies.
    NearZeroVariance,
    /// A change in the data stream was detected.
    ConceptDriftDetected,
    /// Fewer than two seasonal cycles were seen.
    InsufficientSeasonalCycles,
    /// Too few observations for a statistic.
    InsufficientSample,
    /// A cluster has no members.
    EmptyCluster,
    /// A missing value has no replacement.
    ImputationUndefined,
    /// A derived probability is only approximate.
    PValueUnreliable,
    /// A cheaper variant stands in for the exact method.
    JitterInjected,
}

/// Severity given to an issue in place of its default.
#[derive(Clone, Copy, Debug, PartialEq, Eq, Structural)]
pub enum Severity {
    /// The result is usable as it is.
    Advisory,
    /// The result is usable with care.
    Warning,
}

/// One reported issue.
#[derive(Clone, Copy, Debug, PartialEq, Eq, Structural)]
pub struct Issue {
    /// What went wrong.
    pub code: IssueCode,
    /// The severity, where it differs from the default of the code.
    pub severity: Option<Severity>,
}

/// An issue with the default severity of its code.
#[verifier::allow_in_spec]
pub fn issue(code: IssueCode) -> (r: Issue)
    returns
        (Issue { code, severity: None }),
{
    Issue { code, severity: None }
}

/// An issue that is a warning.
#[verifier::allow_in_spec]
pub fn warning(code: IssueCode) -> (r: Issue)
    returns
        (Issue { code, severity: Some(Severity::Warning) }),
{
    Issue { code, severity: Some(Severity::Warning) }
}

/// An issue that is an advice.
#[verifier::allow_in_spec]
pub fn advisory(code: IssueCode) -> (r: Issue)
    returns
        (Issue { code, severity: Some(Severity::Advisory) }),
{
    Issue { code, severity: Some(Severity::Advisory) }
}

/// Thresholds that a caller sets.
#[derive(Clone, Copy, Debug, PartialEq, Eq, Structural)]
pub struct Policy {
    /// At or below this, a change counts as none.
    pub uninformative_info_eps: Double,
    /// Below this, forgetting has gone too far.
    pub min_effective_sample: Double,
    /// At or below this, a spread counts as none.
    pub near_zero_variance: Double,
}

/// Figures that describe one incremental update.
#[derive(Clone, Copy, Debug, PartialEq, Eq, Structural)]
pub struct IncrementalQuality {
    /// Number of updates before this one.
    pub update: u64,
    /// Rows in the batch.
    pub batch: usize,
    /// Observations seen after the update.
    pub n_seen: u64,
    /// Number of equally weighted observations that carry the same information.
    pub effective_sample_size: Double,
    /// Length of the parameter change.
    pub parameter_delta_norm: Option<Double>,
    /// Largest change of one parameter.
    pub parameter_delta_max: Option<Double>,
    /// Loss on the batch before the update.
    pub loss_before: Option<Double>,
    /// Loss on the batch after the update.
    pub loss_after: Option<Double>,
    /// Information that the batch carried.
    pub information_gain: Option<Double>,
    /// Statistic of a drift detector.
    pub drift_statistic: Option<Double>,
    /// Weight kept by old observations at each step.
    pub forgetting_factor: Option<Double>,
    /// Whether the parameters are determined by the data.
    pub still_identified: bool,
    /// Whether too few observations were seen so far.
    pub warmup: bool,
}

impl IncrementalQuality {
    /// Figures of an update that changed nothing.
    #[verifier::allow_in_spec]
    pub fn new(update: u64, batch: usize, n_seen: u64) -> (q: IncrementalQuality)
        returns
            (IncrementalQuality {
                update,
                batch,
                n_seen,
                effective_sample_size: zero(),
                parameter_delta_norm: None,
                parameter_delta_max: None,
                loss_before: None,
                loss_after: None,
                information_gain: None,
                drift_statistic: None,
                forgetting_factor: None,
                still_identified: false,
                warmup: false,
            }),
    {
        IncrementalQuality {
            update,
            batch,
            n_seen,
            effective_sample_size: zero(),
            parameter_delta_norm: None,
            parameter_delta_max: None,
            loss_before: None,
            loss_after: None,
            information_gain: None,
            drift_statistic: None,
            forgetting_factor: None,
            still_identified: false,
            warmup: false,
        }
    }
}

/// A value with the issues raised while it was computed.
#[derive(Clone, Debug)]
pub struct Qualified<T> {
    /// The value.
    pub value: T,
    /// The issues, in the order in which they were raised.
    pub report: Vec<Issue>,
}

/// A refused batch. The estimator is unchanged.
#[derive(Clone, Debug)]
pub struct Failure {
    /// The reasons, at least one, in the order in which they were found.
    pub issues: Vec<Issue>,
}

impl Failure {
    /// The first reason.
    pub fn primary(&self) -> (r: Issue)
        requires
            self.issues@.len() > 0,
        ensures
            r == self.issues@[0],
    {
        self.issues[0]
    }

    /// Whether `code` is among the reasons.
    pub fn contains(&self, code: IssueCode) -> (r: bool)
        ensures
            r == raised(self.issues@, code),
    {
        contains(&self.issues, code)
    }
}

/// What an update did and what it reports.
#[derive(Clone, Debug)]
pub struct Update {
    /// Quality figures.
    pub quality: IncrementalQuality,
    /// Issues raised before the update is screened for information.
    pub issues: Vec<Issue>,
    /// Whether the update is screened for information at all.
    pub screened: bool,
    /// Whether the estimator itself found that the batch moved nothing.
    pub idle: bool,
    /// Issues raised after that.
    pub trailing: Vec<Issue>,
}

/// Whether `code` occurs among `issues`.
pub open spec fn raised(issues: Seq<Issue>, code: IssueCode) -> bool {
    exists|i: int| 0 <= i < issues.len() && (#[trigger] issues[i]).code == code
}

/// Whether `code` occurs among `issues`.
pub fn contains(issues: &Vec<Issue>, code: IssueCode) -> (r: bool)
    ensures
        r == raised(issues@, code),
{
    let mut i: usize = 0;
    while i < issues.len()
        invariant
            i <= issues.len(),
            forall|k: int| 0 <= k < i ==> (#[trigger] issues@[k]).code != code,
        decreases issues.len() - i,
    {
        if issues[i].code == code {
            return true;
        }
        i = i + 1;
    }
    false
}

/// The full report of an update: the zero-information issue stands between the
/// earlier and the trailing issues, where the screening found the update empty.
pub open spec fn full_report(update: &Update, uninformative: bool) -> Seq<Issue> {
    if update.screened && (uninformative || update.idle) {
        update.issues@.push(issue(IssueCode::UpdateWithZeroInformation)) + update.trailing@
    } else {
        update.issues@ + update.trailing@
    }
}

impl Update {
    /// The full report, given whether the figures were found uninformative.
    pub fn finish(self, uninformative: bool) -> (r: Qualified<IncrementalQuality>)
        ensures
            r.value == self.quality,
            r.report@ == full_report(&self, uninformative),
    {
        let quality = self.quality;
        let mut report = self.issues;
        let mut trailing = self.trailing;
        if self.screened && (uninformative || self.idle) {
            report.push(issue(IssueCode::UpdateWithZeroInformation));
        }
        report.append(&mut trailing);
        Qualified { value: quality, report }
    }
}

/// The issue `code` if `condition` holds.
pub open spec fn given(condition: bool, code: IssueCode) -> Seq<Issue> {
    if condition {
        seq![issue(code)]
    } else {
        Seq::empty()
    }
}

/// Appends the issue `code` if `condition` holds.
pub fn raise(issues: &mut Vec<Issue>, condition: bool, code: IssueCode)
    ensures
        final(issues)@ == old(issues)@ + given(condition, code),
{
    if condition {
        issues.push(issue(code));
        assert(issues@ =~= old(issues)@ + given(condition, code));
    } else {
        assert(issues@ =~= old(issues)@ + given(condition, code));
    }
}

} // verus!
