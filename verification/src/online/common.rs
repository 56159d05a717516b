//! Arithmetic and input checks shared by the streaming statistics.

use crate::constants::{half, two};
use crate::data::Matrix;
use crate::double::{nan, one, zero, Double};
use crate::quality::{given, issue, raise, Issue, IssueCode};
use vstd::prelude::*;

verus! {

/// A target as a sequence, if there is one.
pub open spec fn target(y: Option<&Vec<Double>>) -> Option<Seq<Double>> {
    match y {
        Some(v) => Some(v@),
        None => None,
    }
}

/// Shape checks of an incremental design: an empty design is reported alone,
/// otherwise a target of another length.
pub open spec fn shape_issues(x: &Matrix, y: Option<Seq<Double>>) -> Seq<Issue> {
    if x.height() == 0 || x.width == 0 {
        seq![issue(IssueCode::EmptyMatrix)]
    } else {
        match y {
            Some(t) => given(t.len() != x.height(), IssueCode::DimensionMismatch),
            None => Seq::empty(),
        }
    }
}

/// Appends the shape checks of an incremental design.
pub fn inspect_online_xy(issues: &mut Vec<Issue>, x: &Matrix, y: Option<&Vec<Double>>)
    ensures
        final(issues)@ == old(issues)@ + shape_issues(x, target(y)),
{
    if x.nrows() == 0 || x.ncols() == 0 {
        issues.push(issue(IssueCode::EmptyMatrix));
        assert(issues@ =~= old(issues)@ + shape_issues(x, target(y)));
        return;
    }
    match y {
        Some(t) => {
            raise(issues, t.len() != x.nrows(), IssueCode::DimensionMismatch);
        },
        None => {
            assert(issues@ =~= old(issues)@ + shape_issues(x, target(y)));
        },
    }
}

/// The second observation of row `i`: column 1 where there is one, else the target.
pub open spec fn second(x: &Matrix, y: Option<Seq<Double>>, i: int) -> Double {
    if x.width >= 2 {
        x.at(i, 1)
    } else {
        y->0[i]
    }
}

/// Column 0.
pub open spec fn first_column(x: &Matrix) -> Seq<Double> {
    Seq::new(x.height(), |i: int| x.at(i, 0))
}

/// Column 0 paired with column 1 or the target.
pub open spec fn pairs(x: &Matrix, y: Option<Seq<Double>>) -> Seq<(Double, Double)> {
    Seq::new(x.height(), |i: int| (x.at(i, 0), second(x, y, i)))
}

/// Whether row `i` holds a value that is not finite where one is read.
pub open spec fn bad_row(x: &Matrix, y: Option<Seq<Double>>, pairwise: bool, i: int) -> bool {
    !x.at(i, 0).is_finite() || (pairwise && !second(x, y, i).is_finite())
}

/// Whether the shapes fit together.
pub open spec fn misshapen(x: &Matrix, y: Option<Seq<Double>>, pairwise: bool) -> bool {
    ||| x.height() == 0
    ||| x.width == 0
    ||| pairwise && y is Some && y->0.len() != x.height()
    ||| pairwise && x.width < 2 && y is None
}

/// All reasons to refuse a batch before any arithmetic, in order.
pub open spec fn preflight_issues(
    x: &Matrix,
    y: Option<Seq<Double>>,
    pairwise: bool,
    updates: u64,
    n_seen: u64,
) -> Seq<Issue> {
    given(x.height() == 0 || x.width == 0, IssueCode::EmptyMatrix) + given(
        pairwise && y is Some && y->0.len() != x.height(),
        IssueCode::DimensionMismatch,
    ) + given(pairwise && x.width < 2 && y is None, IssueCode::MissingTarget) + given(
        !misshapen(x, y, pairwise) && exists|i: int|
            0 <= i < x.height() && #[trigger] bad_row(x, y, pairwise, i),
        IssueCode::NonFiniteInput,
    ) + given(n_seen + x.height() > u64::MAX, IssueCode::InvalidParameter) + given(
        updates == u64::MAX,
        IssueCode::InvalidParameter,
    )
}

/// Checks a batch before any arithmetic.
pub fn online_moment_preflight(
    x: &Matrix,
    y: Option<&Vec<Double>>,
    pairwise: bool,
    updates: u64,
    n_seen: u64,
) -> (issues: Vec<Issue>)
    requires
        x.wf(),
    ensures
        issues@ == preflight_issues(x, target(y), pairwise, updates, n_seen),
{
    let mut issues: Vec<Issue> = Vec::new();
    let n: usize = x.nrows();
    let empty: bool = n == 0 || x.ncols() == 0;
    let mismatch: bool = pairwise && match y {
        Some(t) => t.len() != n,
        None => false,
    };
    let missing: bool = pairwise && x.ncols() < 2 && y.is_none();
    raise(&mut issues, empty, IssueCode::EmptyMatrix);
    raise(&mut issues, mismatch, IssueCode::DimensionMismatch);
    raise(&mut issues, missing, IssueCode::MissingTarget);
    let bad: bool = if empty || mismatch || missing {
        false
    } else {
        find_bad_row(x, y, pairwise)
    };
    raise(&mut issues, bad, IssueCode::NonFiniteInput);
    raise(&mut issues, n as u64 > u64::MAX - n_seen, IssueCode::InvalidParameter);
    raise(&mut issues, updates == u64::MAX, IssueCode::InvalidParameter);
    assert(issues@ =~= preflight_issues(x, target(y), pairwise, updates, n_seen));
    issues
}

/// Where no reason was found, the batch can be read and counted.
pub proof fn lemma_preflight_covers(x: &Matrix, y: Option<Seq<Double>>, pairwise: bool, updates: u64, n_seen: u64)
    ensures
        preflight_issues(x, y, pairwise, updates, n_seen).len() == 0 ==> {
            &&& !misshapen(x, y, pairwise)
            &&& n_seen + x.height() <= u64::MAX
            &&& updates < u64::MAX
            &&& forall|i: int| 0 <= i < x.height() ==> !#[trigger] bad_row(x, y, pairwise, i)
        },
{
}

/// `x` holds the rows of `x1` followed by those of `x2`.
pub open spec fn stacked(x1: &Matrix, x2: &Matrix, x: &Matrix) -> bool {
    &&& x1.width == x.width
    &&& x2.width == x.width
    &&& x.height() == x1.height() + x2.height()
    &&& forall|i: int, j: int| 0 <= i < x1.height() && 0 <= j < x.width ==> #[trigger] x.at(i, j) == x1.at(i, j)
    &&& forall|i: int, j: int|
        0 <= i < x2.height() && 0 <= j < x.width ==> #[trigger] x2.at(i, j) == x.at(x1.height() + i, j)
}

/// The targets of two batches in a row.
pub open spec fn joined(y1: Option<Seq<Double>>, y2: Option<Seq<Double>>) -> Option<Seq<Double>> {
    match (y1, y2) {
        (Some(a), Some(b)) => Some(a + b),
        _ => None,
    }
}

/// A row of a stacked batch is bad exactly if the row it comes from is.
pub proof fn lemma_stacked_rows(
    x1: &Matrix,
    y1: Option<Seq<Double>>,
    x2: &Matrix,
    y2: Option<Seq<Double>>,
    x: &Matrix,
    pairwise: bool,
)
    requires
        stacked(x1, x2, x),
        !misshapen(x1, y1, pairwise),
        !misshapen(x2, y2, pairwise),
    ensures
        !misshapen(x, joined(y1, y2), pairwise),
        forall|i: int| 0 <= i < x1.height() ==> #[trigger] x.at(i, 0) == x1.at(i, 0),
        forall|i: int|
            x1.height() <= i < x.height() ==> #[trigger] x.at(i, 0) == x2.at(i - x1.height(), 0),
        pairwise ==> forall|i: int|
            0 <= i < x1.height() ==> #[trigger] second(x, joined(y1, y2), i) == second(x1, y1, i),
        pairwise ==> forall|i: int|
            x1.height() <= i < x.height() ==> #[trigger] second(x, joined(y1, y2), i) == second(
                x2,
                y2,
                i - x1.height(),
            ),
{
    assert forall|i: int, j: int| x1.height() <= i < x.height() && 0 <= j < x.width implies #[trigger] x.at(i, j)
        == x2.at(i - x1.height(), j) by {
        assert(x2.at(i - x1.height(), j) == x.at(x1.height() + (i - x1.height()), j));
    }
}

/// What is accepted in two batches passes the checks in one.
pub proof fn lemma_preflight_joins(
    x1: &Matrix,
    y1: Option<Seq<Double>>,
    x2: &Matrix,
    y2: Option<Seq<Double>>,
    x: &Matrix,
    pairwise: bool,
    updates: u64,
    later: u64,
    n_seen: u64,
    n_then: u64,
)
    requires
        stacked(x1, x2, x),
        n_then == n_seen + x1.height(),
        preflight_issues(x1, y1, pairwise, updates, n_seen).len() == 0,
        preflight_issues(x2, y2, pairwise, later, n_then).len() == 0,
    ensures
        preflight_issues(x, joined(y1, y2), pairwise, updates, n_seen).len() == 0,
{
    let y = joined(y1, y2);
    lemma_preflight_covers(x1, y1, pairwise, updates, n_seen);
    lemma_preflight_covers(x2, y2, pairwise, later, n_then);
    lemma_stacked_rows(x1, y1, x2, y2, x, pairwise);
    assert forall|i: int| 0 <= i < x.height() implies !#[trigger] bad_row(x, y, pairwise, i) by {
        if i < x1.height() {
            assert(!bad_row(x1, y1, pairwise, i));
            assert(x.at(i, 0) == x1.at(i, 0));
            assert(pairwise ==> second(x, y, i) == second(x1, y1, i));
        } else {
            assert(!bad_row(x2, y2, pairwise, i - x1.height()));
            assert(x.at(i, 0) == x2.at(i - x1.height(), 0));
            assert(pairwise ==> second(x, y, i) == second(x2, y2, i - x1.height()));
        }
    }
    assert(preflight_issues(x, y, pairwise, updates, n_seen) =~= Seq::empty());
}

fn find_bad_row(x: &Matrix, y: Option<&Vec<Double>>, pairwise: bool) -> (found: bool)
    requires
        x.wf(),
        !misshapen(x, target(y), pairwise),
    ensures
        found == exists|i: int| 0 <= i < x.height() && #[trigger] bad_row(x, target(y), pairwise, i),
{
    let mut i: usize = 0;
    while i < x.nrows()
        invariant
            i <= x.height(),
            x.wf(),
            !misshapen(x, target(y), pairwise),
            forall|k: int| 0 <= k < i ==> !#[trigger] bad_row(x, target(y), pairwise, k),
        decreases x.height() - i,
    {
        let bad: bool = !x.get(i, 0).is_finite() || (pairwise && !second_of(x, y, i).is_finite());
        if bad {
            assert(bad_row(x, target(y), pairwise, i as int));
            return true;
        }
        i = i + 1;
    }
    false
}

/// The second observation of row `i`.
pub fn second_of(x: &Matrix, y: Option<&Vec<Double>>, i: usize) -> (v: Double)
    requires
        x.wf(),
        !misshapen(x, target(y), true),
        i < x.height(),
    ensures
        v == second(x, target(y), i as int),
{
    if x.ncols() >= 2 {
        x.get(i, 1)
    } else {
        match y {
            Some(t) => t[i],
            None => nan(),
        }
    }
}

/// Running mean after one more observation: a step towards it where the signs
/// agree, else a convex combination, which cannot overflow.
pub open spec fn mean_step(previous: Double, observation: Double, new_count: u64) -> Double {
    let share = one().over(Double::from_u64(new_count));
    if previous.is_sign_negative() == observation.is_sign_negative() {
        previous.plus(observation.minus(previous).times(share))
    } else {
        one().minus(share).times(previous).plus(share.times(observation))
    }
}

/// Running mean after one more observation.
#[verifier::when_used_as_spec(mean_step)]
pub fn online_mean_step(previous: Double, observation: Double, new_count: u64) -> (r: Double)
    ensures
        r == mean_step(previous, observation, new_count),
{
    let share: Double = one().over(Double::from_u64(new_count));
    if previous.is_sign_negative() == observation.is_sign_negative() {
        previous.plus(observation.minus(previous).times(share))
    } else {
        one().minus(share).times(previous).plus(share.times(observation))
    }
}

/// Product of two differences. A difference that overflows is taken at half
/// scale; a product that is not representable is an error.
pub open spec fn difference_product(
    left_value: Double,
    left_center: Double,
    right_value: Double,
    right_center: Double,
) -> Result<Double, IssueCode> {
    let left = left_value.minus(left_center);
    let right = right_value.minus(right_center);
    if left.same(zero()) || right.same(zero()) {
        Ok(zero())
    } else if !left.is_finite() && !right.is_finite() {
        Err(IssueCode::NumericalOverflow)
    } else {
        let product = if left.is_finite() && right.is_finite() {
            left.times(right)
        } else if right.is_finite() {
            left_value.times(half()).minus(left_center.times(half())).times(right).times(two())
        } else {
            left.times(right_value.times(half()).minus(right_center.times(half()))).times(two())
        };
        if !product.is_finite() {
            Err(IssueCode::NumericalOverflow)
        } else if product.same(zero()) {
            Err(IssueCode::NumericalUnderflow)
        } else {
            Ok(product)
        }
    }
}

/// Product of two differences.
pub fn checked_difference_product(
    left_value: Double,
    left_center: Double,
    right_value: Double,
    right_center: Double,
) -> (r: Result<Double, IssueCode>)
    ensures
        r == difference_product(left_value, left_center, right_value, right_center),
{
    let left: Double = left_value.minus(left_center);
    let right: Double = right_value.minus(right_center);
    if left.same(zero()) || right.same(zero()) {
        return Ok(zero());
    }
    let product: Double = match (left.is_finite(), right.is_finite()) {
        (true, true) => left.times(right),
        (false, true) => {
            let half_left: Double = left_value.times(half()).minus(left_center.times(half()));
            half_left.times(right).times(two())
        },
        (true, false) => {
            let half_right: Double = right_value.times(half()).minus(right_center.times(half()));
            left.times(half_right).times(two())
        },
        (false, false) => {
            return Err(IssueCode::NumericalOverflow);
        },
    };
    if !product.is_finite() {
        Err(IssueCode::NumericalOverflow)
    } else if product.same(zero()) {
        Err(IssueCode::NumericalUnderflow)
    } else {
        Ok(product)
    }
}

/// A sum with its running compensation, after one more term. The rounding error
/// of the addition is kept in the compensation; losing it altogether is an error.
pub open spec fn compensated_add(sum: Double, compensation: Double, value: Double) -> Result<(Double, Double), IssueCode> {
    let next_sum = sum.plus(value);
    let correction = if sum.abs().ge(value.abs()) {
        sum.minus(next_sum).plus(value)
    } else {
        value.minus(next_sum).plus(sum)
    };
    let next_compensation = compensation.plus(correction);
    if !next_sum.is_finite() {
        Err(IssueCode::NumericalOverflow)
    } else if !correction.same(zero()) && next_compensation.same(compensation) {
        Err(IssueCode::NumericalUnderflow)
    } else if !correction.is_finite() || !next_compensation.is_finite() || !next_sum.plus(
        next_compensation,
    ).is_finite() {
        Err(IssueCode::NumericalOverflow)
    } else {
        Ok((next_sum, next_compensation))
    }
}

/// A sum with its running compensation, after one more term.
pub fn checked_compensated_add(sum: Double, compensation: Double, value: Double) -> (r: Result<
    (Double, Double),
    IssueCode,
>)
    ensures
        r == compensated_add(sum, compensation, value),
{
    let next_sum: Double = sum.plus(value);
    if !next_sum.is_finite() {
        return Err(IssueCode::NumericalOverflow);
    }
    let correction: Double = if sum.abs().ge(value.abs()) {
        sum.minus(next_sum).plus(value)
    } else {
        value.minus(next_sum).plus(sum)
    };
    let next_compensation: Double = compensation.plus(correction);
    if !correction.same(zero()) && next_compensation.same(compensation) {
        return Err(IssueCode::NumericalUnderflow);
    }
    let next_total: Double = next_sum.plus(next_compensation);
    if !correction.is_finite() || !next_compensation.is_finite() || !next_total.is_finite() {
        Err(IssueCode::NumericalOverflow)
    } else {
        Ok((next_sum, next_compensation))
    }
}

/// Both means and the increment of the co-moment after one more pair.
pub open spec fn covariance_step(
    count: u64,
    left_mean: Double,
    right_mean: Double,
    left: Double,
    right: Double,
) -> Result<(Double, Double, Double), IssueCode> {
    if count == u64::MAX {
        Err(IssueCode::InvalidParameter)
    } else if count == 0 {
        Ok((left, right, zero()))
    } else {
        let next_left = mean_step(left_mean, left, (count + 1) as u64);
        let next_right = mean_step(right_mean, right, (count + 1) as u64);
        if !next_left.is_finite() || !next_right.is_finite() {
            Err(IssueCode::NumericalOverflow)
        } else {
            match difference_product(left, left_mean, right, next_right) {
                Ok(increment) => Ok((next_left, next_right, increment)),
                Err(code) => Err(code),
            }
        }
    }
}

/// Both means and the increment of the co-moment after one more pair.
pub fn checked_online_covariance_step(
    count: u64,
    left_mean: Double,
    right_mean: Double,
    left: Double,
    right: Double,
) -> (r: Result<(Double, Double, Double), IssueCode>)
    ensures
        r == covariance_step(count, left_mean, right_mean, left, right),
{
    if count == u64::MAX {
        return Err(IssueCode::InvalidParameter);
    }
    if count == 0 {
        return Ok((left, right, zero()));
    }
    let next_left: Double = online_mean_step(left_mean, left, count + 1);
    let next_right: Double = online_mean_step(right_mean, right, count + 1);
    if !next_left.is_finite() || !next_right.is_finite() {
        return Err(IssueCode::NumericalOverflow);
    }
    match checked_difference_product(left, left_mean, right, next_right) {
        Ok(increment) => Ok((next_left, next_right, increment)),
        Err(code) => Err(code),
    }
}

/// Correlation from a co-moment and two second moments, divided by the smaller
/// scale first; NaN unless both second moments are positive and all are finite.
pub open spec fn correlation(cross: Double, left_m2: Double, right_m2: Double) -> Double {
    if !cross.is_finite() || !left_m2.is_finite() || !right_m2.is_finite() || left_m2.le(zero()) || right_m2.le(
        zero(),
    ) {
        nan()
    } else {
        let left_scale = left_m2.sqrt();
        let right_scale = right_m2.sqrt();
        if left_scale.le(right_scale) {
            cross.over(left_scale).over(right_scale)
        } else {
            cross.over(right_scale).over(left_scale)
        }
    }
}

/// Correlation from a co-moment and two second moments.
#[verifier::when_used_as_spec(correlation)]
pub fn autocorrelation_from_moments(cross: Double, left_m2: Double, right_m2: Double) -> (r: Double)
    ensures
        r == correlation(cross, left_m2, right_m2),
{
    if !cross.is_finite() || !left_m2.is_finite() || !right_m2.is_finite() || left_m2.le(zero()) || right_m2.le(
        zero(),
    ) {
        return nan();
    }
    let left_scale: Double = left_m2.sqrt();
    let right_scale: Double = right_m2.sqrt();
    if left_scale.le(right_scale) {
        cross.over(left_scale).over(right_scale)
    } else {
        cross.over(right_scale).over(left_scale)
    }
}

/// Sample variance from a compensated second moment; none below two observations.
pub open spec fn sample_variance(count: u64, m2: Double, compensation: Double) -> Result<Option<Double>, IssueCode> {
    let total = m2.plus(compensation);
    if !m2.is_finite() || !compensation.is_finite() || !total.is_finite() || total.lt(zero()) {
        Err(IssueCode::NonFiniteOutput)
    } else if count < 2 {
        Ok(None)
    } else {
        let variance = total.over(Double::from_u64((count - 1) as u64));
        if !variance.is_finite() {
            Err(IssueCode::NumericalOverflow)
        } else if !total.same(zero()) && variance.same(zero()) {
            Err(IssueCode::NumericalUnderflow)
        } else {
            Ok(Some(variance))
        }
    }
}

/// Sample variance from a compensated second moment.
pub fn checked_sample_variance_from_m2(count: u64, m2: Double, compensation: Double) -> (r: Result<
    Option<Double>,
    IssueCode,
>)
    ensures
        r == sample_variance(count, m2, compensation),
{
    let total: Double = m2.plus(compensation);
    if !m2.is_finite() || !compensation.is_finite() || !total.is_finite() || total.lt(zero()) {
        return Err(IssueCode::NonFiniteOutput);
    }
    if count < 2 {
        return Ok(None);
    }
    let variance: Double = total.over(Double::from_u64(count - 1));
    if !variance.is_finite() {
        Err(IssueCode::NumericalOverflow)
    } else if !total.same(zero()) && variance.same(zero()) {
        Err(IssueCode::NumericalUnderflow)
    } else {
        Ok(Some(variance))
    }
}

/// Distance between two scores, where both and the distance are finite.
pub open spec fn score_delta(before: Double, after: Double) -> Option<Double> {
    let delta = after.minus(before).abs();
    if before.is_finite() && after.is_finite() && delta.is_finite() {
        Some(delta)
    } else {
        None
    }
}

/// Distance between two scores, where both and the distance are finite.
#[verifier::when_used_as_spec(score_delta)]
pub fn finite_score_delta(before: Double, after: Double) -> (r: Option<Double>)
    ensures
        r == score_delta(before, after),
{
    if before.is_finite() && after.is_finite() {
        let delta: Double = after.minus(before).abs();
        if delta.is_finite() {
            return Some(delta);
        }
    }
    None
}

} // verus!
