use kanimiso::data::Matrix;
use kanimiso::double::Double;
use kanimiso::online::autocorrelation::OnlineAutoCorr;
use kanimiso::online::common::checked_sample_variance_from_m2;
use kanimiso::online::exponentially_weighted::{OnlineEwMean, OnlineEwVar};
use kanimiso::online::linear_regression::LinearRegression;
use kanimiso::online::moments::{OnlineCount, OnlineCovariance, OnlineMean, OnlineSum, OnlineVar};
use kanimiso::online::variance_threshold::OnlineVarianceThreshold;
use kanimiso::quality::{contains, IssueCode, Policy, Update};

fn d(x: f64) -> Double {
    Double::from_bits(x.to_bits())
}

fn f(x: Double) -> f64 {
    f64::from_bits(x.to_bits())
}

fn vector(values: &[f64]) -> Vec<Double> {
    values.iter().map(|v| d(*v)).collect()
}

fn matrix(nrows: usize, ncols: usize, values: &[f64]) -> Matrix {
    let rows = (0..nrows)
        .map(|i| vector(&values[i * ncols..(i + 1) * ncols]))
        .collect();
    Matrix::from_rows(rows, ncols)
}

fn matrix_from(nrows: usize, ncols: usize, cell: &dyn Fn(usize, usize) -> f64) -> Matrix {
    let rows = (0..nrows)
        .map(|i| (0..ncols).map(|j| d(cell(i, j))).collect())
        .collect();
    Matrix::from_rows(rows, ncols)
}

fn reported(update: &Update, code: IssueCode) -> bool {
    contains(&update.issues, code) || contains(&update.trailing, code)
}

fn policy() -> Policy {
    Policy {
        uninformative_info_eps: d(1e-12),
        min_effective_sample: d(2.0),
        near_zero_variance: d(1e-12),
    }
}

fn variance_threshold_state(
    model: &OnlineVarianceThreshold,
) -> (u64, u64, Vec<u64>, Vec<u64>, Vec<u64>, usize, u64) {
    (
        model.threshold.to_bits(),
        model.n_seen,
        model.mean.iter().map(|value| value.to_bits()).collect(),
        model.m2.iter().map(|value| value.to_bits()).collect(),
        model
            .m2_compensation
            .iter()
            .map(|value| value.to_bits())
            .collect(),
        model.n_features,
        model.updates,
    )
}

fn variance_threshold_variance(model: &OnlineVarianceThreshold, column: usize) -> f64 {
    match checked_sample_variance_from_m2(
        model.n_seen,
        model.m2[column],
        model.m2_compensation[column],
    ) {
        Ok(Some(value)) => f(value),
        _ => panic!("the variance is not representable"),
    }
}

#[test]
fn online_autocorrelation_matches_exact_rational_oracle() {
    let observations = [1.0, 4.0, 2.0, 8.0, 5.0, 7.0];
    let x = matrix(observations.len(), 1, &observations);
    let mut model = OnlineAutoCorr::new();
    assert!(model.score().is_nan());

    let result = model.partial_fit(&x, None).unwrap();
    // Exact integer values: Sxx=30, Syy=114/5, Sxy=-1.
    let expected = -1.0 / 684.0_f64.sqrt();
    let error = (f(model.score()) - expected).abs();
    assert!(error <= 2.85e-17);
    assert_eq!(model.n, observations.len() as u64);
    assert_eq!(f(result.quality.effective_sample_size), 5.0);
    assert!(result.quality.still_identified);
    assert!(!result.quality.warmup);
}

#[test]
fn online_autocorrelation_warmup_and_constant_semantics_are_explicit() {
    let mut model = OnlineAutoCorr::new();
    for (value, pairs) in [(1.0, 0.0), (2.0, 1.0)] {
        let result = model.partial_fit(&matrix(1, 1, &[value]), None).unwrap();
        assert!(model.score().is_nan());
        assert_eq!(f(result.quality.effective_sample_size), pairs);
        assert!(result.quality.warmup);
        assert!(!result.quality.still_identified);
    }
    let third = model.partial_fit(&matrix(1, 1, &[4.0]), None).unwrap();
    let perfect_error = (f(model.score()) - 1.0).abs();
    assert!(perfect_error <= 4.55e-16);
    assert_eq!(f(third.quality.effective_sample_size), 2.0);
    assert!(!third.quality.warmup);
    assert!(third.quality.still_identified);

    let constant = matrix(4, 1, &[f64::MAX; 4]);
    let mut constant_model = OnlineAutoCorr::new();
    let result = constant_model.partial_fit(&constant, None).unwrap();
    assert!(constant_model.score().is_nan());
    assert!(!result.quality.warmup);
    assert!(!result.quality.still_identified);
    assert!(reported(&result, IssueCode::NearZeroVariance));
}

#[test]
fn online_autocorrelation_is_bitwise_partition_invariant() {
    let observations = [1.0, 4.0, 2.0, 8.0, 5.0, 7.0, -3.0];
    let all = matrix(observations.len(), 1, &observations);
    let mut whole = OnlineAutoCorr::new();
    let _ = whole.partial_fit(&all, None).unwrap();
    let mut partitioned = OnlineAutoCorr::new();
    for values in [&observations[..1], &observations[1..4], &observations[4..]] {
        let batch = matrix(values.len(), 1, values);
        let _ = partitioned.partial_fit(&batch, None).unwrap();
    }
    assert_eq!(
        OnlineAutoCorr { updates: 0, ..whole },
        OnlineAutoCorr {
            updates: 0,
            ..partitioned
        }
    );
    assert_eq!(whole.score().to_bits(), partitioned.score().to_bits());
    assert_eq!(whole.updates, 1);
    assert_eq!(partitioned.updates, 3);
}

#[test]
fn online_autocorrelation_handles_representable_extreme_scale() {
    let base = [1.0, 2.0, 0.0, 3.0, -1.0];
    let scale = f64::MAX.sqrt() / 16.0;
    let scaled = base.map(|value| value * scale);
    let mut base_model = OnlineAutoCorr::new();
    let mut scaled_model = OnlineAutoCorr::new();
    let _ = base_model
        .partial_fit(&matrix(base.len(), 1, &base), None)
        .unwrap();
    let _ = scaled_model
        .partial_fit(&matrix(scaled.len(), 1, &scaled), None)
        .unwrap();
    let error = (f(scaled_model.score()) - f(base_model.score())).abs();
    assert!(scaled_model.score().is_finite());
    assert_eq!(error, 0.0);
}

#[test]
fn online_autocorrelation_failures_are_transactional() {
    let mut model = OnlineAutoCorr::new();
    let _ = model
        .partial_fit(&matrix(4, 1, &[1.0, 4.0, 2.0, 8.0]), None)
        .unwrap();
    let state = model;
    for (input, code) in [
        (
            matrix(3, 1, &[5.0, f64::NAN, 6.0]),
            IssueCode::NonFiniteInput,
        ),
        (Matrix::zeros(0, 1), IssueCode::EmptyMatrix),
        (Matrix::zeros(1, 0), IssueCode::EmptyMatrix),
        (
            matrix(2, 1, &[f64::MAX, -f64::MAX]),
            IssueCode::NumericalOverflow,
        ),
    ] {
        let error = model.partial_fit(&input, None).unwrap_err();
        assert_eq!(error.primary().code, code);
        assert_eq!(model, state);
    }

    let mut underflow = OnlineAutoCorr::new();
    let tiny = matrix(3, 1, &[0.0, f64::MIN_POSITIVE, 2.0 * f64::MIN_POSITIVE]);
    let error = underflow.partial_fit(&tiny, None).unwrap_err();
    assert_eq!(error.primary().code, IssueCode::NumericalUnderflow);
    assert_eq!(underflow, OnlineAutoCorr::new());

    let mut update_overflow = model;
    update_overflow.updates = u64::MAX;
    let overflow_state = update_overflow;
    let error = update_overflow
        .partial_fit(&matrix(1, 1, &[9.0]), None)
        .unwrap_err();
    assert_eq!(error.primary().code, IssueCode::InvalidParameter);
    assert_eq!(update_overflow, overflow_state);

    let mut observation_overflow = model;
    observation_overflow.n = u64::MAX;
    let overflow_state = observation_overflow;
    let error = observation_overflow
        .partial_fit(&matrix(1, 1, &[9.0]), None)
        .unwrap_err();
    assert_eq!(error.primary().code, IssueCode::InvalidParameter);
    assert_eq!(observation_overflow, overflow_state);
}

#[test]
fn online_variance_threshold_matches_exact_all_column_oracle() {
    let values = [
        1.0, 2.0, 0.0, 2.0, 2.0, 2.0, 3.0, 2.0, 0.0, 4.0, 2.0, 2.0, 5.0, 2.0, 0.0,
    ];
    let x = matrix(5, 3, &values);
    let mut model = OnlineVarianceThreshold::new(d(1.5));
    let result = model.partial_fit(&x, None).unwrap();
    let expected = [5.0 / 2.0, 0.0, 6.0 / 5.0];
    let maximum_error = expected
        .into_iter()
        .enumerate()
        .map(|(column, expected)| (variance_threshold_variance(&model, column) - expected).abs())
        .fold(0.0_f64, f64::max);
    assert_eq!(maximum_error, 0.0);
    assert_eq!(model.n_seen, 5);
    assert_eq!(f(result.quality.effective_sample_size), 5.0);
    assert!(result.quality.still_identified);

    let transformed = model.transform(&x).unwrap().value;
    assert_eq!((transformed.nrows(), transformed.ncols()), (5, 1));
    for row in 0..5 {
        assert_eq!(transformed.get(row, 0), x.get(row, 0));
    }
    let one_column = matrix_from(5, 1, &|row, _| f(x.get(row, 2)));
    let mut one_column_model = OnlineVarianceThreshold::new(d(1.0));
    let _ = one_column_model.partial_fit(&one_column, None).unwrap();
    assert_eq!(
        variance_threshold_variance(&one_column_model, 0).to_bits(),
        variance_threshold_variance(&model, 2).to_bits()
    );

    let first_column = matrix_from(5, 1, &|row, _| f(x.get(row, 0)));
    let mut strict = OnlineVarianceThreshold::new(d(2.5));
    let update = strict.partial_fit(&first_column, None).unwrap();
    assert!(reported(&update, IssueCode::NearZeroVariance));
    assert_eq!(
        strict
            .transform(&first_column)
            .unwrap_err()
            .primary()
            .code,
        IssueCode::MeaninglessFit
    );
}

#[test]
fn online_variance_threshold_is_bitwise_partition_invariant() {
    let values = [
        3.0, -1.0, 4.0, -1.0, 2.0, 0.0, 7.0, 5.0, -3.0, 2.5, -4.0, 8.0, -8.0, 3.0, 6.0, 11.0, 1.0,
        -2.0, 0.25, 9.25, 5.5,
    ];
    let all = matrix(7, 3, &values);
    let batches = [
        matrix_from(2, 3, &|row, column| f(all.get(row, column))),
        matrix_from(1, 3, &|_, column| f(all.get(2, column))),
        matrix_from(4, 3, &|row, column| f(all.get(row + 3, column))),
    ];
    let mut whole = OnlineVarianceThreshold::new(d(0.5));
    let _ = whole.partial_fit(&all, None).unwrap();
    let mut partitioned = OnlineVarianceThreshold::new(d(0.5));
    for batch in &batches {
        let _ = partitioned.partial_fit(batch, None).unwrap();
    }
    let whole_updates = whole.updates;
    let partitioned_updates = partitioned.updates;
    whole.updates = 0;
    partitioned.updates = 0;
    assert_eq!(
        variance_threshold_state(&whole),
        variance_threshold_state(&partitioned)
    );
    assert_eq!(whole_updates, 1);
    assert_eq!(partitioned_updates, 3);

    let whole_output = whole.transform(&all).unwrap().value;
    let partitioned_output = partitioned.transform(&all).unwrap().value;
    assert_eq!(whole_output.nrows(), partitioned_output.nrows());
    assert_eq!(whole_output.ncols(), partitioned_output.ncols());
    for row in 0..whole_output.nrows() {
        for column in 0..whole_output.ncols() {
            assert_eq!(
                whole_output.get(row, column).to_bits(),
                partitioned_output.get(row, column).to_bits()
            );
        }
    }
}

#[test]
fn online_variance_threshold_warmup_constant_and_extreme_semantics() {
    let mut warming = OnlineVarianceThreshold::new(d(0.0));
    let first = warming
        .partial_fit(&matrix(1, 2, &[3.0, 4.0]), None)
        .unwrap();
    assert!(first.quality.warmup);
    assert_eq!(
        warming
            .transform(&matrix(1, 2, &[3.0, 4.0]))
            .unwrap_err()
            .primary()
            .code,
        IssueCode::InsufficientSample
    );
    let _ = warming
        .partial_fit(&matrix(1, 2, &[3.0, 6.0]), None)
        .unwrap();
    let observed = matrix(2, 2, &[3.0, 4.0, 3.0, 6.0]);
    let kept = warming.transform(&observed).unwrap().value;
    assert_eq!((kept.nrows(), kept.ncols()), (2, 1));

    let constant = matrix_from(4, 2, &|_, _| f64::MAX);
    let mut constant_model = OnlineVarianceThreshold::new(d(0.0));
    let result = constant_model.partial_fit(&constant, None).unwrap();
    assert!(!result.quality.still_identified);
    assert!(reported(&result, IssueCode::NearZeroVariance));
    assert_eq!(
        constant_model
            .transform(&constant)
            .unwrap_err()
            .primary()
            .code,
        IssueCode::MeaninglessFit
    );

    let base = [1.0, 2.0, 0.0, 3.0, -1.0];
    let scale = f64::MAX.sqrt() / 16.0;
    let scaled = matrix_from(base.len(), 2, &|row, column| {
        if column == 0 {
            base[row] * scale
        } else {
            f64::MAX
        }
    });
    let mut extreme = OnlineVarianceThreshold::new(d(0.0));
    let _ = extreme.partial_fit(&scaled, None).unwrap();
    let error = (variance_threshold_variance(&extreme, 0) / (scale * scale) - 2.5).abs();
    assert_eq!(error, 0.0);
    let kept = extreme.transform(&scaled).unwrap().value;
    assert_eq!((kept.nrows(), kept.ncols()), (5, 1));
}

#[test]
fn online_variance_threshold_failures_are_transactional() {
    let valid = matrix(3, 2, &[1.0, 4.0, 2.0, 2.0, 3.0, 8.0]);
    let mut model = OnlineVarianceThreshold::new(d(0.0));
    let _ = model.partial_fit(&valid, None).unwrap();
    let state = variance_threshold_state(&model);
    for (input, code) in [
        (matrix(1, 2, &[4.0, f64::NAN]), IssueCode::NonFiniteInput),
        (Matrix::zeros(0, 2), IssueCode::EmptyMatrix),
        (Matrix::zeros(1, 0), IssueCode::EmptyMatrix),
        (
            matrix(1, 1, &[4.0]),
            IssueCode::FeatureSpaceChangedOnline,
        ),
        (
            matrix(1, 2, &[f64::MAX, 0.0]),
            IssueCode::NumericalOverflow,
        ),
    ] {
        let error = model.partial_fit(&input, None).unwrap_err();
        assert_eq!(error.primary().code, code);
        assert_eq!(variance_threshold_state(&model), state);
    }

    let mut underflow = OnlineVarianceThreshold::new(d(0.0));
    let tiny = matrix(2, 1, &[0.0, f64::MIN_POSITIVE]);
    let error = underflow.partial_fit(&tiny, None).unwrap_err();
    assert_eq!(error.primary().code, IssueCode::NumericalUnderflow);
    assert_eq!(
        variance_threshold_state(&underflow),
        variance_threshold_state(&OnlineVarianceThreshold::new(d(0.0)))
    );

    for invalid_threshold in [-1.0, f64::NAN, f64::INFINITY] {
        let mut invalid = model.clone();
        invalid.threshold = d(invalid_threshold);
        let invalid_state = variance_threshold_state(&invalid);
        let error = invalid
            .partial_fit(&matrix(1, 2, &[4.0, 6.0]), None)
            .unwrap_err();
        assert_eq!(error.primary().code, IssueCode::InvalidParameter);
        assert_eq!(variance_threshold_state(&invalid), invalid_state);
    }

    let mut update_overflow = model.clone();
    update_overflow.updates = u64::MAX;
    let overflow_state = variance_threshold_state(&update_overflow);
    let error = update_overflow
        .partial_fit(&matrix(1, 2, &[4.0, 6.0]), None)
        .unwrap_err();
    assert_eq!(error.primary().code, IssueCode::InvalidParameter);
    assert_eq!(variance_threshold_state(&update_overflow), overflow_state);

    let mut observation_overflow = model.clone();
    observation_overflow.n_seen = u64::MAX;
    let overflow_state = variance_threshold_state(&observation_overflow);
    let error = observation_overflow
        .partial_fit(&matrix(1, 2, &[4.0, 6.0]), None)
        .unwrap_err();
    assert_eq!(error.primary().code, IssueCode::InvalidParameter);
    assert_eq!(
        variance_threshold_state(&observation_overflow),
        overflow_state
    );

    assert_eq!(
        model
            .transform(&matrix(1, 1, &[1.0]))
            .unwrap_err()
            .primary()
            .code,
        IssueCode::FeatureSpaceChangedOnline
    );
    assert_eq!(
        model
            .transform(&matrix(1, 2, &[1.0, f64::NEG_INFINITY]))
            .unwrap_err()
            .primary()
            .code,
        IssueCode::NonFiniteInput
    );
    assert_eq!(variance_threshold_state(&model), state);
}

#[test]
fn unweighted_online_moments_match_integer_scaled_decimal_oracle() {
    let observations = [-2.5, 1.25, 4.75, 9.5, -3.0, 8.125];
    let paired = [7.0, -1.5, 2.25, 10.0, 4.0, -6.75];
    let x = matrix(observations.len(), 1, &observations);
    let xy = matrix_from(observations.len(), 2, &|row, column| {
        if column == 0 {
            observations[row]
        } else {
            paired[row]
        }
    });
    let targets = vector(&paired);
    let mut mean = OnlineMean::new();
    let mut sum = OnlineSum::new();
    let mut variance = OnlineVar::new();
    let mut covariance_columns = OnlineCovariance::new();
    let mut covariance_target = OnlineCovariance::new();
    let mut count = OnlineCount::new();
    let _ = mean.partial_fit(&x, None).unwrap();
    let _ = sum.partial_fit(&x, None).unwrap();
    let _ = variance.partial_fit(&x, None).unwrap();
    let _ = covariance_columns.partial_fit(&xy, None).unwrap();
    let _ = covariance_target.partial_fit(&x, Some(&targets)).unwrap();
    let _ = count.partial_fit(&x, None).unwrap();

    // Integer-scaled values: mean=145/48, variance=54101/1920,
    // covariance=-827/160, and sum=145/8.
    let mean_error = (f(mean.score()) - 145.0 / 48.0).abs();
    let sum_error = (f(sum.score()) - 145.0 / 8.0).abs();
    let variance_error = (f(variance.score()) - 54_101.0 / 1_920.0).abs();
    let covariance_error = (f(covariance_columns.score()) + 827.0 / 160.0).abs();
    assert!(mean_error <= 1.8e-15);
    assert_eq!(sum_error, 0.0);
    assert!(variance_error <= 1.45e-14);
    assert_eq!(covariance_error, 0.0);
    assert_eq!(covariance_columns.score(), covariance_target.score());
    assert_eq!(f(count.score()), observations.len() as f64);

    let one = matrix(1, 1, &[4.0]);
    let one_pair = matrix(1, 2, &[4.0, -2.0]);
    let mut warming_variance = OnlineVar::new();
    let mut warming_covariance = OnlineCovariance::new();
    let _ = warming_variance.partial_fit(&one, None).unwrap();
    let _ = warming_covariance.partial_fit(&one_pair, None).unwrap();
    assert!(warming_variance.score().is_nan());
    assert!(warming_covariance.score().is_nan());
}

#[test]
fn unweighted_online_moments_are_bitwise_partition_invariant() {
    let observations = [3.0, -1.0, 7.0, 2.5, -8.0, 11.0, 0.25];
    let paired = [-4.0, 2.0, 8.0, -3.5, 6.0, 1.0, 9.25];
    let all = matrix(observations.len(), 1, &observations);
    let both = |row: usize, column: usize| {
        if column == 0 {
            observations[row]
        } else {
            paired[row]
        }
    };
    let all_xy = matrix_from(observations.len(), 2, &both);
    let split = 3;
    let first = matrix(split, 1, &observations[..split]);
    let second = matrix(observations.len() - split, 1, &observations[split..]);
    let first_xy = matrix_from(split, 2, &both);
    let second_xy = matrix_from(observations.len() - split, 2, &|row, column| {
        both(row + split, column)
    });

    let mut whole_mean = OnlineMean::new();
    let mut split_mean = OnlineMean::new();
    let _ = whole_mean.partial_fit(&all, None).unwrap();
    let _ = split_mean.partial_fit(&first, None).unwrap();
    let _ = split_mean.partial_fit(&second, None).unwrap();
    assert_eq!(whole_mean.n, split_mean.n);
    assert_eq!(whole_mean.mean.to_bits(), split_mean.mean.to_bits());

    let mut whole_sum = OnlineSum::new();
    let mut split_sum = OnlineSum::new();
    let _ = whole_sum.partial_fit(&all, None).unwrap();
    let _ = split_sum.partial_fit(&first, None).unwrap();
    let _ = split_sum.partial_fit(&second, None).unwrap();
    assert_eq!(whole_sum.n, split_sum.n);
    assert_eq!(whole_sum.sum.to_bits(), split_sum.sum.to_bits());
    assert_eq!(
        whole_sum.compensation.to_bits(),
        split_sum.compensation.to_bits()
    );

    let mut whole_variance = OnlineVar::new();
    let mut split_variance = OnlineVar::new();
    let _ = whole_variance.partial_fit(&all, None).unwrap();
    let _ = split_variance.partial_fit(&first, None).unwrap();
    let _ = split_variance.partial_fit(&second, None).unwrap();
    assert_eq!(whole_variance.n, split_variance.n);
    assert_eq!(whole_variance.mean.to_bits(), split_variance.mean.to_bits());
    assert_eq!(whole_variance.m2.to_bits(), split_variance.m2.to_bits());
    assert_eq!(
        whole_variance.m2_compensation.to_bits(),
        split_variance.m2_compensation.to_bits()
    );

    let mut whole_covariance = OnlineCovariance::new();
    let mut split_covariance = OnlineCovariance::new();
    let _ = whole_covariance.partial_fit(&all_xy, None).unwrap();
    let _ = split_covariance.partial_fit(&first_xy, None).unwrap();
    let _ = split_covariance.partial_fit(&second_xy, None).unwrap();
    assert_eq!(
        OnlineCovariance {
            updates: 0,
            ..whole_covariance
        },
        OnlineCovariance {
            updates: 0,
            ..split_covariance
        }
    );

    let mut whole_count = OnlineCount::new();
    let mut split_count = OnlineCount::new();
    let _ = whole_count.partial_fit(&all, None).unwrap();
    let _ = split_count.partial_fit(&first, None).unwrap();
    let _ = split_count.partial_fit(&second, None).unwrap();
    assert_eq!(whole_count.n, split_count.n);
}

#[test]
fn unweighted_online_moments_handle_representable_extremes() {
    let cancelling = matrix(2, 1, &[f64::MAX, -f64::MAX]);
    let constant_max = matrix(2, 1, &[f64::MAX, f64::MAX]);
    let mut mean = OnlineMean::new();
    let _ = mean.partial_fit(&cancelling, None).unwrap();
    assert_eq!(f(mean.score()), 0.0);
    let mut sum = OnlineSum::new();
    let _ = sum.partial_fit(&cancelling, None).unwrap();
    assert_eq!(f(sum.score()), 0.0);

    let mut compensated_sum = OnlineSum::new();
    let _ = compensated_sum
        .partial_fit(&matrix(3, 1, &[1.0e16, 1.0, -1.0e16]), None)
        .unwrap();
    assert_eq!(f(compensated_sum.score()), 1.0);
    let mut variance = OnlineVar::new();
    let _ = variance.partial_fit(&constant_max, None).unwrap();
    assert_eq!(f(variance.score()), 0.0);

    let cross_scale = matrix(2, 2, &[f64::MAX, f64::MIN_POSITIVE, -f64::MAX, 0.0]);
    let mut covariance = OnlineCovariance::new();
    let _ = covariance.partial_fit(&cross_scale, None).unwrap();
    let error = (f(covariance.score()) - f64::MAX * f64::MIN_POSITIVE).abs();
    assert_eq!(error, 0.0);
}

#[test]
fn unweighted_online_moment_failures_are_transactional() {
    let valid = matrix(2, 1, &[1.0, 3.0]);
    let valid_xy = matrix(2, 2, &[1.0, 4.0, 3.0, -2.0]);
    let non_finite = matrix(2, 1, &[5.0, f64::NAN]);

    let mut mean = OnlineMean::new();
    let _ = mean.partial_fit(&valid, None).unwrap();
    let state = mean;
    for (input, code) in [
        (non_finite.clone(), IssueCode::NonFiniteInput),
        (Matrix::zeros(0, 1), IssueCode::EmptyMatrix),
    ] {
        let error = mean.partial_fit(&input, None).unwrap_err();
        assert_eq!(error.primary().code, code);
        assert_eq!(mean, state);
    }

    let mut sum = OnlineSum::new();
    let _ = sum.partial_fit(&valid, None).unwrap();
    let state = sum;
    let error = sum
        .partial_fit(&matrix(2, 1, &[f64::MAX, f64::MAX]), None)
        .unwrap_err();
    assert_eq!(error.primary().code, IssueCode::NumericalOverflow);
    assert_eq!(sum, state);
    let mut underflow_sum = OnlineSum {
        n: 2,
        sum: d(f64::MAX),
        compensation: d(-f64::MAX),
        updates: 1,
    };
    let state = underflow_sum;
    let error = underflow_sum
        .partial_fit(&matrix(1, 1, &[1.0]), None)
        .unwrap_err();
    assert_eq!(error.primary().code, IssueCode::NumericalUnderflow);
    assert_eq!(underflow_sum, state);

    let mut variance = OnlineVar::new();
    let _ = variance.partial_fit(&valid, None).unwrap();
    let state = variance;
    let error = variance
        .partial_fit(&matrix(2, 1, &[f64::MAX, -f64::MAX]), None)
        .unwrap_err();
    assert_eq!(error.primary().code, IssueCode::NumericalOverflow);
    assert_eq!(variance, state);
    let mut underflow_variance = OnlineVar::new();
    let error = underflow_variance
        .partial_fit(&matrix(2, 1, &[0.0, f64::MIN_POSITIVE]), None)
        .unwrap_err();
    assert_eq!(error.primary().code, IssueCode::NumericalUnderflow);
    assert_eq!(underflow_variance, OnlineVar::new());

    let mut covariance = OnlineCovariance::new();
    let _ = covariance.partial_fit(&valid_xy, None).unwrap();
    let state = covariance;
    let error = covariance
        .partial_fit(&valid, Some(&vector(&[1.0])))
        .unwrap_err();
    assert_eq!(error.primary().code, IssueCode::DimensionMismatch);
    assert_eq!(covariance, state);
    let error = covariance.partial_fit(&valid, None).unwrap_err();
    assert_eq!(error.primary().code, IssueCode::MissingTarget);
    assert_eq!(covariance, state);

    let mut count = OnlineCount::new();
    let _ = count.partial_fit(&valid, None).unwrap();
    let count_state = (count.n, count.updates);
    let error = count.partial_fit(&non_finite, None).unwrap_err();
    assert_eq!(error.primary().code, IssueCode::NonFiniteInput);
    assert_eq!((count.n, count.updates), count_state);

    mean.updates = u64::MAX;
    let state = mean;
    let error = mean
        .partial_fit(&matrix(1, 1, &[1.0]), None)
        .unwrap_err();
    assert_eq!(error.primary().code, IssueCode::InvalidParameter);
    assert_eq!(mean, state);
    count.n = u64::MAX;
    let count_state = (count.n, count.updates);
    let error = count
        .partial_fit(&matrix(1, 1, &[1.0]), None)
        .unwrap_err();
    assert_eq!(error.primary().code, IssueCode::InvalidParameter);
    assert_eq!((count.n, count.updates), count_state);
}

#[test]
fn ew_moments_match_finite_weight_closed_form() {
    let values = [2.0, -1.0, 4.0, 8.0, 0.5];
    let alpha = 0.3_f64;
    let decay = 1.0 - alpha;
    let count = values.len();
    let weights: Vec<f64> = (0..count)
        .map(|index| {
            if index == 0 {
                decay.powi((count - 1) as i32)
            } else {
                alpha * decay.powi((count - 1 - index) as i32)
            }
        })
        .collect();
    let expected_mean = values
        .iter()
        .zip(&weights)
        .map(|(value, weight)| value * weight)
        .sum::<f64>();
    let expected_variance = values
        .iter()
        .zip(&weights)
        .map(|(value, weight)| weight * (value - expected_mean).powi(2))
        .sum::<f64>();
    let expected_effective_sample_size =
        1.0 / weights.iter().map(|weight| weight * weight).sum::<f64>();
    let x = matrix(count, 1, &values);
    let mut mean = OnlineEwMean::new(d(alpha));
    let mean_result = mean.partial_fit(&x, None).unwrap();
    let mut variance = OnlineEwVar::new(d(alpha));
    let variance_result = variance.partial_fit(&x, None).unwrap();

    let errors = [
        (f(mean.score()) - expected_mean).abs(),
        (f(variance.mean) - expected_mean).abs(),
        (f(variance.score()) - expected_variance).abs(),
        (f(mean_result.quality.effective_sample_size) - expected_effective_sample_size).abs(),
        (f(variance_result.quality.effective_sample_size) - expected_effective_sample_size).abs(),
    ];
    let maximum_error = errors.into_iter().fold(0.0_f64, f64::max);
    assert!(maximum_error <= 7.2e-15);
    assert_eq!(mean_result.quality.forgetting_factor, Some(d(decay)));
    assert_eq!(variance_result.quality.forgetting_factor, Some(d(decay)));
}

#[test]
fn ew_moments_are_partition_invariant() {
    let values = [3.0, -1.0, 7.0, 2.5, -8.0, 11.0, 0.25];
    let all = matrix(values.len(), 1, &values);
    let mut whole_mean = OnlineEwMean::new(d(0.37));
    let mut whole_variance = OnlineEwVar::new(d(0.37));
    let _ = whole_mean.partial_fit(&all, None).unwrap();
    let _ = whole_variance.partial_fit(&all, None).unwrap();

    let mut split_mean = OnlineEwMean::new(d(0.37));
    let mut split_variance = OnlineEwVar::new(d(0.37));
    for values in [&values[..3], &values[3..]] {
        let batch = matrix(values.len(), 1, values);
        let _ = split_mean.partial_fit(&batch, None).unwrap();
        let _ = split_variance.partial_fit(&batch, None).unwrap();
    }
    assert_eq!(whole_mean.mean.to_bits(), split_mean.mean.to_bits());
    assert_eq!(
        whole_mean.weight_square_sum.to_bits(),
        split_mean.weight_square_sum.to_bits()
    );
    assert_eq!(whole_mean.n_seen, split_mean.n_seen);
    assert_eq!(whole_variance.mean.to_bits(), split_variance.mean.to_bits());
    assert_eq!(whole_variance.var.to_bits(), split_variance.var.to_bits());
    assert_eq!(
        whole_variance.weight_square_sum.to_bits(),
        split_variance.weight_square_sum.to_bits()
    );
    assert_eq!(whole_variance.n_seen, split_variance.n_seen);
}

#[test]
fn ew_moments_handle_constant_and_extreme_finite_values() {
    let constant = matrix(4, 1, &[7.0, 7.0, 7.0, 7.0]);
    let mut mean = OnlineEwMean::new(d(0.4));
    let mut variance = OnlineEwVar::new(d(0.4));
    let _ = mean.partial_fit(&constant, None).unwrap();
    let _ = variance.partial_fit(&constant, None).unwrap();
    assert_eq!(f(mean.score()), 7.0);
    assert_eq!(f(variance.mean), 7.0);
    assert_eq!(f(variance.score()), 0.0);

    let extreme_value = f64::MAX / 2.0;
    let extreme = matrix(4, 1, &[extreme_value; 4]);
    let mut extreme_mean = OnlineEwMean::new(d(0.4));
    let mut extreme_variance = OnlineEwVar::new(d(0.4));
    let _ = extreme_mean.partial_fit(&extreme, None).unwrap();
    let _ = extreme_variance.partial_fit(&extreme, None).unwrap();
    assert_eq!(f(extreme_mean.score()), extreme_value);
    assert_eq!(f(extreme_variance.mean), extreme_value);
    assert_eq!(f(extreme_variance.score()), 0.0);

    let changing = matrix(3, 1, &[1.0, 2.0, 3.0]);
    let mut replace_mean = OnlineEwMean::new(d(1.0));
    let mut replace_variance = OnlineEwVar::new(d(1.0));
    let mean_result = replace_mean.partial_fit(&changing, None).unwrap();
    let variance_result = replace_variance.partial_fit(&changing, None).unwrap();
    assert_eq!(f(replace_mean.score()), 3.0);
    assert_eq!(f(replace_variance.score()), 0.0);
    assert_eq!(f(mean_result.quality.effective_sample_size), 1.0);
    assert_eq!(f(variance_result.quality.effective_sample_size), 1.0);
    assert!(!variance_result.quality.still_identified);

    let opposing = matrix(2, 1, &[-f64::MAX, f64::MAX]);
    let mut opposing_mean = OnlineEwMean::new(d(1.0));
    let mut opposing_variance = OnlineEwVar::new(d(1.0));
    let _ = opposing_mean.partial_fit(&opposing, None).unwrap();
    let _ = opposing_variance.partial_fit(&opposing, None).unwrap();
    assert_eq!(f(opposing_mean.score()), f64::MAX);
    assert_eq!(f(opposing_variance.mean), f64::MAX);
    assert_eq!(f(opposing_variance.score()), 0.0);
    assert_eq!(f(opposing_variance.effective_sample_size()), 1.0);
}

#[test]
fn ew_moments_reject_invalid_batches_transactionally() {
    let x = matrix(2, 1, &[1.0, 3.0]);
    let mut mean = OnlineEwMean::new(d(0.4));
    let _ = mean.partial_fit(&x, None).unwrap();
    let state = mean;
    for alpha in [0.0, -0.5, 1.5, f64::NAN, f64::INFINITY] {
        let mut invalid = mean;
        invalid.alpha = d(alpha);
        let before = invalid;
        let error = invalid.partial_fit(&x, None).unwrap_err();
        assert_eq!(error.primary().code, IssueCode::InvalidWeight);
        assert_eq!(invalid, before);
    }
    let mut underflowing = mean;
    underflowing.alpha = d(f64::from_bits(1));
    let before = underflowing;
    let error = underflowing.partial_fit(&x, None).unwrap_err();
    assert_eq!(error.primary().code, IssueCode::NumericalUnderflow);
    assert_eq!(underflowing, before);
    for (batch, code) in [
        (Matrix::zeros(0, 1), IssueCode::EmptyMatrix),
        (matrix(2, 1, &[1.0, f64::NAN]), IssueCode::NonFiniteInput),
    ] {
        let error = mean.partial_fit(&batch, None).unwrap_err();
        assert_eq!(error.primary().code, code);
        assert_eq!(mean, state);
    }
    let mut count_overflow = mean;
    count_overflow.n_seen = u64::MAX;
    let before = count_overflow;
    let error = count_overflow
        .partial_fit(&matrix(1, 1, &[2.0]), None)
        .unwrap_err();
    assert_eq!(error.primary().code, IssueCode::InvalidParameter);
    assert_eq!(count_overflow.mean.to_bits(), before.mean.to_bits());
    assert_eq!(count_overflow.n_seen, before.n_seen);

    let mut variance = OnlineEwVar::new(d(0.5));
    let _ = variance.partial_fit(&x, None).unwrap();
    let state = variance;
    let error = variance
        .partial_fit(&matrix(1, 1, &[f64::MAX]), None)
        .unwrap_err();
    assert_eq!(error.primary().code, IssueCode::NumericalOverflow);
    assert_eq!(variance, state);
    variance.updates = u64::MAX;
    let state = variance;
    let error = variance
        .partial_fit(&matrix(1, 1, &[2.0]), None)
        .unwrap_err();
    assert_eq!(error.primary().code, IssueCode::InvalidParameter);
    assert_eq!(variance.mean.to_bits(), state.mean.to_bits());
    assert_eq!(variance.updates, state.updates);
}

#[test]
fn tests_rls_recovers_slope() {
    let n = 80;
    let x = matrix_from(n, 1, &|row, _| (row as f64) + 1.0);
    let y: Vec<Double> = (0..n).map(|row| d(2.0 * ((row as f64) + 1.0))).collect();
    let mut model = LinearRegression::default();
    model.forgetting_factor = d(1.0);
    model.fit_intercept = false;
    model.p0 = d(100.0);
    let result = match model.partial_fit(&x, Some(&y), &policy()) {
        Ok(result) => result,
        Err(_) => panic!("the batch was refused"),
    };
    assert!(!result.top_moved.is_empty());
    assert_eq!(result.update.quality.n_seen, 80);
    let slope = f(model.coef()[0]);
    assert!((slope - 2.0).abs() < 0.05, "slope={slope}");
}

#[test]
fn rls_rejects_invalid_updates_transactionally() {
    let x = matrix(3, 1, &[1.0, 2.0, 3.0]);
    let y = vector(&[2.0, 4.0, 6.0]);
    let mut model = LinearRegression::new(d(1.0));
    assert!(model.partial_fit(&x, Some(&y), &policy()).is_ok());
    let theta_before = model.theta.clone();
    let p_before = model.p_matrix().unwrap().clone();
    let n_before = model.n_seen;
    let updates_before = model.updates;

    let short_y = vector(&[2.0]);
    let error = model
        .partial_fit(&x, Some(&short_y), &policy())
        .err()
        .unwrap();
    assert_eq!(error.primary().code, IssueCode::DimensionMismatch);
    assert_eq!(model.theta, theta_before);
    assert_eq!(model.n_seen, n_before);
    assert_eq!(model.updates, updates_before);
    for row in 0..p_before.nrows() {
        for column in 0..p_before.ncols() {
            assert_eq!(
                model.p_matrix().unwrap().get(row, column),
                p_before.get(row, column)
            );
        }
    }

    model.forgetting_factor = d(f64::NAN);
    let error = model.partial_fit(&x, Some(&y), &policy()).err().unwrap();
    assert_eq!(error.primary().code, IssueCode::InvalidWeight);
    assert_eq!(model.theta, theta_before);
    assert_eq!(model.n_seen, n_before);
    assert_eq!(model.updates, updates_before);

    model.forgetting_factor = d(1.0);
    model.fit_intercept = false;
    let error = model.partial_fit(&x, Some(&y), &policy()).err().unwrap();
    assert_eq!(error.primary().code, IssueCode::FeatureSpaceChangedOnline);
    assert_eq!(model.theta, theta_before);
    assert_eq!(model.n_seen, n_before);
    assert_eq!(model.updates, updates_before);
    model.fit_intercept = true;

    let overflow_x = matrix(2, 1, &[1.0, f64::MAX]);
    let overflow_y = vector(&[2.0, 2.0]);
    let error = model
        .partial_fit(&overflow_x, Some(&overflow_y), &policy())
        .err()
        .unwrap();
    assert!(matches!(
        error.primary().code,
        IssueCode::NearSingular | IssueCode::NonFiniteOutput
    ));
    assert_eq!(model.theta, theta_before);
    assert_eq!(model.n_seen, n_before);
    assert_eq!(model.updates, updates_before);
}

#[test]
fn rls_is_partition_invariant_and_response_scale_equivariant() {
    let x = matrix_from(17, 2, &|row, column| {
        let t = row as f64 - 7.0;
        if column == 0 {
            t / 3.0
        } else {
            ((row * 5 + 2) % 11) as f64 - 4.0
        }
    });
    let y: Vec<Double> = (0..x.nrows())
        .map(|row| d(0.75 + 1.25 * f(x.get(row, 0)) - 0.4 * f(x.get(row, 1))))
        .collect();
    let mut all_at_once = LinearRegression::new(d(0.96));
    all_at_once.p0 = d(12.0);
    assert!(all_at_once.partial_fit(&x, Some(&y), &policy()).is_ok());

    let split = 6;
    let first_x = matrix_from(split, x.ncols(), &|row, column| f(x.get(row, column)));
    let first_y = y[..split].to_vec();
    let second_x = matrix_from(x.nrows() - split, x.ncols(), &|row, column| {
        f(x.get(row + split, column))
    });
    let second_y = y[split..].to_vec();
    let mut partitioned = LinearRegression::new(d(0.96));
    partitioned.p0 = d(12.0);
    assert!(partitioned
        .partial_fit(&first_x, Some(&first_y), &policy())
        .is_ok());
    assert!(partitioned
        .partial_fit(&second_x, Some(&second_y), &policy())
        .is_ok());
    assert_eq!(all_at_once.theta, partitioned.theta);
    assert_eq!(
        all_at_once.effective_sample_size,
        partitioned.effective_sample_size
    );
    let all_p = all_at_once.p_matrix().unwrap();
    let partitioned_p = partitioned.p_matrix().unwrap();
    for row in 0..all_p.nrows() {
        for column in 0..all_p.ncols() {
            assert_eq!(all_p.get(row, column), partitioned_p.get(row, column));
        }
    }

    let response_scale = 3.5;
    let scaled_y: Vec<Double> = y.iter().map(|value| d(response_scale * f(*value))).collect();
    let mut scaled = LinearRegression::new(d(0.96));
    scaled.p0 = d(12.0);
    assert!(scaled.partial_fit(&x, Some(&scaled_y), &policy()).is_ok());
    let mut max_scale_error = 0.0_f64;
    for (scaled_value, base_value) in scaled.theta.iter().zip(&all_at_once.theta) {
        max_scale_error =
            max_scale_error.max((f(*scaled_value) - response_scale * f(*base_value)).abs());
    }
    assert!(max_scale_error <= 3.6e-15);
    let scaled_p = scaled.p_matrix().unwrap();
    for row in 0..all_p.nrows() {
        for column in 0..all_p.ncols() {
            assert_eq!(all_p.get(row, column), scaled_p.get(row, column));
        }
    }
}

#[test]
fn rls_prediction_rejects_shape_and_non_finite_input() {
    let x = matrix(3, 1, &[1.0, 2.0, 3.0]);
    let y = vector(&[2.0, 4.0, 6.0]);
    let mut model = LinearRegression::new(d(1.0));
    assert!(model.partial_fit(&x, Some(&y), &policy()).is_ok());

    let wrong_shape = Matrix::zeros(1, 2);
    let error = model.predict(&wrong_shape).err().unwrap();
    assert_eq!(error.primary().code, IssueCode::DimensionMismatch);

    let non_finite = matrix(1, 1, &[f64::INFINITY]);
    let error = model.predict(&non_finite).err().unwrap();
    assert_eq!(error.primary().code, IssueCode::NonFiniteInput);
}

#[test]
fn equal_observations_have_no_variance() {
    for value in [0.1, -0.0, -7.25, f64::MAX, f64::from_bits(1)] {
        let mut variance = OnlineVar::new();
        let _ = variance.partial_fit(&matrix(5, 1, &[value; 5]), None).unwrap();
        assert_eq!(variance.score().to_bits(), 0);
        assert_eq!(f(variance.mean), value);
    }
}

#[test]
fn the_inverse_gram_matrix_ignores_targets() {
    let x = matrix(4, 1, &[1.0, -2.0, 0.5, 3.0]);
    let mut one = LinearRegression::new(d(0.9));
    let mut other = LinearRegression::new(d(0.9));
    let _ = one.partial_fit(&x, Some(&vector(&[1.0, 2.0, 3.0, 4.0])), &policy());
    let _ = other.partial_fit(&x, Some(&vector(&[-5.0, 0.0, 8.5, 1.0])), &policy());
    for row in 0..2 {
        for column in 0..2 {
            assert_eq!(
                one.p_matrix().unwrap().get(row, column),
                other.p_matrix().unwrap().get(row, column)
            );
        }
    }
    assert_eq!(one.effective_sample_size, other.effective_sample_size);
    assert_ne!(one.theta, other.theta);
}

#[test]
fn coefficients_scale_with_their_targets() {
    let x = matrix(4, 1, &[1.0, -2.0, 0.5, 3.0]);
    let y = [1.0, 2.0, -3.0, 4.25];
    let fit = |factor: f64| {
        let mut model = LinearRegression::new(d(0.9));
        let scaled: Vec<f64> = y.iter().map(|v| factor * v).collect();
        assert!(model.partial_fit(&x, Some(&vector(&scaled)), &policy()).is_ok());
        model
    };
    let base = fit(1.0);
    for factor in [-1.0, 2.0, -4.0, 1024.0, -0.125] {
        let other = fit(factor);
        for (a, b) in base.theta.iter().zip(&other.theta) {
            assert_eq!(f(*b), factor * f(*a));
        }
    }
}

#[test]
fn every_state_has_a_sound_inverse_gram_matrix() {
    let mut model = LinearRegression::new(d(1.0));
    assert!(model.p_matrix().is_none());
    let x = matrix(2, 1, &[1.0, f64::NAN]);
    assert!(model
        .partial_fit(&x, Some(&vector(&[1.0, 2.0])), &policy())
        .is_err());
    assert!(model.p_matrix().is_none());
    let mut rows = 0.0;
    for batch in [vec![1.0, 2.0], vec![-3.0], vec![0.5, 0.25, 8.0]] {
        let n = batch.len();
        let targets: Vec<f64> = batch.iter().map(|v| v * v).collect();
        assert!(model
            .partial_fit(&matrix(n, 1, &batch), Some(&vector(&targets)), &policy())
            .is_ok());
        rows += n as f64;
        let p = model.p_matrix().unwrap();
        assert_eq!((p.nrows(), p.ncols()), (2, 2));
        assert_eq!(p.get(0, 1), p.get(1, 0));
        assert!(f(p.get(0, 0)) > 0.0 && f(p.get(1, 1)) > 0.0);
        assert_eq!(f(model.effective_sample_size), rows);
    }
}

#[test]
fn any_partition_leaves_the_same_state() {
    let values = [3.0, -1.5, 7.25, 0.1, 0.1, -2.0];
    let mut whole = OnlineAutoCorr::new();
    let _ = whole.partial_fit(&matrix(6, 1, &values), None).unwrap();
    let mut single = OnlineAutoCorr::new();
    for value in values {
        let _ = single.partial_fit(&matrix(1, 1, &[value]), None).unwrap();
        assert!(single.partial_fit(&matrix(1, 1, &[f64::NAN]), None).is_err());
    }
    assert_eq!(single.updates, 6);
    assert_eq!(OnlineAutoCorr { updates: 0, ..whole }, OnlineAutoCorr { updates: 0, ..single });
}

#[test]
fn kept_columns_follow_the_whole_history() {
    let mut model = OnlineVarianceThreshold::new(d(1.0));
    for batch in [[5.0, 1.0, 5.0, 1.0], [5.0, 1.0, 5.0, 9.0]] {
        let _ = model.partial_fit(&matrix(2, 2, &batch), None).unwrap();
    }
    assert!(model.partial_fit(&matrix(1, 2, &[80.0, f64::NAN]), None).is_err());
    let kept = model.transform(&matrix(1, 2, &[3.0, 4.0])).unwrap().value;
    assert_eq!((kept.ncols(), f(kept.get(0, 0))), (1, 4.0));
}

#[test]
fn score_is_undefined_exactly_without_variation() {
    let score = |values: &[f64]| {
        let mut model = OnlineAutoCorr::new();
        let _ = model.partial_fit(&matrix(values.len(), 1, values), None).unwrap();
        f(model.score())
    };
    assert!(score(&[2.0, 2.0, 2.0, 7.0]).is_nan());
    assert!(score(&[7.0, 2.0, 2.0, 2.0]).is_nan());
    assert!(score(&[0.0, -0.0, 0.0, 7.0]).is_nan());
    assert!(score(&[2.0, 2.0, 7.0, 2.0]).is_finite());
    assert!(score(&[-1.0, 0.0, -1.0, 3.0]).is_finite());
    let e = f64::EPSILON;
    assert!(score(&[1.0, 1.0 + 4.0 * e, 5.0]).is_finite());
    // The mean of the first two rounds to the second one.
    assert!(score(&[1.0 + e, 1.0 + 2.0 * e, 5.0]).is_nan());
}

#[test]
fn effective_size_follows_its_closed_form() {
    let mut model = LinearRegression::new(d(0.5));
    for n in 1..20 {
        let _ = model
            .partial_fit(&matrix(1, 1, &[(n % 5) as f64]), Some(&vector(&[1.0])), &policy())
            .unwrap();
        let closed = (1.0 - 0.5_f64.powi(n)) / (1.0 - 0.5);
        assert_eq!(f(model.effective_sample_size), closed);
    }
}

#[test]
fn exact_rows_give_the_least_squares_solution() {
    let mut model = LinearRegression::new(d(1.0));
    model.fit_intercept = false;
    model.p0 = d(1.0);
    let x = matrix(2, 2, &[1.0, 0.0, 0.0, -1.0]);
    assert!(model.predict(&x).is_err());
    let _ = model
        .partial_fit(&x, Some(&vector(&[6.0, 2.0])), &policy())
        .unwrap();
    // Least `(6 - a)^2 + (2 + b)^2 + a^2 + b^2`, and the inverse of diag(2, 2).
    assert_eq!(model.coef(), vector(&[3.0, -1.0]));
    let p = model.p_matrix().unwrap();
    let entries: Vec<f64> = (0..4).map(|i| f(p.get(i / 2, i % 2))).collect();
    assert_eq!(entries, vec![0.5, 0.0, 0.0, 0.5]);
    let guess = model.predict(&matrix(1, 2, &[2.0, 5.0])).unwrap().value;
    assert_eq!(guess, vector(&[1.0]));
}
