use kanimiso::data::Matrix;
use kanimiso::double::Double;
use kanimiso::quality::{Issue, IssueCode, Severity};
use kanimiso::streaming::bayes::OnlineSelectKBest;
use kanimiso::streaming::encoders::{OnlineOneHotEncoder, OnlineOrdinalEncoder};
use kanimiso::streaming::encoding::{OnlineVarianceThreshold, TargetMeanEncoder};
use kanimiso::streaming::features::{
    HashingTrick, OnlineBinarizer, OnlineTfidf, Periodic, PolynomialExtender,
};
use kanimiso::streaming::scalers::{
    AdaptiveStandardScaler, GaussianScorer, OnlineMaxAbsScaler, OnlineMinMaxScaler,
    OnlineRobustScaler, OnlineStandardScaler, PreviousImputer, StatImputer,
};

fn d(x: f64) -> Double {
    Double::from_bits(x.to_bits())
}

fn f(x: Double) -> f64 {
    f64::from_bits(x.to_bits())
}

fn matrix(rows: &[&[f64]]) -> Matrix {
    Matrix::from_rows(
        rows.iter()
            .map(|r| r.iter().map(|v| d(*v)).collect())
            .collect(),
        rows[0].len(),
    )
}

fn cells(m: &Matrix) -> Vec<Vec<f64>> {
    (0..m.nrows())
        .map(|i| (0..m.ncols()).map(|j| f(m.get(i, j))).collect())
        .collect()
}

fn raised(issues: &[Issue], code: IssueCode) -> bool {
    issues.iter().any(|i| i.code == code)
}

#[test]
fn standard_scaler_centres_and_scales() {
    let x = matrix(&[&[1.0, 5.0], &[4.0, 5.0], &[f64::NAN, 5.0], &[9.0, 5.0]]);
    let mut scaler = OnlineStandardScaler::new();
    assert!(raised(
        &scaler.transform(&x).report,
        IssueCode::PartialFitBeforeInit
    ));
    let r = scaler.partial_fit(&x, None);
    assert_eq!(r.quality.n_seen, 4);
    let (mut mean, mut m2, mut n) = (0.0, 0.0, 0.0);
    for v in [1.0, 4.0, 9.0] {
        n += 1.0;
        let delta: f64 = v - mean;
        mean += delta / n;
        m2 += delta * (v - mean);
    }
    let spread: f64 = m2 / (n - 1.0);
    let out = cells(&scaler.transform(&matrix(&[&[2.0, 7.0]])).value);
    assert_eq!(out, vec![vec![(2.0 - mean) / spread.sqrt(), 2.0]]);
}

#[test]
fn a_batch_of_another_width_is_refused() {
    let mut scaler = OnlineStandardScaler::new();
    let _ = scaler.partial_fit(&matrix(&[&[1.0, 2.0]]), None);
    let before = scaler.clone();
    let r = scaler.partial_fit(&matrix(&[&[1.0]]), None);
    assert!(raised(&r.issues, IssueCode::FeatureSpaceChangedOnline));
    assert!(!r.screened);
    assert_eq!(scaler.bank.n_seen, before.bank.n_seen);
    assert_eq!(scaler.bank.columns, before.bank.columns);
    let r = OnlineStandardScaler::new().partial_fit(&Matrix::zeros(3, 0), None);
    assert!(raised(&r.issues, IssueCode::PartialFitBeforeInit));
}

#[test]
fn extremes_scale_to_the_unit_interval() {
    let x = matrix(&[&[2.0], &[f64::INFINITY], &[-3.0], &[5.0]]);
    let mut scaler = OnlineMinMaxScaler::new();
    let _ = scaler.partial_fit(&x, None);
    let shown = cells(&scaler.transform(&matrix(&[&[-3.0], &[5.0], &[2.0]]), d(1e-12)).value);
    assert_eq!(shown, vec![vec![0.0], vec![1.0], vec![0.625]]);
    let mut flat = OnlineMinMaxScaler::new();
    let _ = flat.partial_fit(&matrix(&[&[4.0], &[4.0]]), None);
    let shown = cells(&flat.transform(&matrix(&[&[7.0]]), d(1e-12)).value);
    assert_eq!(shown, vec![vec![0.0]]);
}

#[test]
fn largest_magnitude_scales_to_one() {
    let mut scaler = OnlineMaxAbsScaler::new();
    let _ = scaler.partial_fit(&matrix(&[&[2.0], &[-8.0]]), None);
    let shown = cells(&scaler.transform(&matrix(&[&[-8.0], &[2.0]]), d(1e-12)).value);
    assert_eq!(shown, vec![vec![-1.0], vec![0.25]]);
}

#[test]
fn robust_scaler_follows_quartile_steps() {
    let mut scaler = OnlineRobustScaler::new();
    let values = [1.0, -2.0, 3.0, 0.5];
    let rows: Vec<&[f64]> = values.chunks(1).collect();
    let _ = scaler.partial_fit(&matrix(&rows), None);
    let eta = 1.0 / 4.0;
    let (mut low, mut high) = (0.0_f64, 0.0_f64);
    for v in values {
        low += eta * (if v < low { -0.5 } else { 0.5 } + 2.0 * 0.25 - 1.0);
        high += eta * (if v < high { -0.5 } else { 0.5 } + 2.0 * 0.75 - 1.0);
    }
    let shown = cells(&scaler.transform(&matrix(&[&[2.0]]), d(1e-12)).value);
    assert_eq!(shown, vec![vec![(2.0 - low) / (high - low)]]);
}

#[test]
fn adaptive_scaler_fades() {
    let mut scaler = AdaptiveStandardScaler::new(d(0.5));
    let _ = scaler.partial_fit(&matrix(&[&[2.0], &[4.0]]), None);
    // mean 0 -> 1 -> 2.5, variance 1 -> 2.5 -> 5.75
    let shown = cells(&scaler.transform(&matrix(&[&[3.0]])).value);
    assert_eq!(shown, vec![vec![0.5 / 5.75_f64.sqrt()]]);
    let r = AdaptiveStandardScaler::new(d(-1.0)).partial_fit(&matrix(&[&[2.0]]), None);
    assert!(r
        .issues
        .iter()
        .any(|i| i.code == IssueCode::InvalidWeight && i.severity == Some(Severity::Warning)));
}

#[test]
fn gaussian_score_is_a_distance() {
    let mut scorer = GaussianScorer::new();
    let _ = scorer.partial_fit(&matrix(&[&[1.0], &[3.0]]), None);
    let shown = cells(&scorer.transform(&matrix(&[&[5.0], &[0.0]])).value);
    assert_eq!(shown, vec![vec![3.0], vec![2.0]]);
}

#[test]
fn missing_values_become_the_mean() {
    let mut imputer = StatImputer::new();
    let x = matrix(&[&[1.0, f64::NAN], &[2.0, f64::NAN]]);
    let _ = imputer.partial_fit(&x, None);
    let out = imputer.transform(&matrix(&[&[f64::NAN, f64::NAN], &[7.0, 8.0]]));
    assert_eq!(cells(&out.value), vec![vec![1.5, 0.0], vec![7.0, 8.0]]);
    assert!(raised(&out.report, IssueCode::ImputationUndefined));
}

#[test]
fn missing_values_become_the_previous_one() {
    let mut imputer = PreviousImputer::new();
    let x = matrix(&[&[1.0, f64::NAN], &[2.0, f64::NAN], &[f64::NAN, f64::NAN]]);
    let _ = imputer.partial_fit(&x, None);
    let out = imputer.transform(&matrix(&[&[f64::NAN, f64::NAN], &[7.0, 8.0]]));
    assert_eq!(cells(&out.value), vec![vec![2.0, 0.0], vec![7.0, 8.0]]);
    assert!(raised(&out.report, IssueCode::ImputationUndefined));
}

#[test]
fn categories_keep_their_slots() {
    let mut encoder = OnlineOneHotEncoder::new(2);
    let _ = encoder.partial_fit(&matrix(&[&[7.0], &[3.2], &[7.4]]), None);
    assert_eq!(encoder.bank.maps, vec![vec![7, 3]]);
    let r = encoder.partial_fit(&matrix(&[&[5.0], &[3.0]]), None);
    assert!(raised(&r.issues, IssueCode::InvalidWeight));
    assert_eq!(encoder.bank.maps, vec![vec![7, 3]]);
    let out = cells(&encoder.transform(&matrix(&[&[3.0], &[7.0], &[5.0]])).value);
    assert_eq!(out, vec![vec![0.0, 1.0], vec![1.0, 0.0], vec![0.0, 0.0]]);
}

#[test]
fn a_late_category_is_reported() {
    let mut encoder = OnlineOrdinalEncoder::new(8);
    let blank = cells(&encoder.transform(&matrix(&[&[4.0, 1.0]])).value);
    assert_eq!(blank, vec![vec![0.0, 0.0]]);
    let _ = encoder.partial_fit(&matrix(&[&[4.0], &[f64::NAN], &[9.0]]), None);
    let r = encoder.partial_fit(&matrix(&[&[9.0], &[1.0]]), None);
    assert!(raised(&r.issues, IssueCode::FeatureSpaceChangedOnline));
    let out = cells(
        &encoder
            .transform(&matrix(&[&[4.0], &[9.0], &[1.0], &[2.0], &[f64::NAN]]))
            .value,
    );
    assert_eq!(out, vec![vec![0.0], vec![1.0], vec![2.0], vec![-1.0], vec![-1.0]]);
}

#[test]
fn products_follow_the_columns() {
    let mut map = PolynomialExtender::new(2);
    let x = matrix(&[&[2.0, 3.0]]);
    let _ = map.partial_fit(&x, None);
    let out = cells(&map.transform(&x).value);
    assert_eq!(out, vec![vec![2.0, 3.0, 4.0, 9.0, 4.0, 6.0, 9.0]]);
    let mut map = PolynomialExtender::new(5);
    let r = map.partial_fit(&x, None);
    assert!(raised(&r.issues, IssueCode::InvalidWeight));
    assert_eq!(map.degree, 2);
    let wide = Matrix::zeros(1, 10);
    let r = PolynomialExtender::new(2).partial_fit(&wide, None);
    assert!(
        raised(&r.issues, IssueCode::PolynomialExplosion)
            || raised(&r.trailing, IssueCode::PolynomialExplosion)
    );
}

#[test]
fn hashing_keeps_column_totals_apart_from_signs() {
    let map = HashingTrick::new(4);
    let out = cells(&map.transform(&matrix(&[&[1.0, 0.0, 0.0], &[0.0, 2.0, 0.0]])).value);
    for (row, size) in out.iter().zip([1.0, 2.0]) {
        assert_eq!(row.len(), 4);
        assert_eq!(row.iter().filter(|v| **v != 0.0).count(), 1);
        assert_eq!(row.iter().map(|v| v.abs()).sum::<f64>(), size);
    }
    let out = cells(&map.transform(&matrix(&[&[1.0, 2.0, 3.0]])).value);
    let bin = |j: u64| j.wrapping_mul(0x9E37_79B9_7F4A_7C15);
    let mut expected = vec![0.0; 4];
    for (j, v) in [1.0, 2.0, 3.0].iter().enumerate() {
        let h = bin(j as u64);
        expected[(h % 4) as usize] += if (h >> 1) & 1 == 0 { *v } else { -*v };
    }
    assert_eq!(out, vec![expected]);
    assert_eq!(HashingTrick::new(0).n_features, 1);
    let mut none = HashingTrick::new(3);
    none.n_features = 0;
    let r = none.partial_fit(&matrix(&[&[1.0]]), None);
    assert!(raised(&r.issues, IssueCode::InvalidWeight));
    assert_eq!(none.n_features, 1);
}

#[test]
fn threshold_splits_values() {
    let mut map = OnlineBinarizer::new(d(2.0));
    let _ = map.partial_fit(&matrix(&[&[1.0]]), None);
    let out = cells(&map.transform(&matrix(&[&[1.9], &[2.0], &[f64::NAN]])).value);
    assert_eq!(out, vec![vec![0.0], vec![1.0], vec![0.0]]);
    let mut odd = OnlineBinarizer::new(d(f64::NAN));
    let r = odd.partial_fit(&matrix(&[&[1.0]]), None);
    assert!(raised(&r.issues, IssueCode::InvalidWeight));
    assert_eq!(f(odd.threshold), 0.0);
}

#[test]
fn cycles_become_sine_and_cosine() {
    let sin = |z: Double| d(f(z).sin());
    let cos = |z: Double| d(f(z).cos());
    let map = Periodic::new(d(12.0));
    let out = cells(&map.transform(&matrix(&[&[3.0, 5.0]]), &sin, &cos).value);
    let angle = |v: f64| std::f64::consts::TAU * v / 12.0;
    assert_eq!(
        out,
        vec![vec![
            angle(3.0).sin(),
            angle(3.0).cos(),
            angle(5.0).sin(),
            angle(5.0).cos()
        ]]
    );
    let mut odd = Periodic::new(d(-2.0));
    let r = odd.partial_fit(&matrix(&[&[1.0]]), None);
    assert!(raised(&r.issues, IssueCode::InvalidWeight));
    assert_eq!(f(odd.period), 1.0);
}

#[test]
fn rare_terms_weigh_more() {
    let ln = |z: Double| d(f(z).ln());
    let mut map = OnlineTfidf::new();
    let r = map.partial_fit(&matrix(&[&[1.0, 0.0], &[2.0, 3.0], &[0.0, 0.0]]), None);
    assert!(raised(&r.issues, IssueCode::NearZeroVariance));
    assert!(raised(&r.trailing, IssueCode::PValueUnreliable));
    let out = cells(&map.transform(&matrix(&[&[2.0, 1.0, 4.0]]), &ln).value);
    let weight = |tf: f64, df: f64| tf * ((4.0 / (df + 1.0)).ln() + 1.0);
    assert_eq!(out, vec![vec![weight(2.0, 2.0), weight(1.0, 1.0), 4.0]]);
}

#[test]
fn target_means_are_kept_per_category() {
    let mut encoder = TargetMeanEncoder::new();
    let y = vec![d(1.0), d(3.0), d(10.0)];
    let _ = encoder.partial_fit(&matrix(&[&[0.0], &[0.0], &[1.0]]), Some(&y));
    let before = cells(&encoder.transform(&matrix(&[&[0.0], &[1.0]])).value);
    let _ = encoder.partial_fit(&matrix(&[&[1.0]]), Some(&vec![d(20.0)]));
    let after = cells(&encoder.transform(&matrix(&[&[0.0], &[1.0]])).value);
    assert_eq!(before[0], after[0]);
    assert_eq!(after[0], vec![2.0]);
    assert_eq!(after[1], vec![15.0]);
    let r = encoder.partial_fit(&matrix(&[&[1.0]]), None);
    assert!(raised(&r.issues, IssueCode::MissingTarget));
}

#[test]
fn flat_columns_are_dropped() {
    let mut filter = OnlineVarianceThreshold::new(d(0.0));
    let x = matrix(&[&[1.0, 4.0], &[2.0, 4.0], &[3.0, 4.0]]);
    let _ = filter.partial_fit(&x, None);
    let out = filter.transform(&x);
    assert_eq!(cells(&out.value), vec![vec![1.0], vec![2.0], vec![3.0]]);
}

#[test]
fn the_best_columns_are_chosen_in_order() {
    let mut choice = OnlineSelectKBest::new(2);
    let x = matrix(&[
        &[0.0, 5.0, 9.0],
        &[0.1, 5.2, 1.0],
        &[4.0, 5.1, 8.8],
        &[4.1, 5.3, 1.1],
    ]);
    let y = vec![d(0.0), d(1.0), d(0.0), d(1.0)];
    let _ = choice.partial_fit(&x, Some(&y));
    let out = cells(&choice.transform(&x).value);
    assert_eq!(out.len(), 4);
    assert_eq!(out[0].len(), 2);
    // the first column carries no information on the target
    assert_eq!(out[0], vec![5.0, 9.0]);
}

#[test]
fn columns_of_two_batches_join() {
    let all: Vec<[f64; 2]> = (0..9).map(|i| [(i * i) as f64 / 7.0, 5.0 - i as f64]).collect();
    let rows: Vec<&[f64]> = all.iter().map(|r| r.as_slice()).collect();
    let mut whole = OnlineStandardScaler::new();
    let _ = whole.partial_fit(&matrix(&rows), None);
    let mut parts = OnlineStandardScaler::new();
    let _ = parts.partial_fit(&matrix(&rows[..4]), None);
    let _ = parts.partial_fit(&matrix(&rows[4..]), None);
    assert_eq!(whole.bank.columns, parts.bank.columns);
    assert_eq!(whole.bank.n_seen, parts.bank.n_seen);
}

#[test]
fn a_column_that_separates_the_classes_is_best() {
    let mut choice = OnlineSelectKBest::new(1);
    let x = matrix(&[&[0.0, 1.0], &[0.0, 2.0], &[1.0, 2.0], &[1.0, 3.0]]);
    let y = vec![d(0.0), d(0.0), d(1.0), d(1.0)];
    let _ = choice.partial_fit(&x, Some(&y));
    let out = cells(&choice.transform(&x).value);
    assert_eq!(out, vec![vec![0.0], vec![0.0], vec![1.0], vec![1.0]]);
    // a column without any spread is worst
    let mut choice = OnlineSelectKBest::new(1);
    let x = matrix(&[&[7.0, 1.0], &[7.0, 2.0], &[7.0, 2.0], &[7.0, 3.0]]);
    let _ = choice.partial_fit(&x, Some(&y));
    let out = cells(&choice.transform(&x).value);
    assert_eq!(out, vec![vec![1.0], vec![2.0], vec![2.0], vec![3.0]]);
}

#[test]
fn one_slot_is_lit_per_known_category() {
    let mut encoder = OnlineOneHotEncoder::new(3);
    let x = matrix(&[&[4.0, 8.0], &[6.0, 8.0], &[9.0, 1.0]]);
    let _ = encoder.partial_fit(&x, None);
    let before = cells(&encoder.transform(&x).value);
    for row in &before {
        assert_eq!(row[..3].iter().sum::<f64>(), 1.0);
        assert_eq!(row[3..].iter().sum::<f64>(), 1.0);
    }
    let _ = encoder.partial_fit(&matrix(&[&[5.0, 2.0]]), None);
    assert_eq!(cells(&encoder.transform(&x).value), before);
}
