use kanimiso::data::Matrix;
use kanimiso::double::Double;
use kanimiso::quality::{IssueCode, Severity};
use kanimiso::streaming::counts::{OnlineEntropy, RandomOverSampler, RandomUnderSampler};
use kanimiso::streaming::metrics::{
    OnlineAccuracy, OnlineCohenKappa, OnlineF1, OnlineHamming, OnlineJaccard, OnlineLogLoss,
    OnlineMae, OnlineMse, OnlinePrecision, OnlineR2, OnlineRecall, OnlineRmse, OnlineRocAuc,
};
use kanimiso::streaming::statistics::{
    EwMean, EwVar, OnlineAutoCorr, OnlineCount, OnlineCovariance, OnlineGaussian, OnlineKurtosis,
    OnlineMean, OnlinePearson, OnlineSkew, OnlineVar,
};
use kanimiso::streaming::windows::{
    OnlineIqr, OnlineMad, QuantileFilter, RollingMax, RollingMean, RollingMin, RollingQuantile,
};

const VALUES: [f64; 7] = [1.5, -2.25, 4.0, 4.0, 0.1, 7.75, -3.3];
const OTHERS: [f64; 7] = [0.5, 1.25, -6.0, 2.0, 0.7, -1.75, 2.9];

fn d(x: f64) -> Double {
    Double::from_bits(x.to_bits())
}

fn f(x: Double) -> f64 {
    f64::from_bits(x.to_bits())
}

fn ln(x: Double) -> Double {
    d(f(x).ln())
}

fn exp(x: Double) -> Double {
    d(f(x).exp())
}

fn pow(a: Double, b: Double) -> Double {
    d(f(a).powf(f(b)))
}

fn column(values: &[f64]) -> Matrix {
    Matrix::from_rows(values.iter().map(|v| vec![d(*v)]).collect(), 1)
}

fn vector(values: &[f64]) -> Vec<Double> {
    values.iter().map(|v| d(*v)).collect()
}

/// The mean and the second, third and fourth central moments, updated value by value.
fn moments(values: &[f64]) -> (f64, f64, f64, f64, f64) {
    let (mut n, mut mean, mut m2, mut m3, mut m4) = (0.0, 0.0, 0.0, 0.0, 0.0);
    for v in values {
        n += 1.0;
        let n1 = n - 1.0;
        let delta = v - mean;
        let delta_n = delta / n;
        let delta_n2 = delta_n * delta_n;
        let term1 = delta * delta_n * n1;
        mean += delta_n;
        m4 += term1 * delta_n2 * (n * n - 3.0 * n + 3.0) + 6.0 * delta_n2 * m2 - 4.0 * delta_n * m3;
        m3 += term1 * delta_n * (n - 2.0) - 3.0 * delta_n * m2;
        m2 += term1;
    }
    (n, mean, m2, m3, m4)
}

#[test]
fn running_mean_skips_missing_values() {
    let mut stat = OnlineMean::new();
    assert!(stat.score().is_nan());
    let _ = stat.partial_fit(&column(&[1.5, f64::NAN, 4.0]), None);
    let mut mean = 1.5_f64;
    mean += (4.0 - mean) / 2.0;
    assert_eq!(f(stat.score()), mean);
    let r = stat.partial_fit(&column(&[f64::INFINITY]), None);
    assert_eq!(f(stat.score()), mean);
    assert_eq!(r.quality.parameter_delta_norm, Some(d(0.0)));
    assert_eq!(r.quality.update, 1);
}

#[test]
fn moments_of_a_column_are_exact() {
    let x = column(&VALUES);
    let (n, _, m2, m3, m4) = moments(&VALUES);
    let mut variance = OnlineVar::new();
    let mut skew = OnlineSkew::new();
    let mut kurtosis = OnlineKurtosis::new();
    let mut count = OnlineCount::new();
    let _ = variance.partial_fit(&x, None);
    let _ = skew.partial_fit(&x, None, &pow);
    let _ = kurtosis.partial_fit(&x, None);
    let _ = count.partial_fit(&x, None);
    let (mut mean, mut second, mut k) = (0.0, 0.0, 0.0);
    for v in VALUES {
        k += 1.0;
        let delta = v - mean;
        mean += delta / k;
        second += delta * (v - mean);
    }
    assert_eq!(f(variance.score()), second / (n - 1.0));
    assert_eq!(f(skew.score(&pow)), n.sqrt() * m3 / m2.powf(1.5));
    assert_eq!(f(kurtosis.score()), n * m4 / (m2 * m2) - 3.0);
    assert_eq!(f(count.score()), 7.0);
}

#[test]
fn moments_during_warmup_are_undefined() {
    let mut variance = OnlineVar::new();
    let mut skew = OnlineSkew::new();
    let mut kurtosis = OnlineKurtosis::new();
    let r = variance.partial_fit(&column(&[2.0]), None);
    let _ = skew.partial_fit(&column(&[2.0, 3.0]), None, &pow);
    let _ = kurtosis.partial_fit(&column(&[2.0, 3.0, 5.0]), None);
    assert!(r.quality.warmup);
    assert!(variance.score().is_nan());
    assert!(skew.score(&pow).is_nan());
    assert!(kurtosis.score().is_nan());
    let _ = skew.partial_fit(&column(&[2.5]), None, &pow);
    assert_eq!(f(skew.score(&pow)), 0.0);
}

#[test]
fn covariance_and_correlation_are_exact() {
    let x = column(&VALUES);
    let y = vector(&OTHERS);
    let mut covariance = OnlineCovariance::new();
    let mut pearson = OnlinePearson::new();
    let _ = covariance.partial_fit(&x, Some(&y));
    let _ = pearson.partial_fit(&x, Some(&y));
    let (mut n, mut mx, mut my, mut c, mut vx, mut vy) = (0.0, 0.0, 0.0, 0.0, 0.0, 0.0);
    for (a, b) in VALUES.iter().zip(OTHERS) {
        n += 1.0;
        let dx = a - mx;
        mx += dx / n;
        let dy = b - my;
        my += dy / n;
        c += dx * (b - my);
        vx += dx * (a - mx);
        vy += dy * (b - my);
    }
    let root: f64 = vx * vy;
    assert_eq!(f(covariance.score()), c / (n - 1.0));
    assert_eq!(f(pearson.score()), c / root.sqrt());
}

#[test]
fn covariance_without_a_partner_warns() {
    let mut covariance = OnlineCovariance::new();
    let r = covariance.partial_fit(&column(&VALUES), None);
    assert!(r
        .issues
        .iter()
        .any(|i| i.code == IssueCode::InsufficientSample && i.severity == Some(Severity::Warning)));
    assert!(covariance.score().is_nan());
}

#[test]
fn autocorrelation_of_a_column_is_exact() {
    let mut stat = OnlineAutoCorr::new();
    let _ = stat.partial_fit(&column(&VALUES), None);
    let (mut n, mut mx, mut my, mut c, mut vx, mut vy) = (0.0, 0.0, 0.0, 0.0, 0.0, 0.0);
    for w in VALUES.windows(2) {
        n += 1.0;
        let dx = w[0] - mx;
        mx += dx / n;
        let dy = w[1] - my;
        my += dy / n;
        c += dx * (w[1] - my);
        vx += dx * (w[0] - mx);
        vy += dy * (w[1] - my);
    }
    let root: f64 = vx * vy;
    assert_eq!(f(stat.score()), c / root.sqrt());
}

#[test]
fn gaussian_density_is_exact() {
    let mut stat = OnlineGaussian::new();
    assert!(stat.pdf(d(0.0), &exp).is_nan());
    let r = stat.partial_fit(&column(&[3.0, 3.0]), None);
    assert!(r
        .issues
        .iter()
        .any(|i| i.code == IssueCode::DegenerateDistribution));
    assert!(stat.pdf(d(3.0), &exp).is_nan());
    let mut stat = OnlineGaussian::new();
    let _ = stat.partial_fit(&column(&[1.0, 3.0]), None);
    let variance: f64 = 2.0;
    let z = (2.5 - 2.0) / variance.sqrt();
    let expected = (-0.5 * z * z).exp() / (std::f64::consts::TAU * variance).sqrt();
    assert_eq!(f(stat.pdf(d(2.5), &exp)), expected);
}

#[test]
fn fading_moments_are_exact() {
    let x = column(&VALUES);
    let mut mean = EwMean::new(d(0.6));
    let mut variance = EwVar::new(d(0.6));
    assert!(mean.score().is_nan());
    let _ = mean.partial_fit(&x, None);
    let _ = variance.partial_fit(&x, None);
    let mut expected = VALUES[0];
    let (mut centre, mut m2, mut w) = (VALUES[0], 0.0, 1.0);
    for v in &VALUES[1..] {
        expected = 0.6 * expected + (1.0 - 0.6) * v;
        w = 0.6 * w + 1.0;
        let delta = v - centre;
        centre += delta / w;
        m2 = 0.6 * m2 + delta * (v - centre);
    }
    assert_eq!(f(mean.score()), expected);
    assert_eq!(f(variance.score()), m2 / w);
}

#[test]
fn fading_out_of_range_is_replaced() {
    let mut mean = EwMean::new(d(1.5));
    let r = mean.partial_fit(&column(&[2.0, 4.0]), None);
    assert!(r
        .issues
        .iter()
        .any(|i| i.code == IssueCode::InvalidWeight && i.severity == Some(Severity::Warning)));
    assert_eq!(f(mean.score()), 3.0);
}

#[test]
fn window_figures_are_order_statistics() {
    let x = column(&VALUES);
    let mut sorted = VALUES.to_vec();
    sorted.sort_by(|a, b| a.partial_cmp(b).unwrap());
    let mut least = RollingMin::new();
    let mut most = RollingMax::new();
    let mut mean = RollingMean::new();
    let mut spread = OnlineMad::new();
    let mut range = OnlineIqr::new();
    let mut quantile = RollingQuantile::new(d(0.5));
    let _ = least.partial_fit(&x, None);
    let _ = most.partial_fit(&x, None);
    let _ = mean.partial_fit(&x, None);
    let _ = spread.partial_fit(&x, None);
    let _ = range.partial_fit(&x, None);
    let _ = quantile.partial_fit(&x, None);
    assert_eq!(f(least.score()), -3.3);
    assert_eq!(f(most.score()), 7.75);
    assert_eq!(f(mean.score()), VALUES.iter().sum::<f64>() / 7.0);
    assert_eq!(f(quantile.score()), sorted[3]);
    let mut deviations: Vec<f64> = sorted.iter().map(|v| (v - sorted[3]).abs()).collect();
    deviations.sort_by(|a, b| a.partial_cmp(b).unwrap());
    assert_eq!(f(spread.score()), deviations[3]);
    let cut = |t: f64| {
        let u = t * 6.0;
        let w = u - u.floor();
        (1.0 - w) * sorted[u.floor() as usize] + w * sorted[u.ceil() as usize]
    };
    assert_eq!(f(range.score()), cut(0.75) - cut(0.25));
}

#[test]
fn one_value_has_no_spread() {
    let mut range = OnlineIqr::new();
    assert!(range.score().is_nan());
    let _ = range.partial_fit(&column(&[2.5]), None);
    assert_eq!(f(range.score()), 0.0);
}

#[test]
fn a_window_keeps_the_latest_finite_values() {
    let values: Vec<f64> = (0..300)
        .map(|i| if i == 150 { f64::NAN } else { i as f64 })
        .collect();
    let x = column(&values);
    let mut least = RollingMin::new();
    let mut most = RollingMax::new();
    let mut quantile = RollingQuantile::new(d(0.25));
    let _ = least.partial_fit(&x, None);
    let _ = most.partial_fit(&x, None);
    let _ = quantile.partial_fit(&x, None);
    assert_eq!(f(least.score()), 43.0);
    assert_eq!(f(most.score()), 299.0);
    let kept: Vec<f64> = values.iter().copied().filter(|v| !v.is_nan()).skip(43).collect();
    assert_eq!(f(quantile.score()), kept[(0.25_f64 * 255.0).round() as usize]);
}

#[test]
fn a_quantile_filter_caps_high_values() {
    let mut filter = QuantileFilter::new(d(0.5));
    let _ = filter.partial_fit(&column(&[1.0, 2.0, 3.0, 4.0, 5.0]), None);
    let out = filter.transform(&column(&[2.0, 3.0, 3.5])).value;
    assert_eq!(f(out.get(0, 0)), 2.0);
    assert_eq!(f(out.get(1, 0)), 3.0);
    assert_eq!(f(out.get(2, 0)), 3.0);
}

#[test]
fn entropy_of_rounded_values_is_exact() {
    let mut entropy = OnlineEntropy::new();
    assert!(entropy.score(&ln).is_nan());
    let r = entropy.partial_fit(&column(&[0.2, 0.9, 1.1, f64::NAN]), None, &ln);
    let (p, q): (f64, f64) = (1.0 / 3.0, 2.0 / 3.0);
    assert_eq!(f(entropy.score(&ln)), 0.0 - p * p.ln() - q * q.ln());
    assert!(r.quality.still_identified);
    assert_eq!(f(r.quality.effective_sample_size), 3.0);
}

#[test]
fn class_counts_drive_the_samplers() {
    let x = column(&[1.0, 2.0, 3.0, 4.0, 5.0, 6.0]);
    let y = vector(&[0.0, 0.0, 0.0, 0.0, 0.0, 1.0]);
    let mut over = RandomOverSampler::new();
    let r = over.partial_fit(&x, Some(&y));
    assert_eq!(over.census.tally.entries, vec![(0, 5), (1, 1)]);
    assert_eq!(r.quality.n_seen, 6);
    let mut under = RandomUnderSampler::new();
    let r = under.partial_fit(&x, None);
    assert!(r.issues.iter().any(|i| i.code == IssueCode::MissingTarget));
    assert!(under.census.tally.entries.is_empty());
    let _ = under.partial_fit(&x, Some(&y));
    let kept = under.transform(&x, &vec![d(0.0); 6]).value;
    assert_eq!((kept.nrows() <= 6, kept.ncols()), (true, 1));
}

#[test]
fn errors_of_predictions_are_exact() {
    let x = column(&[1.0, 2.0, 4.0]);
    let y = vector(&[1.5, 1.0, 4.25]);
    let mut mse = OnlineMse::new();
    let mut rmse = OnlineRmse::new();
    let mut mae = OnlineMae::new();
    let _ = mse.partial_fit(&x, Some(&y));
    let _ = rmse.partial_fit(&x, Some(&y));
    let _ = mae.partial_fit(&x, Some(&y));
    let total: f64 = 0.25 + 1.0 + 0.0625;
    assert_eq!(f(mse.score()), total / 3.0);
    assert_eq!(f(rmse.score()), (total / 3.0).sqrt());
    assert_eq!(f(mae.score()), 1.75 / 3.0);
    let mut r2 = OnlineR2::new();
    assert!(r2.score().is_nan());
    let _ = r2.partial_fit(&x, Some(&y));
    assert!(f(r2.score()) < 1.0);
}

#[test]
fn agreement_of_labels_is_exact() {
    // two hits on each side, one false alarm, one miss
    let x = column(&[1.0, 1.0, 0.0, 0.0, 1.0, 0.0]);
    let y = vector(&[1.0, 1.0, 0.0, 0.0, 0.0, 1.0]);
    let mut accuracy = OnlineAccuracy::new();
    let mut precision = OnlinePrecision::new();
    let mut recall = OnlineRecall::new();
    let mut f1 = OnlineF1::new();
    let mut hamming = OnlineHamming::new();
    let mut jaccard = OnlineJaccard::new();
    let mut kappa = OnlineCohenKappa::new();
    let mut auc = OnlineRocAuc::new();
    let _ = accuracy.partial_fit(&x, Some(&y));
    let _ = precision.partial_fit(&x, Some(&y));
    let _ = recall.partial_fit(&x, Some(&y));
    let _ = f1.partial_fit(&x, Some(&y));
    let _ = hamming.partial_fit(&x, Some(&y));
    let _ = jaccard.partial_fit(&x, Some(&y));
    let _ = kappa.partial_fit(&x, Some(&y));
    let _ = auc.partial_fit(&x, Some(&y));
    assert_eq!(f(accuracy.score()), 4.0 / 6.0);
    assert_eq!(f(precision.score()), 2.0 / 3.0);
    assert_eq!(f(recall.score()), 2.0 / 3.0);
    assert!((f(f1.score()) - 2.0 / 3.0).abs() < 1e-15);
    assert_eq!(f(hamming.score()), 2.0 / 6.0);
    assert_eq!(f(jaccard.score()), 0.5);
    let (po, pe) = (4.0 / 6.0, 18.0 / 36.0);
    assert_eq!(f(kappa.score()), (po - pe) / (1.0 - pe));
    // of nine pairs, four are won, four tied and one lost
    assert_eq!(f(auc.score()), 6.0 / 9.0);
}

#[test]
fn log_loss_clips_probabilities() {
    let mut loss = OnlineLogLoss::new();
    let r = loss.partial_fit(&column(&[0.75, 2.0, -1.0]), Some(&vector(&[1.0, 1.0, 1.0])), &ln);
    let term = |p: f64| -(1.0 * p.ln() + (1.0 - 1.0) * (1.0 - p).ln());
    let mut expected = 0.0;
    expected += term(0.75);
    expected += term(1.0 - 1e-12);
    expected += term(1e-12);
    assert_eq!(f(loss.score()), expected / 3.0);
    assert_eq!(r.quality.loss_after, Some(loss.score()));
}

#[test]
fn a_metric_without_a_target_refuses() {
    let mut mse = OnlineMse::new();
    let r = mse.partial_fit(&column(&[1.0]), None);
    assert!(r.issues.iter().any(|i| i.code == IssueCode::MissingTarget));
    assert!(!r.screened);
    assert!(mse.score().is_nan());
    let r = mse.partial_fit(&column(&[1.0, 2.0]), Some(&vector(&[1.0])));
    assert!(r.issues.iter().any(|i| i.code == IssueCode::DimensionMismatch));
    assert!(r.issues.iter().any(|i| i.code == IssueCode::WarmupIncomplete));
    assert_eq!(f(mse.score()), 0.0);
}

#[test]
fn pairs_in_two_batches_count_as_one_batch() {
    let mut whole = OnlineR2::new();
    let _ = whole.partial_fit(&column(&VALUES), Some(&vector(&OTHERS)));
    let mut parts = OnlineR2::new();
    let _ = parts.partial_fit(&column(&VALUES[..3]), Some(&vector(&OTHERS[..3])));
    let _ = parts.partial_fit(&column(&VALUES[3..]), Some(&vector(&OTHERS[3..])));
    assert_eq!(whole, parts);
}

#[test]
fn correlations_and_fading_variance_wait_for_warmup() {
    let mut variance = EwVar::new(d(0.5));
    let r = variance.partial_fit(&column(&[3.0]), None);
    assert!(r.quality.warmup);
    assert!(variance.score().is_nan());
    let r = variance.partial_fit(&column(&[5.0]), None);
    assert!(!r.quality.warmup);
    assert!(variance.score().is_finite());
    let mut pearson = OnlinePearson::new();
    let r = pearson.partial_fit(&column(&[1.0, 2.0]), Some(&vector(&[1.0, 3.0])));
    assert!(r.quality.warmup);
    assert!(pearson.score().is_nan());
    let _ = pearson.partial_fit(&column(&[4.0]), Some(&vector(&[7.0])));
    assert_eq!(f(pearson.score()), 1.0);
    let mut lag = OnlineAutoCorr::new();
    let _ = lag.partial_fit(&column(&[1.0, 2.0, 4.0]), None);
    assert!(lag.score().is_nan());
    let _ = lag.partial_fit(&column(&[3.0]), None);
    assert!(lag.score().is_finite());
}

#[test]
fn area_under_the_curve_is_a_share_of_pairs() {
    // three positives and two negatives: four wins, one tie, one loss
    let mut auc = OnlineRocAuc::new();
    let x = column(&[0.9, 0.5, 0.2, 0.5, 0.1]);
    let y = vector(&[1.0, 1.0, 1.0, 0.0, 0.0]);
    let _ = auc.partial_fit(&x, Some(&y));
    assert_eq!(f(auc.score()), 4.5 / 6.0);
}
