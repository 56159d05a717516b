use kanimiso::data::Matrix;
use kanimiso::double::Double;
use kanimiso::quality::{Issue, IssueCode, Policy};
use kanimiso::streaming::bayes::{OnlineBernoulliNb, OnlineGaussianNb, OnlineMultinomialNb};
use kanimiso::streaming::linear::{Alma, LogisticRegression, PassiveAggressive, Perceptron};
use kanimiso::streaming::neighbors::{KnnClassifier, KnnRegressor};
use kanimiso::streaming::ratings::{Baseline, BiasedMf, EwaRegressor, FunkMf};
use kanimiso::streaming::rls::LinearRegression;
use kanimiso::streaming::rules::AdaptiveModelRules;
use kanimiso::streaming::seasonal::{HoltWintersOnline, Snarimax};
use kanimiso::streaming::softmax::SoftmaxRegression;

fn d(x: f64) -> Double {
    Double::from_bits(x.to_bits())
}

fn f(x: Double) -> f64 {
    f64::from_bits(x.to_bits())
}

fn ln(x: Double) -> Double {
    d(f(x).ln())
}

fn exp(x: Double) -> Double {
    d(f(x).exp())
}

fn pow(a: Double, b: Double) -> Double {
    d(f(a).powf(f(b)))
}

fn policy() -> Policy {
    Policy {
        uninformative_info_eps: d(1e-12),
        min_effective_sample: d(2.0),
        near_zero_variance: d(1e-12),
    }
}

fn matrix(rows: &[[f64; 2]]) -> Matrix {
    Matrix::from_rows(
        rows.iter()
            .map(|r| r.iter().map(|v| d(*v)).collect())
            .collect(),
        2,
    )
}

fn vector(values: &[f64]) -> Vec<Double> {
    values.iter().map(|v| d(*v)).collect()
}

fn plain(values: &[Double]) -> Vec<f64> {
    values.iter().map(|v| f(*v)).collect()
}

fn raised(issues: &[Issue], code: IssueCode) -> bool {
    issues.iter().any(|i| i.code == code)
}

const ROWS: [[f64; 2]; 6] = [
    [1.0, 0.5],
    [-2.0, 1.5],
    [0.25, -1.0],
    [3.0, 2.0],
    [-1.5, -0.75],
    [2.5, -2.0],
];
const LABELS: [f64; 6] = [1.0, 0.0, 1.0, 0.0, 1.0, 1.0];

#[test]
fn perceptron_learns_from_mistakes() {
    let mut model = Perceptron::new();
    let r = model.partial_fit(&matrix(&ROWS), Some(&vector(&LABELS)));
    let (mut w, mut b, mut mistakes) = ([0.0, 0.0], 0.0, 0);
    for (row, label) in ROWS.iter().zip(LABELS) {
        let y = if label >= 0.5 { 1.0 } else { -1.0 };
        let mut s = b;
        for j in 0..2 {
            s += w[j] * row[j];
        }
        if y * s <= 0.0 {
            mistakes += 1;
            for j in 0..2 {
                w[j] += y * row[j];
            }
            b += y;
        }
    }
    assert_eq!(plain(model.coef()), w.to_vec());
    assert_eq!(f(model.intercept), b);
    assert_eq!(model.mistakes, mistakes);
    assert_eq!(r.update.quality.loss_before, Some(d(mistakes as f64 / 6.0)));
    let guess = plain(&model.predict(&matrix(&ROWS)).value);
    for (row, g) in ROWS.iter().zip(guess) {
        let mut s = b;
        for j in 0..2 {
            s += w[j] * row[j];
        }
        assert_eq!(g, if s >= 0.0 { 1.0 } else { 0.0 });
    }
}

#[test]
fn a_batch_without_mistakes_moves_nothing() {
    let mut model = Perceptron::new();
    let x = matrix(&[[1.0, 0.0], [-1.0, 0.0]]);
    let y = vector(&[1.0, 0.0]);
    for _ in 0..3 {
        let _ = model.partial_fit(&x, Some(&y));
    }
    let before = model.clone();
    let _ = model.partial_fit(&x, Some(&y));
    assert_eq!(model.mistakes, before.mistakes);
    assert_eq!(model.coef, before.coef);
    assert_eq!(model.intercept, before.intercept);
}

#[test]
fn linear_models_refuse_what_does_not_fit() {
    let mut model = Perceptron::new();
    assert!(raised(
        &model.predict(&matrix(&ROWS)).report,
        IssueCode::PartialFitBeforeInit
    ));
    let r = model.partial_fit(&matrix(&ROWS), None);
    assert!(raised(&r.update.issues, IssueCode::MissingTarget));
    let r = model.partial_fit(&Matrix::zeros(2, 0), Some(&vector(&[1.0, 0.0])));
    assert!(raised(&r.update.issues, IssueCode::PartialFitBeforeInit));
    assert!(!model.initialized);
    let _ = model.partial_fit(&matrix(&ROWS), Some(&vector(&LABELS)));
    let before = model.clone();
    let r = model.partial_fit(&Matrix::zeros(1, 3), Some(&vector(&[1.0])));
    assert!(raised(&r.update.issues, IssueCode::FeatureSpaceChangedOnline));
    assert_eq!(model.coef, before.coef);
    assert_eq!(model.n_seen, before.n_seen);
}

#[test]
fn passive_aggressive_steps_are_capped() {
    let mut model = PassiveAggressive::new(d(0.25));
    let _ = model.partial_fit(&matrix(&ROWS), Some(&vector(&LABELS)));
    let (mut w, mut b) = ([0.0, 0.0], 0.0);
    for (row, label) in ROWS.iter().zip(LABELS) {
        let y = if label >= 0.5 { 1.0 } else { -1.0 };
        let mut s = b;
        let mut n2 = 1.0;
        for j in 0..2 {
            s += w[j] * row[j];
            n2 += row[j] * row[j];
        }
        let loss = (1.0_f64 - y * s).max(0.0);
        if loss > 0.0 {
            let tau = (loss / n2).min(0.25);
            for j in 0..2 {
                w[j] += tau * y * row[j];
            }
            b += tau * y;
        }
    }
    assert_eq!(plain(model.coef()), w.to_vec());
    assert_eq!(f(model.intercept), b);
}

#[test]
fn a_row_beyond_the_margin_is_passive() {
    let mut model = PassiveAggressive::new(d(1.0));
    let _ = model.partial_fit(&matrix(&[[3.0, 0.0]]), Some(&vector(&[1.0])));
    let before = model.clone();
    let _ = model.partial_fit(&matrix(&[[30.0, 0.0]]), Some(&vector(&[1.0])));
    assert_eq!(model.coef, before.coef);
    assert_eq!(model.intercept, before.intercept);
}

#[test]
fn logistic_descent_is_exact() {
    let mut model = LogisticRegression::new();
    let r = model.partial_fit(&matrix(&ROWS), Some(&vector(&LABELS)), &exp, &ln);
    let sigmoid = |z: f64| {
        if z >= 0.0 {
            1.0 / (1.0 + (-z).exp())
        } else {
            z.exp() / (1.0 + z.exp())
        }
    };
    let score = |w: &[f64; 2], b: f64, row: &[f64; 2]| {
        let mut s = b;
        for j in 0..2 {
            s += w[j] * row[j];
        }
        s
    };
    let loss = |w: &[f64; 2], b: f64| {
        let mut s = 0.0;
        for (row, y) in ROWS.iter().zip(LABELS) {
            let mu: f64 = sigmoid(score(w, b, row));
            let mu = mu.clamp(1e-12, 1.0 - 1e-12);
            s += -(y * mu.ln() + (1.0 - y) * (1.0 - mu).ln());
        }
        s / 6.0
    };
    let (mut w, mut b) = ([0.0, 0.0], 0.0);
    let first = loss(&w, b);
    for (row, y) in ROWS.iter().zip(LABELS) {
        let g = sigmoid(score(&w, b, row)) - y;
        for j in 0..2 {
            w[j] -= 0.1 * (g * row[j] + 0.0 * w[j]);
        }
        b -= 0.1 * g;
    }
    assert_eq!(plain(model.coef()), w.to_vec());
    assert_eq!(f(model.intercept()), b);
    assert_eq!(r.update.quality.loss_before, Some(d(first)));
    assert_eq!(r.update.quality.loss_after, Some(d(loss(&w, b))));
    let guess = plain(&model.predict(&matrix(&ROWS), &exp).value);
    for (row, g) in ROWS.iter().zip(guess) {
        let expected = if sigmoid(score(&w, b, row)) >= 0.5 {
            1.0
        } else {
            0.0
        };
        assert_eq!(g, expected);
    }
    model.learning_rate = d(1.5);
    let r = model.partial_fit(&matrix(&ROWS), Some(&vector(&LABELS)), &exp, &ln);
    assert!(raised(&r.update.issues, IssueCode::LearningRateTooLarge));
}

#[test]
fn alma_keeps_unit_length() {
    let mut model = Alma::new();
    let _ = model.partial_fit(&matrix(&ROWS), Some(&vector(&LABELS)), &pow);
    let mut w = [0.0_f64, 0.0];
    for (i, (row, label)) in ROWS.iter().zip(LABELS).enumerate() {
        let n = i as f64 + 1.0;
        let y = if label >= 0.5 { 1.0 } else { -1.0 };
        let mut pred = 0.0;
        for j in 0..2 {
            pred += w[j] * row[j];
        }
        let b = 0.9 * (1.0 + 1.0 * n.powf(-1.0 / 2.0));
        if y * pred <= (1.0 - 0.9) * b.max(1e-12) {
            let eta = 1.0 / n.sqrt();
            for j in 0..2 {
                w[j] += eta * y * row[j];
            }
            let norm = (w[0] * w[0] + w[1] * w[1]).sqrt().max(1e-15);
            for j in 0..2 {
                w[j] /= norm;
            }
        }
    }
    assert_eq!(plain(model.coef()), w.to_vec());
}

#[test]
fn recursive_least_squares_step_is_exact() {
    let mut model = LinearRegression::new(d(0.5));
    let x = Matrix::from_rows(vec![vec![d(2.0)]], 1);
    let r = model.partial_fit(&x, Some(&vector(&[3.0])), &pow, &policy());
    // z = (1, 2), P = 1000 I
    let den = 0.5 + 1.0 * 1000.0 + 2.0 * 2000.0;
    let gain = [1000.0 / den, 2000.0 / den];
    assert_eq!(f(model.intercept()), gain[0] * 3.0);
    assert_eq!(plain(&model.coef()), vec![gain[1] * 3.0]);
    assert_eq!(r.update.quality.effective_sample_size, d(1.0));
    assert!(raised(&r.update.trailing, IssueCode::WarmupIncomplete));
    assert!(raised(
        &r.update.trailing,
        IssueCode::ForgettingErasedIdentification
    ));
    let p = model.p_matrix().unwrap();
    assert_eq!(p.get(0, 1), p.get(1, 0));
}

#[test]
fn a_row_without_a_gain_is_left_out() {
    let mut model = LinearRegression::new(d(1.0));
    let x = Matrix::from_rows(vec![vec![d(1.0)], vec![d(f64::INFINITY)]], 1);
    let y = vector(&[1.0, 1.0]);
    let r = model.partial_fit(&x, Some(&y), &pow, &policy());
    assert!(raised(&r.update.issues, IssueCode::NearSingular));
    let mut clean = LinearRegression::new(d(1.0));
    let first = Matrix::from_rows(vec![vec![d(1.0)]], 1);
    let _ = clean.partial_fit(&first, Some(&vector(&[1.0])), &pow, &policy());
    assert_eq!(model.theta, clean.theta);
}

#[test]
fn nearest_rows_vote() {
    let mut model = KnnClassifier::new(3);
    let x = matrix(&[[0.0, 0.0], [0.0, 1.0], [5.0, 5.0], [5.0, 6.0], [6.0, 5.0]]);
    let _ = model.partial_fit(&x, Some(&vector(&[2.0, 2.0, 7.0, 7.0, 2.0])));
    let guess = plain(&model.predict(&matrix(&[[0.0, 0.5], [5.0, 5.5]])).value);
    assert_eq!(guess, vec![2.0, 7.0]);
    // with one vote each, the greater label is returned
    let mut tied = KnnClassifier::new(2);
    let _ = tied.partial_fit(&matrix(&[[0.0, 0.0], [1.0, 1.0]]), Some(&vector(&[3.0, 1.0])));
    let guess = plain(&tied.predict(&matrix(&[[0.5, 0.5]])).value);
    assert_eq!(guess, vec![3.0]);
}

#[test]
fn nearest_rows_are_averaged() {
    let mut model = KnnRegressor::new(2);
    let x = matrix(&[[0.0, 0.0], [0.0, 1.0], [9.0, 9.0]]);
    let _ = model.partial_fit(&x, Some(&vector(&[1.0, 2.0, 50.0])));
    let guess = plain(&model.predict(&matrix(&[[0.0, 0.25]])).value);
    assert_eq!(guess, vec![1.5]);
    let r = model.partial_fit(&Matrix::zeros(1, 3), Some(&vector(&[0.0])));
    assert!(raised(&r.issues, IssueCode::FeatureSpaceChangedOnline));
    assert_eq!(model.ys.len(), 3);
}

#[test]
fn biased_ratings_are_exact_and_local() {
    let x = matrix(&[[0.0, 1.0], [2.0, 1.0], [0.0, 0.0]]);
    let y = vector(&[4.0, 1.0, 3.0]);
    let mut model = BiasedMf::new();
    let r = model.partial_fit(&x, Some(&y));
    let (mut mu, mut bu, mut bi) = (0.0, [0.0; 3], [0.0; 2]);
    for (u, i, t) in [(0, 1, 4.0), (2, 1, 1.0), (0, 0, 3.0)] {
        let mut pred = mu;
        pred += bu[u];
        pred += bi[i];
        let e = t - pred;
        mu += 0.05 * e;
        let (b, c) = (bu[u], bi[i]);
        bu[u] += 0.05 * (e - 0.01 * b);
        bi[i] += 0.05 * (e - 0.01 * c);
    }
    assert_eq!(f(model.biases.mu), mu);
    assert_eq!(plain(&model.biases.bu), bu.to_vec());
    assert_eq!(plain(&model.biases.bi), bi.to_vec());
    assert!(raised(&r.issues, IssueCode::WarmupIncomplete) || raised(&r.trailing, IssueCode::WarmupIncomplete));
    let guess = plain(&model.predict(&matrix(&[[2.0, 0.0], [9.0, 9.0]])).value);
    assert_eq!(guess, vec![mu + bu[2] + bi[0], mu]);
    let r = model.partial_fit(&Matrix::zeros(1, 1), Some(&vector(&[1.0])));
    assert!(raised(&r.issues, IssueCode::DimensionMismatch));
}

#[test]
fn factor_ratings_are_exact() {
    let mut model = FunkMf::new(2);
    let _ = model.partial_fit(&matrix(&[[1.0, 0.0]]), Some(&vector(&[2.0])));
    let mut pred = 0.0;
    pred += 0.0;
    pred += 0.0;
    for _ in 0..2 {
        pred += 0.01 * 0.01;
    }
    let e = 2.0 - pred;
    assert_eq!(f(model.biases.mu), 0.05 * e);
    let moved = 0.01 + 0.05 * (e * 0.01 - 0.01 * 0.01);
    assert_eq!(plain(&model.pu[1]), vec![moved, moved]);
    assert_eq!(plain(&model.qi[0]), vec![moved, moved]);
    assert_eq!(plain(&model.pu[0]), vec![0.01, 0.01]);
}

#[test]
fn baseline_is_the_mean_target() {
    let mut model = Baseline::new();
    assert!(raised(
        &model.predict(&matrix(&ROWS)).report,
        IssueCode::PartialFitBeforeInit
    ));
    let _ = model.partial_fit(&matrix(&ROWS[..3]), Some(&vector(&[1.0, f64::NAN, 4.0])));
    assert_eq!(plain(&model.predict(&matrix(&ROWS[..1])).value), vec![2.5]);
}

#[test]
fn forecasters_are_mixed_by_their_losses() {
    let mut model = EwaRegressor::new(d(0.4));
    let y = [1.0, 2.0, 4.0];
    let r = model.partial_fit(&matrix(&ROWS[..3]), Some(&vector(&y)), &exp);
    assert!(raised(&r.issues, IssueCode::CausalClaimUnidentified));
    let (mut wm, mut wl, mut mean, mut last) = (1.0_f64, 1.0_f64, 1.0_f64, 1.0_f64);
    for (n, t) in [(1.0, 2.0), (2.0, 4.0)] {
        let em = (mean - t) * (mean - t);
        let el = (last - t) * (last - t);
        wm *= (-0.4 * em).exp();
        wl *= (-0.4 * el).exp();
        let z = (wm + wl).max(1e-18);
        wm = (wm / z).max(1e-12);
        wl = (wl / z).max(1e-12);
        mean = (mean * n + t) / (n + 1.0);
        last = t;
    }
    let guess = plain(&model.predict(&matrix(&ROWS[..1])).value);
    assert_eq!(guess, vec![(wm * mean + wl * last) / (wm + wl)]);
}

#[test]
fn seasonal_smoothing_is_exact() {
    let series = [3.0, 5.0, 4.0, 6.0, 5.5];
    let x = Matrix::from_rows(series.iter().map(|v| vec![d(*v)]).collect(), 1);
    let mut model = HoltWintersOnline::new(2);
    let r = model.partial_fit(&x, None);
    let (mut level, mut trend, mut season) = (3.0, 0.0, [0.0, 0.0]);
    for (t, y) in series.iter().enumerate().skip(1) {
        let s = season[t % 2];
        let next = 0.3 * (y - s) + (1.0 - 0.3) * (level + trend);
        let slope = 0.1 * (next - level) + (1.0 - 0.1) * trend;
        season[t % 2] = 0.1 * (y - next) + (1.0 - 0.1) * s;
        level = next;
        trend = slope;
    }
    assert_eq!(f(model.level()), level);
    assert_eq!(f(model.trend()), trend);
    assert_eq!(plain(&model.season), season.to_vec());
    assert!(!raised(&r.issues, IssueCode::InsufficientSeasonalCycles));
    let guess = plain(&model.predict(&matrix(&ROWS[..2])).value);
    assert_eq!(
        guess,
        vec![
            level + (0.0 + 1.0) * trend + season[1],
            level + (1.0 + 1.0) * trend + season[0]
        ]
    );
}

#[test]
fn the_past_of_a_series_is_bounded() {
    let n = 70;
    let x = Matrix::zeros(n, 1);
    let y: Vec<Double> = (0..n).map(|i| d(i as f64)).collect();
    let mut model = Snarimax::new(2, 1);
    let _ = model.partial_fit(&x, Some(&y));
    assert_eq!(model.y_hist.len(), 64);
    assert_eq!(model.e_hist.len(), 64);
    assert_eq!(f(model.y_hist[0]), 6.0);
    assert_eq!(f(model.y_hist[63]), 69.0);
}

#[test]
fn softmax_descent_is_exact() {
    let y = [5.0, 2.0, 5.0];
    let mut model = SoftmaxRegression::new();
    let _ = model.partial_fit(&matrix(&ROWS[..3]), Some(&vector(&y)), &exp);
    assert_eq!(model.classes, vec![2, 5]);
    let (mut w, mut b) = ([[0.0, 0.0], [0.0, 0.0]], [0.0, 0.0]);
    for (row, t) in ROWS.iter().zip([1, 0, 1]) {
        let mut logits = [0.0; 2];
        let mut m = f64::NEG_INFINITY;
        for c in 0..2 {
            let mut s = b[c];
            for j in 0..2 {
                s += w[c][j] * row[j];
            }
            logits[c] = s;
            m = m.max(s);
        }
        let mut z = 0.0;
        for c in 0..2 {
            logits[c] = (logits[c] - m).exp();
            z += logits[c];
        }
        for c in 0..2 {
            let g = (if c == t { 1.0 } else { 0.0 }) - logits[c] / f64::max(z, 1e-12);
            b[c] += 0.1 * g;
            for j in 0..2 {
                w[c][j] += 0.1 * g * row[j];
            }
        }
    }
    assert_eq!(plain(&model.intercept), b.to_vec());
    for c in 0..2 {
        for j in 0..2 {
            assert_eq!(f(model.coef.get(c, j)), w[c][j]);
        }
    }
}

#[test]
fn bayes_classifiers_separate_classes() {
    let x = matrix(&[[0.0, 9.0], [1.0, 8.0], [9.0, 0.0], [8.0, 1.0]]);
    let y = vector(&[3.0, 3.0, -1.0, -1.0]);
    let probe = matrix(&[[0.5, 9.0], [9.0, 0.5]]);
    let mut gaussian = OnlineGaussianNb::new();
    let _ = gaussian.partial_fit(&x, Some(&y));
    assert_eq!(gaussian.bank.classes, vec![3, -1]);
    assert_eq!(plain(&gaussian.predict(&probe, &ln).value), vec![3.0, -1.0]);
    let mut counts = OnlineMultinomialNb::new();
    let _ = counts.partial_fit(&x, Some(&y));
    assert_eq!(plain(&counts.predict(&probe, &ln).value), vec![3.0, -1.0]);
    let binary = matrix(&[[0.0, 1.0], [0.0, 1.0], [1.0, 0.0], [1.0, 0.0]]);
    let mut ones = OnlineBernoulliNb::new();
    let _ = ones.partial_fit(&binary, Some(&y));
    let guess = ones.predict(&matrix(&[[0.0, 1.0], [1.0, 0.0]]), &ln);
    assert_eq!(plain(&guess.value), vec![3.0, -1.0]);
}

#[test]
fn rules_split_a_bent_line() {
    let n = 400;
    let x = Matrix::from_rows((0..n).map(|i| vec![d((i % 40) as f64 - 20.0)]).collect(), 1);
    let y: Vec<Double> = (0..n)
        .map(|i| {
            let v = (i % 40) as f64 - 20.0;
            d(if v <= 0.0 { -3.0 * v } else { 5.0 * v })
        })
        .collect();
    let mut model = AdaptiveModelRules::new(d(1.0));
    let _ = model.partial_fit(&x, Some(&y), &ln);
    let split = model.split;
    assert!(model.left.is_some() == split.is_some());
    assert!(model.right.is_some() == split.is_some());
    let _ = model.partial_fit(&x, Some(&y), &ln);
    if split.is_some() {
        assert_eq!(model.split, split);
    }
}

#[test]
fn a_slope_is_learned_from_targets() {
    let x = Matrix::from_rows((0..40).map(|i| vec![d(i as f64)]).collect(), 1);
    let y: Vec<Double> = (0..40).map(|i| d(3.0 * i as f64 - 1.0)).collect();
    let mut model = LinearRegression::new(d(1.0));
    let _ = model.partial_fit(&x, Some(&y), &pow, &policy());
    assert!((f(model.coef()[0]) - 3.0).abs() < 1e-3);
    assert!((f(model.intercept()) + 1.0).abs() < 1e-1);
}

#[test]
fn a_refused_batch_brings_no_labels() {
    let mut model = SoftmaxRegression::new();
    let _ = model.partial_fit(&matrix(&ROWS[..3]), Some(&vector(&[5.0, 2.0, 5.0])), &exp);
    let before = model.clone();
    let guess = plain(&model.predict(&matrix(&ROWS)).value);
    let r = model.partial_fit(&Matrix::zeros(2, 3), Some(&vector(&[1.0, 9.0])), &exp);
    assert!(raised(&r.issues, IssueCode::FeatureSpaceChangedOnline));
    assert_eq!(model.classes, before.classes);
    assert_eq!(model.updates, before.updates);
    assert_eq!(plain(&model.predict(&matrix(&ROWS)).value), guess);
}
