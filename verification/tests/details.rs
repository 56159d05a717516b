use kanimiso::data::Matrix;
use kanimiso::double::Double;
use kanimiso::streaming::bayes::{OnlineBernoulliNb, OnlineMultinomialNb};
use kanimiso::streaming::clusters::CluStream;
use kanimiso::streaming::drift::{Adwin, DriftDecision, Eddm, Hddm, HddmW, Kswin};
use kanimiso::streaming::isolation::{HalfSpaceTrees, HsNode, OnlineIsolationForest};
use kanimiso::streaming::mondrian::AmfClassifier;
use kanimiso::streaming::rules::AdaptiveModelRules;
use kanimiso::streaming::seasonal::Snarimax;
use kanimiso::streaming::trees::{HoeffdingRegressor, HoeffdingTree};

fn d(x: f64) -> Double {
    Double::from_bits(x.to_bits())
}

fn f(x: Double) -> f64 {
    f64::from_bits(x.to_bits())
}

fn ln(x: Double) -> Double {
    d(f(x).ln())
}

fn pow(a: Double, b: Double) -> Double {
    d(f(a).powf(f(b)))
}

fn logistic(z: f64) -> f64 {
    1.0 / (1.0 + (-1.702 * z).exp())
}

fn cdf(x: Double) -> Double {
    d(logistic(f(x)))
}

fn rows(values: &[Vec<f64>]) -> Matrix {
    Matrix::from_rows(
        values
            .iter()
            .map(|r| r.iter().map(|v| d(*v)).collect())
            .collect(),
        values[0].len(),
    )
}

fn vector(values: &[f64]) -> Vec<Double> {
    values.iter().map(|v| d(*v)).collect()
}

fn plain(values: &[Double]) -> Vec<f64> {
    values.iter().map(|v| f(*v)).collect()
}

/// Numbers between 0 and 1 without a visible order.
fn scatter(n: usize, step: usize) -> Vec<f64> {
    (0..n).map(|i| ((i * step + 3) % 101) as f64 / 101.0).collect()
}

#[derive(Clone, Copy, Default)]
struct Moments {
    n: f64,
    mean: f64,
    m2: f64,
}

impl Moments {
    fn push(&mut self, x: f64) {
        self.n += 1.0;
        let delta = x - self.mean;
        self.mean += delta / self.n;
        self.m2 += delta * (x - self.mean);
    }

    fn deviation(&self) -> f64 {
        if self.n < 2.0 {
            1e-6
        } else {
            (self.m2 / (self.n - 1.0)).max(0.0).sqrt().max(1e-6)
        }
    }

    fn variance(&self) -> f64 {
        if self.n < 2.0 {
            0.0
        } else {
            (self.m2 / (self.n - 1.0)).max(0.0)
        }
    }
}

fn gini(a: f64, b: f64) -> f64 {
    let n = a + b;
    if n <= 0.0 {
        return 0.0;
    }
    1.0 - (a / n) * (a / n) - (b / n) * (b / n)
}

#[test]
fn the_first_split_of_a_tree_is_exact() {
    let x: Vec<Vec<f64>> = scatter(60, 37)
        .iter()
        .zip(scatter(60, 53))
        .map(|(a, b)| vec![*a, b])
        .collect();
    let y: Vec<f64> = x.iter().map(|r| if r[0] > 0.4 { 1.0 } else { 0.0 }).collect();
    let mut expected = None;
    let (mut neg, mut pos) = ([Moments::default(); 2], [Moments::default(); 2]);
    let (mut n_neg, mut n_pos) = (0.0, 0.0);
    for (row, label) in x.iter().zip(&y) {
        if *label >= 0.5 {
            n_pos += 1.0;
        } else {
            n_neg += 1.0;
        }
        for j in 0..2 {
            if *label >= 0.5 {
                pos[j].push(row[j]);
            } else {
                neg[j].push(row[j]);
            }
        }
        let n: f64 = n_neg + n_pos;
        if n < 20.0 || n_neg == 0.0 || n_pos == 0.0 {
            continue;
        }
        let parent = gini(n_neg, n_pos);
        let mut best = (0, 0.0, -1.0);
        let mut second: f64 = -1.0;
        for j in 0..2 {
            let (t1, t2) = (neg[j].mean, pos[j].mean);
            for t in [t1, t2, 0.5 * (t1 + t2)] {
                let left_neg = n_neg * logistic((t - neg[j].mean) / neg[j].deviation());
                let left_pos = n_pos * logistic((t - pos[j].mean) / pos[j].deviation());
                let (right_neg, right_pos) = (n_neg - left_neg, n_pos - left_pos);
                let (l, r) = (left_neg + left_pos, right_neg + right_pos);
                let gain = if l <= 1.0 || r <= 1.0 {
                    -1.0
                } else {
                    parent - (l * gini(left_neg, left_pos) + r * gini(right_neg, right_pos)) / n
                };
                if gain > best.2 {
                    second = best.2;
                    best = (j, t, gain);
                } else if gain > second {
                    second = gain;
                }
            }
        }
        let bound = (0.5 * (1.0 / 1e-1_f64.max(1e-12)).ln() / n).sqrt();
        if best.2 >= 0.0 && (best.2 - second.max(0.0) > bound || bound < 0.2) {
            expected = Some((best.0, best.1, best.2, bound, n));
            break;
        }
    }
    let (feature, threshold, gain, bound, n) = expected.unwrap();
    let mut tree = HoeffdingTree::new();
    tree.delta = d(1e-1);
    tree.tau = d(0.2);
    for (row, label) in x.iter().zip(&y) {
        let _ = tree.partial_fit(&rows(&[row.clone()]), Some(&vector(&[*label])), &ln, &cdf);
        if tree.last_split().is_some() {
            break;
        }
    }
    let note = tree.last_split().unwrap();
    assert_eq!(note.feature, feature);
    assert_eq!(f(note.threshold), threshold);
    assert_eq!(f(note.gain), gain);
    assert_eq!(f(note.bound), bound);
    assert_eq!(f(note.n), n);
    assert_eq!(tree.n_seen, n as u64);
}

#[test]
fn the_first_split_of_a_regression_tree_is_exact() {
    let x: Vec<Vec<f64>> = scatter(60, 37)
        .iter()
        .zip(scatter(60, 53))
        .map(|(a, b)| vec![*a, b])
        .collect();
    let y: Vec<f64> = x.iter().map(|r| if r[1] > 0.5 { 9.0 } else { -3.0 }).collect();
    let mut whole = Moments::default();
    let mut bins = [[Moments::default(); 3]; 2];
    let mut expected = None;
    for (row, t) in x.iter().zip(&y) {
        whole.push(*t);
        for j in 0..2 {
            let centre = if bins[j][0].n < 1.0 {
                row[j]
            } else {
                bins[j][0].mean
            };
            if row[j] <= centre {
                bins[j][1].push(*t);
            } else {
                bins[j][2].push(*t);
            }
            bins[j][0].push(row[j]);
        }
        if whole.n < 20.0 {
            continue;
        }
        let mut best = (0, 0.0, -1.0);
        let mut second: f64 = -1.0;
        for (j, bin) in bins.iter().enumerate() {
            let (l, r) = (bin[1].n, bin[2].n);
            if l < 2.0 || r < 2.0 {
                continue;
            }
            let gain = whole.variance() - (l * bin[1].variance() + r * bin[2].variance()) / whole.n;
            if gain > best.2 {
                second = best.2;
                best = (j, bin[0].mean, gain);
            } else if gain > second {
                second = gain;
            }
        }
        let bound = (0.5 * (1.0 / 1e-7_f64.max(1e-12)).ln() / whole.n).sqrt();
        if best.2 >= 0.0 && (best.2 - second.max(0.0) > bound || bound < 0.05) {
            expected = Some((best.0, best.1, best.2));
            break;
        }
    }
    let (feature, threshold, gain) = expected.unwrap();
    let mut tree = HoeffdingRegressor::new();
    for (row, t) in x.iter().zip(&y) {
        let _ = tree.partial_fit(&rows(&[row.clone()]), Some(&vector(&[*t])), &ln, &cdf);
        if tree.last_split().is_some() {
            break;
        }
    }
    let note = tree.last_split().unwrap();
    assert_eq!((note.feature, f(note.threshold), f(note.gain)), (feature, threshold, gain));
}

#[test]
fn merged_summaries_are_exact() {
    let values: Vec<Vec<f64>> = scatter(25, 41)
        .iter()
        .zip(scatter(25, 29))
        .map(|(a, b)| vec![10.0 * a, 10.0 * b])
        .collect();
    let mut model = CluStream::new(3);
    let radius = f(model.radius);
    let _ = model.partial_fit(&rows(&values), None);
    let mut micros: Vec<(f64, Vec<f64>, f64)> = Vec::new();
    let centre = |m: &(f64, Vec<f64>, f64)| -> Vec<f64> { m.1.iter().map(|v| v * (1.0 / m.0)).collect() };
    let distance = |a: &[f64], b: &[f64]| -> f64 {
        let mut s = 0.0;
        for j in 0..a.len() {
            let z = a[j] - b[j];
            s += z * z;
        }
        s.sqrt()
    };
    let square = |r: &[f64]| -> f64 {
        let mut s = 0.0;
        for v in r {
            s += v * v;
        }
        s
    };
    for row in &values {
        let mut best = None;
        let mut least = f64::INFINITY;
        for (t, m) in micros.iter().enumerate() {
            let z = distance(&centre(m), row);
            if z < least {
                least = z;
                best = Some(t);
            }
        }
        if best.is_some() && least <= radius {
            let m = &mut micros[best.unwrap()];
            m.0 += 1.0;
            for j in 0..2 {
                m.1[j] += row[j];
            }
            m.2 += square(row);
            continue;
        }
        micros.push((1.0, row.clone(), square(row)));
        while micros.len() > 3 {
            let mut pair = (0, 1, f64::INFINITY);
            for a in 0..micros.len() {
                for b in (a + 1)..micros.len() {
                    let z = distance(&centre(&micros[a]), &centre(&micros[b]));
                    if z < pair.2 {
                        pair = (a, b, z);
                    }
                }
            }
            let second = micros.remove(pair.1);
            let first = micros.remove(pair.0);
            let sums = (0..2).map(|j| first.1[j] + second.1[j]).collect();
            micros.push((first.0 + second.0, sums, first.2 + second.2));
        }
    }
    assert_eq!(model.n_micro(), micros.len());
    for (m, e) in model.micros.iter().zip(&micros) {
        assert_eq!(f(m.n), e.0);
        assert_eq!(plain(&m.ls), e.1);
        assert_eq!(f(m.ss), e.2);
    }
}

fn walk(node: &HsNode, v: f64, n: f64) -> f64 {
    if let Some((left, right)) = &node.halves {
        let child = if v <= f(node.threshold) { left } else { right };
        if child.mass > 0 || child.halves.is_some() {
            return walk(child, v, n);
        }
    }
    1.0 - (node.mass.max(1) as f64 / n) * (1.0 + node.depth as f64).recip()
}

#[test]
fn half_space_scores_are_exact() {
    let values: Vec<Vec<f64>> = scatter(30, 17).iter().map(|v| vec![*v]).collect();
    let cuts: Vec<(usize, Double)> = scatter(14, 61).iter().map(|u| (0, d(*u))).collect();
    let mut model = HalfSpaceTrees::new(2, 3);
    let _ = model.partial_fit(&rows(&values), None, &cuts);
    let least = values.iter().map(|r| r[0]).fold(f64::INFINITY, f64::min);
    let most = values.iter().map(|r| r[0]).fold(f64::NEG_INFINITY, f64::max);
    let pad = 0.1 * (most - least);
    let (lo, hi) = (least - pad, most + pad);
    // the root of each tree takes the first of its seven draws
    for (t, tree) in model.trees.iter().enumerate() {
        assert_eq!(f(tree.threshold), lo + f(cuts[7 * t].1) * (hi - lo));
    }
    let probe = [0.05, 0.5, 3.0];
    let scores = plain(
        &model
            .predict(&rows(&probe.iter().map(|v| vec![*v]).collect::<Vec<_>>()))
            .value,
    );
    for (v, s) in probe.iter().zip(scores) {
        let mut sum = 0.0;
        for tree in &model.trees {
            sum += walk(tree, *v, 30.0);
        }
        assert_eq!(s, sum / 2.0);
    }
}

#[test]
fn isolation_scores_are_exact() {
    let values: Vec<Vec<f64>> = scatter(30, 17).iter().map(|v| vec![*v]).collect();
    let picks: Vec<Vec<(usize, Double)>> = vec![
        vec![(0, d(0.3)), (0, d(0.6))],
        vec![(0, d(0.8)), (0, d(0.1))],
    ];
    let mut model = OnlineIsolationForest::new(2, 2);
    let _ = model.partial_fit(&rows(&values), None, &picks);
    let least = values.iter().map(|r| r[0]).fold(f64::INFINITY, f64::min);
    let most = values.iter().map(|r| r[0]).fold(f64::NEG_INFINITY, f64::max);
    let cell = |t: usize, v: f64| -> usize {
        (0..2)
            .map(|k| {
                let cut = least + f(picks[t][k].1) * (most - least);
                if v > cut {
                    1 << k
                } else {
                    0
                }
            })
            .sum()
    };
    let probe = 0.42;
    let mut sum = 0.0;
    for t in 0..2 {
        let mass = values.iter().filter(|r| cell(t, r[0]) == cell(t, probe)).count() as f64;
        let path = 2.0 + if mass > 1.0 { mass.ln() } else { 0.0 };
        sum += 2.0_f64.powf(-path / 30.0_f64.ln().max(1.0));
    }
    let score = model.score_row(&rows(&[vec![probe]]), 0, &ln, &pow);
    assert_eq!(f(score), sum / 2.0);
}

#[test]
fn error_bounds_are_exact() {
    let stream: Vec<f64> = (0..120).map(|i| if i < 60 { (i % 6 == 0) as u8 as f64 } else { 1.0 }).collect();
    let mut detector = Hddm::new();
    let delta = f(detector.delta);
    let bound = |n: f64| (0.5 / n * (1.0 / delta.max(1e-16)).ln()).sqrt();
    let (mut n, mut mean, mut n_min, mut mean_min) = (0.0_f64, 0.0, 0.0_f64, f(detector.mean_min));
    for e in &stream {
        n += 1.0;
        mean += (e - mean) / n;
        let (eps, eps_min) = (bound(n), bound(n_min.max(1.0)));
        if mean + eps < mean_min + eps_min {
            mean_min = mean;
            n_min = n;
        }
        let statistic = d(mean - mean_min);
        let decision = detector.update(d(*e), &ln).value;
        if n >= 30.0 && mean - eps > mean_min + eps_min {
            assert_eq!(decision, DriftDecision::Drift { statistic });
            (n, mean, n_min, mean_min) = (0.0, 0.0, 0.0, f64::INFINITY);
        } else if n >= 30.0 && mean - 0.5 * eps > mean_min + 0.5 * eps_min {
            assert_eq!(decision, DriftDecision::Warning { statistic });
        } else {
            assert_eq!(decision, DriftDecision::Stable);
        }
    }
    assert_eq!(detector.n as f64, n);
    assert_eq!(f(detector.mean), mean);
}

#[test]
fn weighted_error_means_are_exact() {
    let stream: Vec<f64> = (0..50).map(|i| (i % 7 < 2) as u8 as f64).collect();
    let mut detector = HddmW::new();
    let lambda = f(detector.lambda).clamp(1e-6, 1.0);
    let mut mean = stream[0];
    let _ = detector.update(d(stream[0]), &ln, &pow);
    for e in &stream[1..] {
        let q = detector.update(d(*e), &ln, &pow);
        if matches!(q.value, DriftDecision::Drift { .. }) {
            return;
        }
        mean = lambda * e + (1.0 - lambda) * mean;
        assert_eq!(f(detector.mean), mean);
    }
}

#[test]
fn error_distances_are_exact() {
    let mut detector = Eddm::new();
    let at = [3, 5, 11, 12, 20];
    for i in 1..=20 {
        let _ = detector.update(d(at.contains(&i) as u8 as f64));
    }
    let (mut n, mut mean, mut m2) = (0.0, 0.0, 0.0);
    for w in at.windows(2) {
        let gap = (w[1] - w[0]) as f64;
        n += 1.0;
        let delta = gap - mean;
        mean += delta / n;
        m2 += delta * (gap - mean);
    }
    assert_eq!(f(detector.mean_d), mean);
    assert_eq!(f(detector.m2_d), m2);
    assert_eq!(detector.n_err, 4);
}

#[test]
fn a_cut_reports_the_difference_of_means() {
    let mut detector = Adwin::new(d(0.1));
    let mut window: Vec<f64> = Vec::new();
    for i in 0..60 {
        let x = if i < 30 { 0.1 * (i % 3) as f64 } else { 2.0 + 0.1 * (i % 3) as f64 };
        window.push(x);
        let n = window.len();
        let mut cut = None;
        if n >= 16 {
            let mut sums = vec![0.0; n + 1];
            for k in 0..n {
                sums[k + 1] = sums[k] + window[k];
            }
            for k in 8..(n - 8) {
                let (a, b) = (k as f64, (n - k) as f64);
                let contrast: f64 = (sums[k] / a - (sums[n] - sums[k]) / b).abs();
                let m = 1.0 / (1.0 / a + 1.0 / b);
                let level = (0.1 / n as f64).max(1e-16);
                if contrast > (0.5 / m * (4.0 / level).ln()).sqrt() {
                    cut = Some((k, contrast));
                    break;
                }
            }
        }
        let decision = detector.update(d(x), &ln).value;
        if let Some((k, contrast)) = cut {
            window.drain(0..k);
            assert_eq!(decision, DriftDecision::Drift { statistic: d(contrast) });
        } else {
            assert_eq!(decision, DriftDecision::Stable);
        }
        assert_eq!(plain(&detector.window), window);
    }
    assert!(detector.n_cuts() > 0);
}

#[test]
fn two_windows_are_compared() {
    let mut detector = Kswin::new(70);
    let size = detector.stat_size;
    for i in 0..70 {
        let x = if i < 70 - size { i as f64 / 100.0 } else { 5.0 + i as f64 / 100.0 };
        let decision = detector.update(d(x), &ln).value;
        if let DriftDecision::Drift { statistic } = decision {
            assert!(f(statistic) > 0.0 && f(statistic) <= 1.0);
            assert_eq!(detector.window.len(), size);
            return;
        }
    }
    unreachable!();
}

#[test]
fn stump_growth_is_exact() {
    let x = [[1.0, 5.0], [4.0, 5.5], [2.0, 5.2], [9.0, 5.1]];
    let y = [0.0, 1.0, 0.0, 1.0];
    let mut model = AmfClassifier::new(1);
    let _ = model.partial_fit(
        &rows(&x.iter().map(|r| r.to_vec()).collect::<Vec<_>>()),
        Some(&vector(&y)),
        &vector(&[0.25]),
    );
    // two rows span three units of the first column
    let tree = &model.trees[0];
    assert_eq!(tree.split, Some((0, d(1.0 + 0.25 * 3.0))));
    assert_eq!(tree.leaf, vec![(0, d(1.0)), (1, d(1.0))]);
    assert_eq!(tree.left, vec![(0, d(1.0)), (1, d(1.0))]);
    assert_eq!(tree.right, vec![(0, d(1.0)), (1, d(1.0))]);
    assert_eq!(plain(&tree.lo), vec![1.0, 5.0]);
    assert_eq!(plain(&tree.hi), vec![9.0, 5.5]);
}

#[test]
fn lags_enter_the_regression() {
    let y = [1.0, 3.0, 2.0, 5.0];
    let mut model = Snarimax::new(1, 0);
    let _ = model.partial_fit(&Matrix::zeros(4, 1), Some(&vector(&y)));
    // z = (1, previous value, 0), P starts at 1000 I
    let mut theta = [0.0; 3];
    let mut p = [[0.0; 3]; 3];
    for (k, row) in p.iter_mut().enumerate() {
        row[k] = 1000.0;
    }
    let mut last = 0.0;
    for t in y {
        let z = [1.0, last, 0.0];
        let mut pz = [0.0; 3];
        for i in 0..3 {
            for j in 0..3 {
                pz[i] += p[i][j] * z[j];
            }
        }
        let mut den = 1.0;
        let mut dot = 0.0;
        let mut guess = 0.0;
        for i in 0..3 {
            dot += z[i] * pz[i];
            guess += theta[i] * z[i];
        }
        den += dot;
        for i in 0..3 {
            theta[i] += pz[i] / den * (t - guess);
        }
        for i in 0..3 {
            for j in 0..3 {
                p[i][j] -= pz[i] * pz[j] / den;
            }
        }
        last = t;
    }
    for i in 0..3 {
        assert!((f(model.inner.theta[i]) - theta[i]).abs() < 1e-9);
    }
    assert_eq!(plain(&model.y_hist), y.to_vec());
}

#[test]
fn the_first_rule_is_a_regression() {
    let x: Vec<Vec<f64>> = scatter(12, 17).iter().map(|v| vec![*v]).collect();
    let y: Vec<f64> = x.iter().map(|r| 2.0 * r[0] + 1.0).collect();
    let mut model = AdaptiveModelRules::new(d(1.0));
    let _ = model.partial_fit(&rows(&x), Some(&vector(&y)), &ln);
    let mut theta = [0.0; 2];
    let mut p = [[1000.0, 0.0], [0.0, 1000.0]];
    for (row, t) in x.iter().zip(&y) {
        let z = [1.0, row[0]];
        let mut px = [0.0; 2];
        for i in 0..2 {
            let mut s = 0.0;
            for j in 0..2 {
                s += p[i][j] * z[j];
            }
            px[i] = s;
        }
        let mut dot = 0.0;
        let mut guess = 0.0;
        for i in 0..2 {
            dot += z[i] * px[i];
            guess += theta[i] * z[i];
        }
        let den = 1.0 + dot;
        let err = t - guess;
        for i in 0..2 {
            theta[i] += px[i] * err / den;
        }
        for i in 0..2 {
            for j in 0..2 {
                p[i][j] = (p[i][j] - px[i] * px[j] / den) / 1.0;
            }
        }
    }
    assert_eq!(plain(&model.default.theta), theta.to_vec());
    assert!(model.split.is_none());
}

#[test]
fn smoothed_counts_decide_between_classes() {
    let x = rows(&[vec![3.0, 0.0, 1.0], vec![1.0, 4.0, 0.0], vec![2.0, 2.0, 2.0]]);
    let y = vector(&[0.0, 1.0, 0.0]);
    let mut counts = OnlineMultinomialNb::new();
    let _ = counts.partial_fit(&x, Some(&y));
    let mut ones = OnlineBernoulliNb::new();
    let _ = ones.partial_fit(&x, Some(&y));
    let probe = [2.0, 3.0, 0.0];
    let total = [[5.0, 2.0, 3.0], [1.0, 4.0, 0.0]];
    let share = [2.0_f64 / 3.0, 1.0 / 3.0];
    let mut best = (0, f64::NEG_INFINITY);
    for c in 0..2 {
        let sum: f64 = total[c].iter().sum();
        let mut score = share[c].ln();
        for j in 0..3 {
            score += probe[j] * ((total[c][j] + 1.0) / (sum + 3.0)).ln();
        }
        if score > best.1 {
            best = (c, score);
        }
    }
    let guess = plain(&counts.predict(&rows(&[probe.to_vec()]), &ln).value);
    assert_eq!(guess, vec![best.0 as f64]);
    let guess = plain(&ones.predict(&rows(&[vec![1.0, 1.0, 0.0]]), &ln).value);
    assert_eq!(guess, vec![1.0]);
}

#[test]
fn tied_values_are_passed_together() {
    let ks = |a: &[f64], b: &[f64]| f(Kswin::ks(&vector(a), &vector(b)));
    assert_eq!(ks(&[1.0, 1.0], &[1.0]), 0.0);
    assert_eq!(ks(&[1.0], &[1.0, 1.0, 2.0]), 1.0 - 2.0 / 3.0);
    assert_eq!(ks(&[0.0, 1.0], &[5.0, 6.0]), 1.0);
    assert_eq!(ks(&[1.0, 2.0, 3.0, 4.0], &[2.5, 2.5]), 0.5);
    let mut detector = Kswin::new(100);
    for _ in 0..100 {
        assert_eq!(detector.update(d(2.0), &ln).value, DriftDecision::Stable);
    }
}

#[test]
fn summaries_of_another_width_are_refused() {
    let mut model = CluStream::new(3);
    let _ = model.partial_fit(&rows(&[vec![1.0, 2.0], vec![90.0, 3.0]]), None);
    let before = model.clone();
    let r = model.partial_fit(&rows(&[vec![1.0]]), None);
    assert!(r
        .issues
        .iter()
        .any(|i| i.code == kanimiso::quality::IssueCode::FeatureSpaceChangedOnline));
    assert_eq!(model.n_seen, before.n_seen);
    assert_eq!(model.n_micro(), before.n_micro());
}

#[test]
fn isolation_prefers_rare_rows() {
    let mut values: Vec<Vec<f64>> = (0..63).map(|i| vec![(i % 7) as f64]).collect();
    values.push(vec![100.0]);
    let picks: Vec<Vec<(usize, Double)>> = (0..4)
        .map(|t| vec![(0, d(0.5)), (0, d((t as f64 + 1.0) / 8.0))])
        .collect();
    let mut model = OnlineIsolationForest::new(4, 2);
    let _ = model.partial_fit(&rows(&values), None, &picks);
    let scores = plain(&model.predict(&rows(&[vec![3.0], vec![100.0]]), &ln, &pow).value);
    assert!(scores[1] > scores[0]);
    assert!(scores.iter().all(|s| *s >= 0.0 && *s <= 1.0));
}

#[test]
fn windows_and_limits_may_change_between_batches() {
    let mut detector = Kswin::new(usize::MAX);
    for i in 0..50 {
        assert_eq!(detector.update(d((i % 3) as f64), &ln).value, DriftDecision::Stable);
    }
    assert_eq!(detector.window.len(), 50);
    detector.window_size = 8;
    assert_eq!(detector.update(d(9.0), &ln).value, DriftDecision::Stable);
    assert_eq!(plain(&detector.window), vec![1.0, 2.0, 0.0, 1.0, 2.0, 0.0, 1.0, 9.0]);

    let mut model = CluStream::new(usize::MAX);
    let _ = model.partial_fit(&rows(&[vec![0.0], vec![50.0], vec![90.0]]), None);
    assert_eq!(model.n_micro(), 3);
    model.q = 2;
    let _ = model.partial_fit(&rows(&[vec![0.5]]), None);
    assert_eq!(model.n_micro(), 3);
    let _ = model.partial_fit(&rows(&[vec![200.0]]), None);
    assert_eq!(model.n_micro(), 2);
    assert_eq!(model.micros.iter().map(|m| f(m.n)).sum::<f64>(), 5.0);
}

#[test]
fn bounds_of_the_first_batch_stay() {
    let picks: Vec<Vec<(usize, Double)>> = vec![vec![(0, d(0.5)), (1, d(0.25))]];
    let mut model = OnlineIsolationForest::new(1, 2);
    assert_eq!(f(model.score_row(&rows(&[vec![1.0, 2.0]]), 0, &ln, &pow)), 0.5);
    let _ = model.partial_fit(&rows(&[vec![1.0, 4.0], vec![3.0, -2.0]]), None, &picks);
    assert_eq!(plain(&model.mins), vec![1.0, -2.0]);
    assert_eq!(plain(&model.maxs), vec![3.0, 4.0]);
    let _ = model.partial_fit(&rows(&[vec![-9.0, 9.0]]), None, &picks);
    assert_eq!(plain(&model.mins), vec![1.0, -2.0]);
    assert_eq!(plain(&model.maxs), vec![3.0, 4.0]);
}
