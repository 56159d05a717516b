use kanimiso::data::Matrix;
use kanimiso::double::Double;
use kanimiso::quality::{Issue, IssueCode};
use kanimiso::streaming::adaptive::{ExtremelyFastDecisionTree, HoeffdingAdaptiveTree};
use kanimiso::streaming::bagging::{
    AdwinBagging, HardSamplingClassifier, OnlineAdaBoost, OnlineBagging, OnlineBaggingRegressor,
};
use kanimiso::streaming::clusters::{CluStream, DbStream, DenStream, StreamKMeans};
use kanimiso::streaming::committee::{SuccessiveHalvingClassifier, SuccessiveHalvingRegressor};
use kanimiso::streaming::drift::{
    Adwin, Ddm, DriftDecision, Eddm, Hddm, HddmW, Kswin, PageHinkley,
};
use kanimiso::streaming::forest::{AdaptiveRandomForest, AdaptiveRandomForestRegressor};
use kanimiso::streaming::isolation::{HalfSpaceTrees, OnlineIsolationForest};
use kanimiso::streaming::mondrian::AmfClassifier;
use kanimiso::streaming::patches::{LeveragingBagging, StreamingRandomPatches};
use kanimiso::streaming::ranking::{rank, sorted};
use kanimiso::streaming::trees::{HoeffdingRegressor, HoeffdingTree};
use kanimiso::streaming::votes::{elect, vote};

fn d(x: f64) -> Double {
    Double::from_bits(x.to_bits())
}

fn f(x: Double) -> f64 {
    f64::from_bits(x.to_bits())
}

fn ln(x: Double) -> Double {
    d(f(x).ln())
}

fn pow(a: Double, b: Double) -> Double {
    d(f(a).powf(f(b)))
}

/// A logistic stand-in for the normal distribution function.
fn cdf(x: Double) -> Double {
    d(1.0 / (1.0 + (-1.702 * f(x)).exp()))
}

fn column(values: &[f64]) -> Matrix {
    Matrix::from_rows(values.iter().map(|v| vec![d(*v)]).collect(), 1)
}

fn vector(values: &[f64]) -> Vec<Double> {
    values.iter().map(|v| d(*v)).collect()
}

fn plain(values: &[Double]) -> Vec<f64> {
    values.iter().map(|v| f(*v)).collect()
}

fn raised(issues: &[Issue], code: IssueCode) -> bool {
    issues.iter().any(|i| i.code == code)
}

/// Two well separated groups with their labels.
fn groups(n: usize) -> (Matrix, Vec<Double>) {
    let values: Vec<f64> = (0..n)
        .map(|i| if i % 2 == 0 { 0.0 } else { 100.0 } + (i % 7) as f64)
        .collect();
    let labels: Vec<f64> = (0..n).map(|i| (i % 2) as f64).collect();
    (column(&values), vector(&labels))
}

#[test]
fn centres_follow_their_rows() {
    let mut model = StreamKMeans::new(2);
    assert!(raised(
        &model.predict(&column(&[1.0])).report,
        IssueCode::PartialFitBeforeInit
    ));
    let r = model.partial_fit(&column(&[0.0, 10.0, 1.0, 12.0]), None);
    assert!(!raised(&r.issues, IssueCode::EmptyCluster));
    assert_eq!(f(model.centers().get(0, 0)), 0.5);
    assert_eq!(f(model.centers().get(1, 0)), 11.0);
    let guess = model.predict(&column(&[2.0, 9.0])).value;
    assert_eq!(plain(&guess), vec![0.0, 1.0]);
    let r = model.partial_fit(&column(&[0.25]), None);
    assert!(raised(&r.issues, IssueCode::EmptyCluster));
    assert!(raised(&r.issues, IssueCode::DegenerateClusters));
}

#[test]
fn there_are_as_many_centres_as_asked_for() {
    let mut model = StreamKMeans::new(3);
    let r = model.partial_fit(&column(&[0.0, 10.0]), None);
    let centers = model.centers();
    assert_eq!((centers.nrows(), centers.ncols()), (3, 1));
    assert_eq!(plain(&model.counts), vec![1.0, 1.0, 0.0]);
    assert!(raised(&r.issues, IssueCode::EmptyCluster));
    assert!(!raised(&r.issues, IssueCode::DegenerateClusters));
    let _ = model.partial_fit(&column(&[4.0, -7.0]), None);
    let heights: Vec<f64> = (0..3).map(|i| f(model.centers().get(i, 0))).collect();
    assert_eq!(heights, vec![2.0, 10.0, -7.0]);
    assert_eq!(plain(&model.counts), vec![2.0, 1.0, 1.0]);
    let mut many = StreamKMeans::new(5);
    let _ = many.partial_fit(&column(&[1.0, 2.0]), None);
    let heights: Vec<f64> = (0..5).map(|i| f(many.centers().get(i, 0))).collect();
    assert_eq!(heights, vec![1.0, 2.0, 1.0, 2.0, 1.0]);
}

#[test]
fn micro_clusters_fade_and_merge() {
    let mut model = DenStream::new(d(3.0));
    let _ = model.partial_fit(&column(&[0.0, 1.0, 10.0]), None);
    assert_eq!(model.n_micro(), 2);
    let (w, lambda) = (1.0, 0.99);
    let faded = w * lambda;
    assert_eq!(f(model.micros[0].center[0]), (faded * 0.0 + 1.0) / (faded + 1.0));
    assert_eq!(f(model.micros[0].weight), (faded + 1.0) * lambda);
    assert_eq!(f(model.micros[1].weight), 1.0);
    let r = DenStream::new(d(-1.0)).partial_fit(&column(&[0.0]), None);
    assert!(raised(&r.issues, IssueCode::InvalidWeight));
}

#[test]
fn overlapping_micro_clusters_share_a_label() {
    let mut model = DbStream::new(d(1.0));
    let _ = model.partial_fit(&column(&[0.0, 1.5, 40.0]), None);
    assert_eq!(model.n_micro(), 3);
    let labels = plain(&model.predict(&column(&[0.0, 1.5, 40.0])).value);
    assert_eq!(labels[0], labels[1]);
    assert_ne!(labels[0], labels[2]);
}

#[test]
fn micro_clusters_stay_within_their_number() {
    let mut model = CluStream::new(3);
    let values: Vec<f64> = (0..30).map(|i| 50.0 * i as f64).collect();
    let _ = model.partial_fit(&column(&values), None);
    assert!(model.n_micro() <= 3);
    let total: f64 = model.micros.iter().map(|m| f(m.n)).sum();
    assert_eq!(total, 30.0);
}

#[test]
fn a_ranking_is_stable() {
    let keys = vector(&[3.0, 1.0, 2.0, 1.0]);
    assert_eq!(rank(&keys, false), vec![1, 3, 2, 0]);
    assert_eq!(rank(&keys, true), vec![0, 2, 1, 3]);
    assert_eq!(plain(&sorted(&keys)), vec![1.0, 1.0, 2.0, 3.0]);
}

#[test]
fn the_heaviest_label_is_elected() {
    let mut votes: Vec<(i64, Double)> = Vec::new();
    vote(&mut votes, 4, d(1.0));
    vote(&mut votes, 9, d(1.5));
    vote(&mut votes, 4, d(1.0));
    assert_eq!(votes.len(), 2);
    assert_eq!(f(elect(&votes)), 4.0);
    // as many votes: the smaller label
    let mut tied: Vec<(i64, Double)> = Vec::new();
    vote(&mut tied, 7, d(1.0));
    vote(&mut tied, 2, d(1.0));
    assert_eq!(f(elect(&tied)), 2.0);
    assert_eq!(f(elect(&Vec::new())), 0.0);
}

#[test]
fn a_window_is_cut_at_a_shift() {
    let mut detector = Adwin::new(d(0.002));
    let mut longest = 0;
    for i in 0..200 {
        let _ = detector.update(d(if i < 100 { 0.0 } else { 10.0 }), &ln);
        longest = longest.max(detector.window_len());
    }
    assert!(detector.n_cuts() >= 1);
    assert!(detector.window_len() >= 8);
    assert!(longest > detector.window_len() || detector.window_len() <= 200);
    detector.reset();
    assert_eq!(detector.window_len(), 0);
}

#[test]
fn an_error_rate_detector_restarts() {
    let mut detector = Ddm::new();
    let mut drifted = None;
    for i in 0..200 {
        let e = if i < 60 { (i % 10 == 0) as u8 as f64 } else { 1.0 };
        let q = detector.update(d(e));
        if matches!(q.value, DriftDecision::Drift { .. }) {
            assert!(raised(&q.report, IssueCode::ConceptDriftDetected));
            drifted = Some(i);
            break;
        }
        if i < 29 {
            assert!(matches!(q.value, DriftDecision::Stable));
        }
    }
    assert!(drifted.is_some());
    assert_eq!(detector.n, 0);
    assert_eq!(f(detector.p), 0.0);
    assert_eq!(f(detector.p_min), f64::INFINITY);
}

#[test]
fn a_cumulative_sum_detects_a_rise() {
    let mut detector = PageHinkley::new(d(0.005), d(5.0));
    let q = detector.update(d(f64::NAN));
    assert!(matches!(q.value, DriftDecision::Stable));
    assert_eq!(detector.n, 0);
    let (mut mean, mut cum, mut low, mut high, mut n) = (0.0, 0.0_f64, 0.0_f64, 0.0_f64, 0.0);
    for i in 0..60 {
        let x = if i < 30 { 0.0 } else { 1.0 };
        n += 1.0;
        mean += (x - mean) / n;
        cum += x - mean - 0.005;
        low = low.min(cum);
        high = high.max(cum);
        let stat = (cum - low).max(high - cum);
        let q = detector.update(d(x));
        if stat > 5.0 {
            assert_eq!(q.value, DriftDecision::Drift { statistic: d(stat) });
            assert_eq!(detector.n, 0);
            return;
        }
        assert_eq!(q.value, DriftDecision::Stable);
    }
    unreachable!();
}

#[test]
fn bound_detectors_react_to_a_shift() {
    let shifted: Vec<f64> = (0..400).map(|i| if i < 200 { 0.0 } else { 1.0 }).collect();
    let mut hoeffding = Hddm::new();
    let mut weighted = HddmW::new();
    let (mut a, mut b) = (false, false);
    for v in &shifted {
        a |= matches!(hoeffding.update(d(*v), &ln).value, DriftDecision::Drift { .. });
        b |= matches!(
            weighted.update(d(*v), &ln, &pow).value,
            DriftDecision::Drift { .. }
        );
    }
    assert!(a);
    assert!(b);
    let mut windows = Kswin::new(60);
    let mut c = false;
    for (i, v) in shifted.iter().enumerate() {
        let jitter = ((i * 37) % 100) as f64 / 1000.0;
        c |= matches!(
            windows.update(d(*v + jitter), &ln).value,
            DriftDecision::Drift { .. }
        );
    }
    assert!(c);
}

#[test]
fn error_distances_shrink_before_a_drift() {
    let mut detector = Eddm::new();
    let mut drifted = false;
    for i in 0..4000 {
        let gap = if i < 2000 { 20 } else { 2 };
        let e = if i % gap == 0 { 1.0 } else { 0.0 };
        if matches!(detector.update(d(e)).value, DriftDecision::Drift { .. }) {
            drifted = true;
            assert_eq!(detector.n_err, 0);
            break;
        }
    }
    assert!(drifted);
}

#[test]
fn a_tree_splits_between_groups() {
    let (x, y) = groups(400);
    let mut tree = HoeffdingTree::new();
    let r = tree.partial_fit(&x, Some(&y), &ln, &cdf);
    assert_eq!(r.quality.n_seen, 400);
    let note = tree.last_split().unwrap();
    assert_eq!(note.feature, 0);
    assert!(f(note.threshold) > 0.0 && f(note.threshold) < 107.0);
    let guess = tree.predict(&column(&[3.0, 103.0])).value;
    assert_eq!(plain(&guess), vec![0.0, 1.0]);
    let r = tree.partial_fit(&x, None, &ln, &cdf);
    assert!(raised(&r.issues, IssueCode::MissingTarget));
    let r = tree.partial_fit(&Matrix::zeros(1, 2), Some(&vector(&[0.0])), &ln, &cdf);
    assert!(raised(&r.issues, IssueCode::FeatureSpaceChangedOnline));
}

#[test]
fn a_regression_tree_predicts_levels() {
    let (x, labels) = groups(400);
    let y: Vec<Double> = labels.iter().map(|v| d(50.0 * f(*v) - 10.0)).collect();
    let mut tree = HoeffdingRegressor::new();
    let _ = tree.partial_fit(&x, Some(&y), &ln, &cdf);
    let guess = plain(&tree.predict(&column(&[3.0, 103.0])).value);
    assert!(guess[0] < guess[1]);
}

#[test]
fn adaptive_trees_start_over_after_a_drift() {
    let (x, y) = groups(300);
    let flipped: Vec<Double> = y.iter().map(|v| d(1.0 - f(*v))).collect();
    let mut tree = HoeffdingAdaptiveTree::new();
    for _ in 0..4 {
        let _ = tree.partial_fit(&x, Some(&y), &ln, &cdf);
    }
    let before = tree.resets;
    let r = tree.partial_fit(&x, Some(&flipped), &ln, &cdf);
    assert!(tree.resets > before);
    assert!(raised(&r.issues, IssueCode::ConceptDriftDetected));
    assert_eq!(tree.detector.n_cuts(), tree.resets);
    let mut fast = ExtremelyFastDecisionTree::new();
    let _ = fast.partial_fit(&x, Some(&y), &ln, &cdf);
    let guess = plain(&fast.predict(&column(&[3.0, 103.0])).value);
    assert_eq!(guess, vec![0.0, 1.0]);
}

#[test]
fn forests_vote_over_their_trees() {
    let (x, y) = groups(200);
    let draws = Matrix::from_rows(
        (0..3)
            .map(|t| (0..200).map(|i| d(((i * 7 + t * 3) % 10) as f64 / 10.0)).collect())
            .collect(),
        200,
    );
    let mut forest = AdaptiveRandomForest::new(3);
    let _ = forest.partial_fit(&x, Some(&y), &draws, &ln, &cdf);
    assert_eq!(forest.trees.len(), 3);
    let guess = plain(&forest.predict(&column(&[3.0, 103.0])).value);
    assert_eq!(guess, vec![0.0, 1.0]);
    let mut lines = AdaptiveRandomForestRegressor::new(3);
    let targets: Vec<Double> = (0..200).map(|i| d(2.0 * f(x.get(i, 0)))).collect();
    let _ = lines.partial_fit(&x, Some(&targets), &draws, &ln);
    let guess = plain(&lines.predict(&column(&[50.0])).value);
    assert!((guess[0] - 100.0).abs() < 1.0);
}

#[test]
fn patches_and_leverage_learn_the_groups() {
    let (x, y) = groups(200);
    let counts: Vec<Vec<u64>> = (0..200).map(|i| vec![1 + (i % 3) as u64, 6]).collect();
    let mut bags = LeveragingBagging::new(2);
    let _ = bags.partial_fit(&x, Some(&y), &counts, &ln, &cdf);
    assert_eq!(plain(&bags.predict(&column(&[3.0, 103.0])).value), vec![0.0, 1.0]);
    let mut patches = StreamingRandomPatches::new(2);
    let shuffles: Vec<Vec<usize>> = vec![vec![0], vec![0]];
    let _ = patches.partial_fit(&x, Some(&y), &shuffles, &ln, &cdf);
    assert_eq!(
        plain(&patches.predict(&column(&[3.0, 103.0])).value),
        vec![0.0, 1.0]
    );
}

#[test]
fn bags_learn_from_repeated_rows() {
    let x = column(&[-2.0, 2.0, -3.0, 3.0]);
    let y = vector(&[0.0, 1.0, 0.0, 1.0]);
    let counts: Vec<Vec<u64>> = vec![vec![1, 2, 0, 1], vec![2, 2, 2, 2]];
    let mut bag = OnlineBagging::new(2);
    for _ in 0..5 {
        let _ = bag.partial_fit(&x, Some(&y), &counts);
    }
    assert_eq!(plain(&bag.predict(&x).value), vec![0.0, 1.0, 0.0, 1.0]);
    assert_eq!(bag.bag.models[0].n_seen, 20);
    assert_eq!(bag.bag.models[1].n_seen, 40);
    let mut lines = OnlineBaggingRegressor::new(2);
    let t = vector(&[-4.0, 4.0, -6.0, 6.0]);
    let _ = lines.partial_fit(&x, Some(&t), &counts);
    assert!((f(lines.predict(&column(&[1.0])).value[0]) - 2.0).abs() < 0.1);
    let mut watched = AdwinBagging::new(2);
    for _ in 0..5 {
        let _ = watched.partial_fit(&x, Some(&y), &counts, &ln);
    }
    assert_eq!(plain(&watched.predict(&x).value), vec![0.0, 1.0, 0.0, 1.0]);
}

#[test]
fn boosted_weights_sum_to_one() {
    let x = column(&[-2.0, 2.0, -3.0, 3.0]);
    let y = vector(&[0.0, 1.0, 0.0, 1.0]);
    let mut boost = OnlineAdaBoost::new(2);
    for _ in 0..4 {
        let _ = boost.partial_fit(&x, Some(&y));
    }
    assert_eq!(plain(&boost.weights), vec![0.5, 0.5]);
    assert_eq!(plain(&boost.predict(&x).value), vec![0.0, 1.0, 0.0, 1.0]);
    let r = boost.partial_fit(&x, None);
    assert!(raised(&r.issues, IssueCode::MissingTarget));
}

#[test]
fn hard_rows_are_kept_within_the_cap() {
    let x = column(&[-2.0, 2.0, -3.0, 3.0, -1.0, 1.0]);
    let y = vector(&[0.0, 1.0, 0.0, 1.0, 1.0, 0.0]);
    let mut model = HardSamplingClassifier::new(2);
    for _ in 0..4 {
        let _ = model.partial_fit(&x, Some(&y));
        assert!(model.buffer_x.len() <= 2);
        assert_eq!(model.buffer_x.len(), model.buffer_y.len());
    }
}

#[test]
fn a_committee_is_halved_but_never_emptied() {
    let x = column(&[-2.0, 2.0, -3.0, 3.0]);
    let y = vector(&[0.0, 1.0, 0.0, 1.0]);
    let mut model = SuccessiveHalvingClassifier::new(4);
    let mut alive = 4;
    for _ in 0..6 {
        let _ = model.partial_fit(&x, Some(&y));
        assert!(model.n_alive() <= alive);
        assert!(model.n_alive() >= 1);
        alive = model.n_alive();
    }
    assert_eq!(alive, 1);
    assert_eq!(plain(&model.predict(&x).value), vec![0.0, 1.0, 0.0, 1.0]);
    let mut lines = SuccessiveHalvingRegressor::new(4);
    let t = vector(&[-4.0, 4.0, -6.0, 6.0]);
    for _ in 0..4 {
        let _ = lines.partial_fit(&x, Some(&t));
    }
    assert!((f(lines.predict(&column(&[1.0])).value[0]) - 2.0).abs() < 0.5);
}

#[test]
fn rounds_close_when_a_power_of_two_is_crossed() {
    let x = column(&[-2.0, 2.0, -3.0]);
    let y = vector(&[0.0, 1.0, 0.0]);
    let mut model = SuccessiveHalvingClassifier::new(8);
    let mut alive = Vec::new();
    for _ in 0..6 {
        let _ = model.partial_fit(&x, Some(&y));
        alive.push(model.n_alive());
    }
    // after 3, 6, 9, 12, 15 and 18 rows
    assert_eq!(alive, vec![4, 2, 1, 1, 1, 1]);
    let mut paused = SuccessiveHalvingClassifier::new(8);
    let _ = paused.partial_fit(&x, Some(&y));
    let _ = paused.partial_fit(&column(&[5.0]), Some(&vector(&[1.0])));
    assert_eq!(paused.n_alive(), 2);
    let _ = paused.partial_fit(&Matrix::zeros(0, 1), Some(&Vec::new()));
    assert_eq!(paused.n_alive(), 2);
}

#[test]
fn regressors_are_halved_at_powers_of_two() {
    let line = |n: usize| {
        let x: Vec<f64> = (0..n).map(|i| i as f64).collect();
        let y: Vec<f64> = x.iter().map(|v| 2.0 * v + 1.0).collect();
        (column(&x), vector(&y))
    };
    let mut model = SuccessiveHalvingRegressor::new(8);
    let mut alive = Vec::new();
    // after 3, 5, 7, 8, 8 and 9 rows
    for n in [3, 2, 2, 1, 0, 1] {
        let (x, y) = line(n);
        let r = model.partial_fit(&x, Some(&y));
        alive.push(model.rounds.board.models.len());
        let cut = alive.len() == 1 || alive[alive.len() - 1] < alive[alive.len() - 2];
        assert_eq!(r.quality.parameter_delta_norm, Some(d(if cut { 1.0 } else { 0.0 })));
    }
    assert_eq!(alive, vec![4, 4, 4, 2, 1, 1]);
}

#[test]
fn rows_are_counted_by_the_micro_clusters() {
    let mut model = CluStream::new(2);
    for batch in [[0.0, 50.0, 100.0], [51.0, 2.0, 700.0]] {
        let _ = model.partial_fit(&column(&batch), None);
    }
    let total: f64 = model.micros.iter().map(|m| f(m.n)).sum();
    assert_eq!(total, 6.0);
    assert_eq!(model.n_micro(), 2);
}

#[test]
fn masses_of_half_spaces_add_up() {
    let cuts: Vec<(usize, Double)> = (0..6).map(|k| (0, d((k as f64 + 0.5) / 6.0))).collect();
    let mut model = HalfSpaceTrees::new(2, 2);
    let _ = model.partial_fit(&column(&[1.0, 2.0, 3.0, 9.0]), None, &cuts);
    let _ = model.partial_fit(&column(&[4.0]), None, &Vec::new());
    for tree in &model.trees {
        assert_eq!(tree.mass, 5);
        let (left, right) = tree.halves.as_ref().unwrap();
        assert_eq!(left.mass + right.mass, 5);
    }
    let scores = plain(&model.predict(&column(&[2.0, 9.0])).value);
    assert_eq!(scores.len(), 2);
}

#[test]
fn outliers_are_isolated_early() {
    let values: Vec<f64> = (0..64).map(|i| (i % 8) as f64).collect();
    let picks: Vec<Vec<(usize, Double)>> = (0..5)
        .map(|t| (0..4).map(|k| (0, d(((t * 4 + k) as f64 + 0.5) / 20.0))).collect())
        .collect();
    let mut model = OnlineIsolationForest::new(5, 4);
    let _ = model.partial_fit(&column(&values), None, &picks);
    let scores = plain(&model.predict(&column(&[3.0, 500.0]), &ln, &pow).value);
    assert!(scores.iter().all(|s| *s >= 0.0 && *s <= 1.0));
}

#[test]
fn stumps_split_at_most_once() {
    let (x, y) = groups(40);
    let draws = vector(&[0.5, 0.25, 0.75]);
    let mut model = AmfClassifier::new(3);
    let _ = model.partial_fit(&x, Some(&y), &draws);
    let splits: Vec<_> = model.trees.iter().map(|t| t.split).collect();
    let _ = model.partial_fit(&x, Some(&y), &draws);
    for (tree, split) in model.trees.iter().zip(splits) {
        if split.is_some() {
            assert_eq!(tree.split, split);
        }
    }
    assert_eq!(plain(&model.predict(&column(&[3.0, 103.0])).value), vec![0.0, 1.0]);
}
