use kanimiso::data::Matrix;
use kanimiso::double::Double;
use kanimiso::quality::{IncrementalQuality, IssueCode, Policy, Update};
use kanimiso::streaming::adaptive::{
    ExtremelyFastDecisionTree, HoeffdingAdaptiveTree, HoeffdingAdaptiveTreeRegressor,
};
use kanimiso::streaming::bagging::{
    AdwinBagging, HardSamplingClassifier, OnlineAdaBoost, OnlineBagging, OnlineBaggingRegressor,
};
use kanimiso::streaming::bayes::{
    OnlineBernoulliNb, OnlineGaussianNb, OnlineMultinomialNb, OnlineSelectKBest,
};
use kanimiso::streaming::clusters::{CluStream, DbStream, DenStream, StreamKMeans};
use kanimiso::streaming::committee::{SuccessiveHalvingClassifier, SuccessiveHalvingRegressor};
use kanimiso::streaming::counts::{OnlineEntropy, RandomOverSampler, RandomUnderSampler};
use kanimiso::streaming::drift::{Adwin, DriftDecision, Eddm, Hddm, HddmW, Kswin};
use kanimiso::streaming::encoders::{OnlineOneHotEncoder, OnlineOrdinalEncoder};
use kanimiso::streaming::encoding::{OnlineVarianceThreshold, TargetMeanEncoder};
use kanimiso::streaming::features::{
    HashingTrick, OnlineBinarizer, OnlineTfidf, Periodic, PolynomialExtender,
};
use kanimiso::streaming::forest::{AdaptiveRandomForest, AdaptiveRandomForestRegressor};
use kanimiso::streaming::isolation::{HalfSpaceTrees, OnlineIsolationForest};
use kanimiso::streaming::linear::{Alma, LogisticRegression, PassiveAggressive, Perceptron};
use kanimiso::streaming::metrics::{
    OnlineAccuracy, OnlineCohenKappa, OnlineF1, OnlineHamming, OnlineJaccard, OnlineLogLoss,
    OnlineMae, OnlineMse, OnlinePrecision, OnlineR2, OnlineRecall, OnlineRmse, OnlineRocAuc,
};
use kanimiso::streaming::mondrian::AmfClassifier;
use kanimiso::streaming::neighbors::{KnnClassifier, KnnRegressor};
use kanimiso::streaming::patches::{LeveragingBagging, StreamingRandomPatches};
use kanimiso::streaming::ratings::{Baseline, BiasedMf, EwaRegressor, FunkMf};
use kanimiso::streaming::rls::LinearRegression;
use kanimiso::streaming::rules::AdaptiveModelRules;
use kanimiso::streaming::scalers::{
    AdaptiveStandardScaler, GaussianScorer, OnlineMaxAbsScaler, OnlineMinMaxScaler,
    OnlineRobustScaler, OnlineStandardScaler, PreviousImputer, StatImputer,
};
use kanimiso::streaming::seasonal::{HoltWintersOnline, Snarimax};
use kanimiso::streaming::softmax::SoftmaxRegression;
use kanimiso::streaming::statistics::{
    EwMean, EwVar, OnlineAutoCorr, OnlineCount, OnlineCovariance, OnlineGaussian, OnlineKurtosis,
    OnlineMean, OnlinePearson, OnlineSkew, OnlineVar,
};
use kanimiso::streaming::trees::{HoeffdingRegressor, HoeffdingTree};
use kanimiso::streaming::windows::{
    OnlineIqr, OnlineMad, QuantileFilter, RollingMax, RollingMean, RollingMin, RollingQuantile,
};

fn d(x: f64) -> Double {
    Double::from_bits(x.to_bits())
}

fn f(x: Double) -> f64 {
    f64::from_bits(x.to_bits())
}

fn ln(x: Double) -> Double {
    d(f(x).ln())
}

fn exp(x: Double) -> Double {
    d(f(x).exp())
}

fn pow(a: Double, b: Double) -> Double {
    d(f(a).powf(f(b)))
}

/// The normal distribution function, by integrating the density from zero.
fn cdf(x: Double) -> Double {
    let z = f(x).clamp(-8.0, 8.0);
    let steps = 400;
    let h = z / steps as f64;
    let density = |t: f64| (-0.5 * t * t).exp() / std::f64::consts::TAU.sqrt();
    let sum: f64 = (0..steps)
        .map(|i| density((i as f64 + 0.5) * h) * h)
        .sum();
    d(0.5 + sum)
}

fn matrix(nrows: usize, ncols: usize, cell: &dyn Fn(usize, usize) -> f64) -> Matrix {
    let rows = (0..nrows)
        .map(|i| (0..ncols).map(|j| d(cell(i, j))).collect())
        .collect();
    Matrix::from_rows(rows, ncols)
}

fn policy() -> Policy {
    Policy {
        uninformative_info_eps: d(1e-12),
        min_effective_sample: d(2.0),
        near_zero_variance: d(1e-12),
    }
}

#[test]
fn online_rls_recovers_slope() {
    let n = 80;
    let x = matrix(n, 1, &|i, _| (i as f64) + 1.0);
    let y: Vec<Double> = (0..n).map(|i| d(2.0 * ((i as f64) + 1.0))).collect();
    let mut m = LinearRegression::default();
    m.forgetting_factor = d(1.0);
    m.fit_intercept = false;
    m.p0 = d(100.0);
    let r = m.partial_fit(&x, Some(&y), &pow, &policy());
    assert!(!r.top_moved.is_empty());
    assert_eq!(r.update.quality.n_seen, 80);
    let slope = f(m.coef()[0]);
    assert!((slope - 2.0).abs() < 0.05, "slope={slope}");
}

#[test]
fn adwin_fires_on_mean_shift() {
    let mut a = Adwin::new(d(0.002));
    for _ in 0..80 {
        let q = a.update(d(0.0), &ln);
        assert!(matches!(q.value, DriftDecision::Stable));
    }
    let mut fired = false;
    for _ in 0..80 {
        let q = a.update(d(10.0), &ln);
        if matches!(q.value, DriftDecision::Drift { .. }) {
            assert!(q
                .report
                .iter()
                .any(|i| i.code == IssueCode::ConceptDriftDetected));
            fired = true;
        }
    }
    assert!(fired, "a shift of the mean from 0 to 10 should be detected");
}

#[test]
fn rls_predicts_after_fit() {
    let x = matrix(20, 1, &|i, _| i as f64);
    let y: Vec<Double> = (0..20).map(|i| d(2.0 * i as f64)).collect();
    let mut m = LinearRegression::default();
    m.fit_intercept = false;
    let _ = m.partial_fit(&x, Some(&y), &pow, &policy());
    let pred = m.predict(&x).value;
    assert!((f(pred[10]) - 20.0).abs() < 1.0, "{}", f(pred[10]));
}

fn refused(update: &Update) -> bool {
    update.issues.iter().any(|i| {
        matches!(
            i.code,
            IssueCode::MissingTarget
                | IssueCode::DimensionMismatch
                | IssueCode::PartialFitBeforeInit
                | IssueCode::FeatureSpaceChangedOnline
                | IssueCode::EmptyMatrix
                | IssueCode::NonFiniteInput
                | IssueCode::NonFiniteOutput
        )
    })
}

fn log(events: &mut Vec<IncrementalQuality>, name: &str, update: Update) {
    assert!(!refused(&update), "{name} refused the batch");
    assert_eq!(update.quality.batch, 12, "{name}");
    assert_eq!(update.quality.update, 0, "{name}");
    events.push(update.finish(false).value);
}

#[test]
fn every_partial_fit_logs_explanation() {
    let x = matrix(12, 1, &|i, _| i as f64);
    let y: Vec<Double> = (0..12).map(|i| d(2.0 * i as f64)).collect();
    let yb: Vec<Double> = (0..12)
        .map(|i| d(if i % 2 == 0 { 0.0 } else { 1.0 }))
        .collect();
    let draws = matrix(2, 12, &|i, j| ((i * 12 + j) as f64 + 0.5) / 24.0);
    let by_member: Vec<Vec<u64>> = vec![vec![1; 12], vec![2; 12]];
    let by_row: Vec<Vec<u64>> = vec![vec![1, 2]; 12];
    let e: &mut Vec<IncrementalQuality> = &mut Vec::new();

    let r = LinearRegression::new(d(1.0)).partial_fit(&x, Some(&y), &pow, &policy());
    log(e, "rls", r.update);
    let r = LogisticRegression::new().partial_fit(&x, Some(&yb), &exp, &ln);
    log(e, "logit", r.update);
    let r = Perceptron::new().partial_fit(&x, Some(&yb));
    log(e, "perc", r.update);
    let r = PassiveAggressive::new(d(1.0)).partial_fit(&x, Some(&yb));
    log(e, "pa", r.update);
    let r = HoeffdingTree::new().partial_fit(&x, Some(&yb), &ln, &cdf);
    log(e, "ht", r);
    let r = OnlineStandardScaler::new().partial_fit(&x, None);
    log(e, "scaler", r);
    let r = StreamKMeans::new(2).partial_fit(&x, None);
    log(e, "kmeans", r);
    let cuts: Vec<(usize, Double)> = (0..60).map(|k| (0, d((k as f64 + 0.5) / 60.0))).collect();
    let r = HalfSpaceTrees::new(4, 4).partial_fit(&x, None, &cuts);
    log(e, "hst", r);
    let r = OnlineAccuracy::new().partial_fit(&x, Some(&yb));
    log(e, "acc", r);
    let r = OnlineMse::new().partial_fit(&x, Some(&y));
    log(e, "mse", r);
    let r = OnlineR2::new().partial_fit(&x, Some(&y));
    log(e, "r2", r);
    let r = HoltWintersOnline::new(4).partial_fit(&x, Some(&y));
    log(e, "hw", r);
    let r = AdaptiveModelRules::new(d(1.0)).partial_fit(&x, Some(&y), &ln);
    log(e, "amrules", r.update);
    let r = AdaptiveRandomForest::new(2).partial_fit(&x, Some(&yb), &draws, &ln, &cdf);
    log(e, "arf", r);
    let r = AdaptiveRandomForestRegressor::new(2).partial_fit(&x, Some(&y), &draws, &ln);
    log(e, "arfr", r);
    let r = Alma::new().partial_fit(&x, Some(&yb), &pow);
    log(e, "alma", r);
    let r = Kswin::new(32).partial_fit(&x, None, &ln);
    log(e, "kswin", r);
    let r = Hddm::new().partial_fit(&x, None, &ln);
    log(e, "hddm", r);
    let r = Eddm::new().partial_fit(&x, None);
    log(e, "eddm", r);
    let r = HddmW::new().partial_fit(&x, None, &ln, &pow);
    log(e, "hddmw", r);
    let r = LeveragingBagging::new(2).partial_fit(&x, Some(&yb), &by_row, &ln, &cdf);
    log(e, "lb", r);
    let r = Snarimax::new(1, 0).partial_fit(&x, Some(&y));
    log(e, "snarimax", r);
    let r = DenStream::new(d(3.0)).partial_fit(&x, None);
    log(e, "denstream", r);
    let r = HoeffdingAdaptiveTree::new().partial_fit(&x, Some(&yb), &ln, &cdf);
    log(e, "hat", r);
    let shuffles: Vec<Vec<usize>> = vec![vec![0], vec![0]];
    let r = StreamingRandomPatches::new(2).partial_fit(&x, Some(&yb), &shuffles, &ln, &cdf);
    log(e, "srp", r);
    let xui = matrix(12, 2, &|i, j| {
        if j == 0 {
            (i % 4) as f64
        } else {
            (i % 3) as f64
        }
    });
    let r = FunkMf::new(2).partial_fit(&xui, Some(&y));
    log(e, "funk", r);
    let r = CluStream::new(4).partial_fit(&x, None);
    log(e, "clustream", r);
    let r = ExtremelyFastDecisionTree::new().partial_fit(&x, Some(&yb), &ln, &cdf);
    log(e, "efdt", r);
    let r = BiasedMf::new().partial_fit(&xui, Some(&y));
    log(e, "biasedmf", r);
    let r = KnnClassifier::new(3).partial_fit(&x, Some(&yb));
    log(e, "knn", r);
    let r = OnlineMinMaxScaler::new().partial_fit(&x, None);
    log(e, "minmax", r);
    let r = OnlineMaxAbsScaler::new().partial_fit(&x, None);
    log(e, "maxabs", r);
    let r = Baseline::new().partial_fit(&xui, Some(&y));
    log(e, "base", r);
    let r = KnnRegressor::new(3).partial_fit(&x, Some(&y));
    log(e, "knnr", r);
    let r = OnlineRobustScaler::new().partial_fit(&x, None);
    log(e, "robust", r);
    let r = SoftmaxRegression::new().partial_fit(&x, Some(&yb), &exp);
    log(e, "smx", r);
    let r = OnlineGaussianNb::new().partial_fit(&x, Some(&yb));
    log(e, "ognb", r);
    let r = HoeffdingRegressor::new().partial_fit(&x, Some(&y), &ln, &cdf);
    log(e, "htr", r);
    let r = OnlineOneHotEncoder::new(4).partial_fit(&x, None);
    log(e, "ohe", r);
    let r = HoeffdingAdaptiveTreeRegressor::new().partial_fit(&x, Some(&y), &ln, &cdf);
    log(e, "hatr", r);
    let r = OnlineOrdinalEncoder::new(8).partial_fit(&x, None);
    log(e, "ord", r);
    let r = OnlineTfidf::new().partial_fit(&x, None);
    log(e, "tfidf", r);
    let r = StatImputer::new().partial_fit(&x, None);
    log(e, "statimp", r);
    let r = OnlineSelectKBest::new(1).partial_fit(&x, Some(&yb));
    log(e, "osk", r);
    let r = OnlineMae::new().partial_fit(&x, Some(&y));
    log(e, "mae", r);
    let r = OnlineLogLoss::new().partial_fit(&x, Some(&yb), &ln);
    log(e, "ll", r);
    let r = OnlineRocAuc::new().partial_fit(&x, Some(&yb));
    log(e, "auc", r);
    let r = OnlineMultinomialNb::new().partial_fit(&x, Some(&yb));
    log(e, "mnb", r);
    let r = PreviousImputer::new().partial_fit(&x, None);
    log(e, "prev", r);
    let r = AdaptiveStandardScaler::new(d(0.5)).partial_fit(&x, None);
    log(e, "adp", r);
    let r = GaussianScorer::new().partial_fit(&x, None);
    log(e, "gsc", r);
    let r = OnlineF1::new().partial_fit(&x, Some(&yb));
    log(e, "f1", r);
    let r = OnlinePrecision::new().partial_fit(&x, Some(&yb));
    log(e, "prec", r);
    let r = OnlineRecall::new().partial_fit(&x, Some(&yb));
    log(e, "rec", r);
    let r = OnlineBernoulliNb::new().partial_fit(&x, Some(&yb));
    log(e, "bnb", r);
    let r = EwaRegressor::new(d(0.4)).partial_fit(&x, Some(&y), &exp);
    log(e, "ewa", r);
    let r = QuantileFilter::new(d(0.9)).partial_fit(&x, None);
    log(e, "qf", r);
    let r = OnlineRmse::new().partial_fit(&x, Some(&y));
    log(e, "rmse", r);
    let r = OnlineCohenKappa::new().partial_fit(&x, Some(&yb));
    log(e, "kappa", r);
    let r = EwMean::new(d(0.6)).partial_fit(&x, None);
    log(e, "ewm", r);
    let r = PolynomialExtender::new(2).partial_fit(&x, None);
    log(e, "poly", r);
    let r = TargetMeanEncoder::new().partial_fit(&x, Some(&yb));
    log(e, "tme", r);
    let r = OnlineBagging::new(2).partial_fit(&x, Some(&yb), &by_member);
    log(e, "obag", r);
    let r = RollingQuantile::new(d(0.5)).partial_fit(&x, None);
    log(e, "rq", r);
    let r = OnlineHamming::new().partial_fit(&x, Some(&yb));
    log(e, "oham", r);
    let r = OnlineJaccard::new().partial_fit(&x, Some(&yb));
    log(e, "ojac", r);
    let r = EwVar::new(d(0.6)).partial_fit(&x, None);
    log(e, "ewv", r);
    let r = SuccessiveHalvingClassifier::new(4).partial_fit(&x, Some(&yb));
    log(e, "sh", r);
    let r = SuccessiveHalvingRegressor::new(4).partial_fit(&x, Some(&y));
    log(e, "shr", r);
    let thirds = vec![d(0.25), d(0.5), d(0.75)];
    let r = AmfClassifier::new(3).partial_fit(&x, Some(&yb), &thirds);
    log(e, "amf", r);
    let r = DbStream::new(d(2.0)).partial_fit(&x, None);
    log(e, "dbstream", r);
    let r = OnlineBaggingRegressor::new(2).partial_fit(&x, Some(&y), &by_member);
    log(e, "obagr", r);
    let r = OnlineBinarizer::new(d(0.0)).partial_fit(&x, None);
    log(e, "obin", r);
    let picks: Vec<Vec<(usize, Double)>> = vec![vec![(0, d(0.25)), (0, d(0.5)), (0, d(0.75))]; 3];
    let r = OnlineIsolationForest::new(3, 3).partial_fit(&x, None, &picks);
    log(e, "oif", r);
    let r = RollingMin::new().partial_fit(&x, None);
    log(e, "rmin", r);
    let r = RollingMax::new().partial_fit(&x, None);
    log(e, "rmax", r);
    let r = OnlineSkew::new().partial_fit(&x, None, &pow);
    log(e, "skew", r);
    let r = OnlineKurtosis::new().partial_fit(&x, None);
    log(e, "kurt", r);
    let r = OnlineEntropy::new().partial_fit(&x, None, &ln);
    log(e, "ent", r);
    let r = Periodic::new(d(12.0)).partial_fit(&x, None);
    log(e, "per", r);
    let r = OnlineCovariance::new().partial_fit(&x, Some(&y));
    log(e, "ocov", r);
    let r = HashingTrick::new(4).partial_fit(&x, None);
    log(e, "hash", r);
    let r = OnlineMad::new().partial_fit(&x, None);
    log(e, "mad", r);
    let r = OnlineIqr::new().partial_fit(&x, None);
    log(e, "iqr", r);
    let r = OnlinePearson::new().partial_fit(&x, Some(&y));
    log(e, "pearson", r);
    let r = RollingMean::new().partial_fit(&x, None);
    log(e, "rmean", r);
    let r = AdwinBagging::new(2).partial_fit(&x, Some(&yb), &by_member, &ln);
    log(e, "abag", r);
    let r = OnlineAdaBoost::new(2).partial_fit(&x, Some(&yb));
    log(e, "ada", r);
    let r = RandomOverSampler::new().partial_fit(&x, Some(&yb));
    log(e, "ros", r);
    let r = RandomUnderSampler::new().partial_fit(&x, Some(&yb));
    log(e, "rus", r);
    let r = OnlineMean::new().partial_fit(&x, None);
    log(e, "omean", r);
    let r = OnlineVar::new().partial_fit(&x, None);
    log(e, "ovar", r);
    let r = OnlineCount::new().partial_fit(&x, None);
    log(e, "ocnt", r);
    let r = OnlineAutoCorr::new().partial_fit(&x, None);
    log(e, "oac", r);
    let r = OnlineVarianceThreshold::new(d(0.0)).partial_fit(&x, None);
    log(e, "ovt", r);
    let r = OnlineGaussian::new().partial_fit(&x, None);
    log(e, "ogauss", r);
    let r = HardSamplingClassifier::new(8).partial_fit(&x, Some(&yb));
    log(e, "hsc", r);

    assert!(
        e.len() >= 42,
        "expected the figures of every update, got {}",
        e.len()
    );
}
