# kanimiso

Online estimators and streaming statistics whose behaviour is stated in contracts and
proved with Verus.

Every estimator learns from batches with `partial_fit` and answers with an update: the
quality figures of the batch (effective sample size, parameter change, losses,
information, whether the parameters are determined) and the issues that were found, in
order. A batch that cannot be used is refused, and the contract says when and with which
issues. A refused batch teaches the estimator nothing; the one thing that it may change is
a setting out of range, which is replaced and reported.

## Layout

- `src/double.rs`, `src/rounding.rs`, `src/exact.rs`, `src/scaling.rs`, `src/errors.rs`:
  binary64 numbers on integers. Each operation is specified as the exact result rounded to
  nearest, ties to even; the last two files say when scaling is exact and how far results
  lie from exact ones.
- `src/data.rs`, `src/quality.rs`, `src/functions.rs`: matrices, reports, and the real
  functions that callers hand in.
- `src/online/`: the transactional estimators: moments, exponentially weighted moments,
  lag-1 correlation, variance threshold and recursive least squares. `least_squares.rs`
  states in real numbers what the recursion solves.
- `src/streaming/`: classifiers, regressors, trees and forests, clusterings, drift
  detectors, scalers, encoders, metrics and window statistics.
- `app/`: conversions from and to `f64` and `faer` matrices, floating-point functions,
  and the random draws of the randomised estimators.
- `tests/`: tests on concrete values; most compare bit for bit with plain `f64` code.

## Reading the contracts

A spec function next to each estimator says what a batch does to its state, row by row,
and what the update reports. Functions named `law_*` are properties that relate several
calls: partition invariance, what a refused batch leaves alone, bounds on windows and
buffers, soundness of trees and rankings.

Logarithms, exponentials and powers are parameters: a contract holds for any function on
numbers that is passed in. Random draws are parameters too.
