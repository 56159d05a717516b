//! Streaming estimators that report trouble and carry on.

pub mod columns;
pub mod scalers;
pub mod encoders;
pub mod metrics;
pub mod metric_laws;
pub mod counts;
pub mod features;
pub mod table;
pub mod clusters;
pub mod centre_laws;
pub mod linear;
pub mod ranking;
pub mod learner;
pub mod rls;
pub mod rls_solution;
pub mod committee;
pub mod hoeffding;
pub mod trees;
pub mod tree_history;
pub mod drift;
pub mod forest;
pub mod classes;
pub mod bayes;
pub mod softmax;
pub mod votes;
pub mod mondrian;
pub mod rules;
pub mod adaptive;
pub mod bagging;
pub mod patches;
pub mod split_laws;
pub mod isolation;
pub mod seasonal;
pub mod neighbors;
pub mod ratings;
pub mod statistics;
pub mod plain_accuracy;
pub mod stream_laws;
pub mod windows;
pub mod encoding;
