//! Building blocks of gradient boosting that stand on integers.

pub mod xgb_regression;
