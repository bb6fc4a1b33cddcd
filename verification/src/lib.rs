//! Agglomerative (hierarchical) clustering over integer feature matrices, and the
//! row-subsampling step of a gradient-boosted regressor.

pub mod error;
pub mod cluster;
pub mod linalg;
pub mod xgboost;
