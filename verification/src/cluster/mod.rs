//! Agglomerative clustering: each sample starts in a cluster of its own and clusters are
//! merged until the requested number remains.

pub mod agglomerative;
pub mod hierarchal;
pub mod hierarchal_clustering;
pub mod partition;
pub mod ward;
