//! Agglomerative clustering with a choice of linkage criteria (single, complete, average,
//! Ward).
//!
//! `fit` refuses more clusters than samples and requires no fewer. With as many clusters as
//! samples, every sample is a cluster of its own, and the clusters are numbered in the order
//! in which the hash map of clusters walks its keys.

use crate::cluster::partition::{
    labels_in_key_order, lemma_cluster_of, lemma_singletons, same_cluster_same_label,
    singleton_clusters, singletons,
};
use crate::error::{Failed, FailedError};
use crate::linalg::DenseMatrix;
use vstd::prelude::*;

verus! {

broadcast use {vstd::std_specs::hash::group_hash_axioms, vstd::map::group_map_axioms};

/// The linkage criterion, i.e. how the distance between two clusters is derived from the
/// distances between their members.
#[derive(PartialEq, Eq, Structural)]
pub enum Linkage {
    /// The smallest distance between members.
    Single,
    /// The largest distance between members.
    Complete,
    /// The mean distance between members.
    Average,
    /// The increase of the within-cluster variance caused by the merge.
    Ward,
}

/// Parameters of the clustering.
pub struct AgglomerativeClusteringParameters {
    /// The number of clusters to find.
    pub n_clusters: usize,
    /// The linkage criterion to use.
    pub linkage: Linkage,
}

impl Default for AgglomerativeClusteringParameters {
    /// Two clusters, Ward's linkage.
    fn default() -> (r: Self)
        ensures
            r.n_clusters == 2,
            r.linkage == Linkage::Ward,
    {
        AgglomerativeClusteringParameters { n_clusters: 2, linkage: Linkage::Ward }
    }
}

impl AgglomerativeClusteringParameters {
    /// Sets the number of clusters.
    pub fn with_n_clusters(self, n_clusters: usize) -> (r: Self)
        ensures
            r.n_clusters == n_clusters,
            r.linkage == self.linkage,
    {
        let mut s = self;
        s.n_clusters = n_clusters;
        s
    }

    /// Sets the linkage criterion.
    pub fn with_linkage(self, linkage: Linkage) -> (r: Self)
        ensures
            r.n_clusters == self.n_clusters,
            r.linkage == linkage,
    {
        let mut s = self;
        s.linkage = linkage;
        s
    }
}

/// The result of a clustering: `labels[i]` is the cluster of the `i`-th sample.
pub struct AgglomerativeClustering {
    pub labels: Vec<usize>,
}

impl AgglomerativeClustering {
    /// Clusters the rows of `data` into `parameters.n_clusters` clusters.
    ///
    /// Fails with `ParametersError`, and the message "Number of clusters cannot be greater
    /// than number of data points.", when more clusters than rows are asked for. Otherwise
    /// (as many clusters as rows), every row is its own cluster: the labels are distinct and
    /// are exactly `0..rows`.
    pub fn fit(data: &DenseMatrix, parameters: AgglomerativeClusteringParameters) -> (r: Result<
        AgglomerativeClustering,
        Failed,
    >)
        requires
            parameters.n_clusters >= data@.len(),
        ensures
            r is Err <==> parameters.n_clusters > data@.len(),
            r matches Err(e) ==> e.err == FailedError::ParametersError && e.msg@
                == "Number of clusters cannot be greater than number of data points."@,
            r matches Ok(m) ==> {
                let n = data@.len();
                &&& m.labels@.len() == n
                &&& forall|p: int, q: int|
                    0 <= p < n && 0 <= q < n ==> (#[trigger] m.labels@[p] == #[trigger] m.labels@[q]
                        <==> p == q)
                &&& forall|p: int| 0 <= p < n ==> #[trigger] m.labels@[p] < n
                &&& forall|c: usize| c < n ==> #[trigger] m.labels@.contains(c)
            },
    {
        let (num_rows, _) = data.shape();
        let n_clusters = parameters.n_clusters;
        if n_clusters > num_rows {
            return Err(
                Failed::because(
                    FailedError::ParametersError,
                    "Number of clusters cannot be greater than number of data points.",
                ),
            );
        }
        // Each row is a cluster of its own, keyed by the row's index.
        let cluster_indices = singleton_clusters(num_rows);
        let ghost st = singletons(num_rows as nat);
        proof {
            lemma_singletons(num_rows as nat);
            assert(cluster_indices@.dom() == st.dom());
        }
        let labels = labels_in_key_order(&cluster_indices, num_rows);
        proof {
            assert forall|p: int, q: int|
                0 <= p < num_rows && 0 <= q < num_rows implies (#[trigger] labels@[p]
                    == #[trigger] labels@[q] <==> p == q) by {
                lemma_cluster_of(st, num_rows as nat, p as usize);
                lemma_cluster_of(st, num_rows as nat, q as usize);
                assert(st[p as usize] == seq![p as usize]);
                assert(st[q as usize] == seq![q as usize]);
                assert(st[p as usize].contains(p as usize));
                assert(st[q as usize].contains(q as usize));
                assert(same_cluster_same_label(st, labels@, num_rows as nat));
            }
        }
        Ok(AgglomerativeClustering { labels })
    }
}

} // verus!
