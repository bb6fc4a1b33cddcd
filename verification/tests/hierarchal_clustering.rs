use smartcore::cluster::hierarchal_clustering::{
    AgglomerativeClustering, AgglomerativeClusteringParameters, Linkage,
};
use smartcore::linalg::DenseMatrix;
use std::collections::HashSet;

fn int_matrix(rows: Vec<Vec<i32>>) -> DenseMatrix {
    DenseMatrix::from_2d_vec(&rows).unwrap()
}

#[test]
fn test_chain_merges_into_first_cluster() {
    // Every distance is 0: cluster 0 absorbs clusters 1, 2, 3 in turn.
    let data = int_matrix(vec![vec![5], vec![100], vec![-3], vec![42], vec![7]]);
    let params = AgglomerativeClusteringParameters { n_clusters: 2, linkage: Linkage::Ward };
    let labels = AgglomerativeClustering::fit(&data, params).unwrap().labels;
    assert_eq!(labels.len(), 5);
    assert_eq!(labels[0], labels[1]);
    assert_eq!(labels[0], labels[2]);
    assert_eq!(labels[0], labels[3]);
    assert_ne!(labels[0], labels[4]);
    let distinct: HashSet<usize> = labels.iter().cloned().collect();
    assert_eq!(distinct, [0usize, 1].into_iter().collect());
}

#[test]
fn test_chain_single_cluster() {
    let data = int_matrix(vec![vec![1, 2], vec![3, 4], vec![5, 6]]);
    let params = AgglomerativeClusteringParameters { n_clusters: 1, linkage: Linkage::Ward };
    let labels = AgglomerativeClustering::fit(&data, params).unwrap().labels;
    assert_eq!(labels, vec![0, 0, 0]);
}

#[test]
fn test_chain_no_merge_needed() {
    let data = int_matrix(vec![vec![1], vec![2], vec![3]]);
    let params = AgglomerativeClusteringParameters { n_clusters: 4, linkage: Linkage::Ward };
    let labels = AgglomerativeClustering::fit(&data, params).unwrap().labels;
    let distinct: HashSet<usize> = labels.iter().cloned().collect();
    assert_eq!(distinct, [0usize, 1, 2].into_iter().collect());
}

#[test]
fn test_chain_parameter_builders() {
    let p = AgglomerativeClusteringParameters { n_clusters: 2, linkage: Linkage::Ward }
        .with_n_clusters(5)
        .with_linkage(Linkage::Ward);
    assert_eq!(p.n_clusters, 5);
    assert!(matches!(p.linkage, Linkage::Ward));
}
