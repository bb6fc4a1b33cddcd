use smartcore::cluster::agglomerative::{
    AgglomerativeClustering, AgglomerativeClusteringParameters, Linkage,
};
use smartcore::error::FailedError;
use smartcore::linalg::DenseMatrix;

#[test]
fn test_agglomerative_too_many_clusters() {
    let data = DenseMatrix::from_2d_vec(&vec![vec![1, 2], vec![3, 4]]).unwrap();
    let params = AgglomerativeClusteringParameters::default().with_n_clusters(3);
    match AgglomerativeClustering::fit(&data, params) {
        Err(e) => {
            assert_eq!(e.error(), FailedError::ParametersError);
            assert_eq!(
                e.msg,
                "Number of clusters cannot be greater than number of data points."
            );
        }
        Ok(_) => panic!("expected an error"),
    }
}

#[test]
fn test_agglomerative_one_cluster_per_row() {
    let data = DenseMatrix::from_2d_vec(&vec![vec![1], vec![2], vec![3], vec![4]]).unwrap();
    let params = AgglomerativeClusteringParameters::default()
        .with_n_clusters(4)
        .with_linkage(Linkage::Average);
    let mut labels = AgglomerativeClustering::fit(&data, params).unwrap().labels;
    labels.sort();
    assert_eq!(labels, vec![0, 1, 2, 3]);
}

#[test]
fn test_agglomerative_default_parameters() {
    let p = AgglomerativeClusteringParameters::default();
    assert_eq!(p.n_clusters, 2);
    assert!(p.linkage == Linkage::Ward);
    let q = p.with_linkage(Linkage::Single);
    assert!(q.linkage == Linkage::Single);
    assert_eq!(q.n_clusters, 2);
}
