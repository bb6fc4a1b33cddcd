use smartcore::cluster::hierarchal::{
    AgglomerativeClustering, AgglomerativeClusteringParameters, Linkage,
};
use smartcore::cluster::ward::{fits_exact_arithmetic, Fraction, VarianceCache};
use smartcore::linalg::DenseMatrix;
use std::collections::{HashMap, HashSet};

/// Writes decimal rows as integers scaled by `scale`.
fn scaled_matrix(rows: &[&[f64]], scale: f64) -> DenseMatrix {
    let values: Vec<Vec<i32>> = rows
        .iter()
        .map(|r| r.iter().map(|x| (x * scale).round() as i32).collect())
        .collect();
    DenseMatrix::from_2d_vec(&values).unwrap()
}

fn value(f: Fraction) -> f64 {
    f.num as f64 / f.den as f64
}

fn assert_approx_eq(a: f64, b: f64) {
    assert!(
        (a - b).abs() < 1e-6,
        "assertion failed: `(left !== right)` \n left: `{:?}`\n right: `{:?}`",
        a,
        b
    );
}

#[test]
fn test_compute_cluster_variance() {
    let data = scaled_matrix(&[&[1.0, 1.0], &[3.0, 3.0], &[5.0, 5.0]], 1.0);

    // Variance of a single point is 0
    let variance1 = AgglomerativeClustering::compute_cluster_variance(&data, &vec![0], &vec![]);
    assert_approx_eq(value(variance1), 0.0);

    // Variance of two points: [1,1] and [3,3]; mean [2,2]; variance 4.0
    let variance2 = AgglomerativeClustering::compute_cluster_variance(&data, &vec![0], &vec![1]);
    assert_approx_eq(value(variance2), 4.0);

    // Variance of three points: [1,1], [3,3], [5,5]; mean [3,3]; variance 16.0
    let variance3 =
        AgglomerativeClustering::compute_cluster_variance(&data, &vec![0, 1, 2], &vec![]);
    assert_approx_eq(value(variance3), 16.0);
}

#[test]
fn test_compute_distance_ward() {
    let data = scaled_matrix(&[&[1.0, 1.0], &[3.0, 3.0]], 1.0);
    let mut cache = VarianceCache::new();

    let cluster1_indices = vec![0];
    let cluster2_indices = vec![1];

    // var(c1) = 0, var(c2) = 0, var(c1 U c2) = 4.0, so the distance is 4.0
    let distance = AgglomerativeClustering::compute_distance(
        &data,
        &Linkage::Ward,
        &mut cache,
        &cluster1_indices,
        &cluster2_indices,
    );

    assert_approx_eq(value(distance), 4.0);
    // check that cache was populated
    assert!(cache.contains_key(&cluster1_indices));
    assert!(cache.contains_key(&cluster2_indices));
}

#[test]
fn test_fit_simple_clusters() {
    let data = scaled_matrix(
        &[
            &[1.0, 2.0],  // cluster 0
            &[1.5, 1.8],  // cluster 0
            &[1.0, 0.6],  // cluster 0
            &[8.0, 8.0],  // cluster 1
            &[9.0, 11.0], // cluster 1
            &[8.5, 9.5],  // cluster 1
        ],
        10.0,
    );

    let params = AgglomerativeClusteringParameters {
        n_clusters: 2,
        linkage: Linkage::Ward,
    };

    let result = AgglomerativeClustering::fit(&data, params).unwrap();
    let labels = result.labels;

    assert_eq!(labels.len(), 6);

    let label_set_1 = labels[0];
    let label_set_2 = labels[3];

    // Assert the two sets have different labels
    assert_ne!(label_set_1, label_set_2);

    // Assert that the first three points belong to the same cluster
    assert_eq!(labels[0], label_set_1);
    assert_eq!(labels[1], label_set_1);
    assert_eq!(labels[2], label_set_1);

    // Assert that the last three points belong to the same cluster
    assert_eq!(labels[3], label_set_2);
    assert_eq!(labels[4], label_set_2);
    assert_eq!(labels[5], label_set_2);
}

#[test]
fn test_n_clusters_parameter() {
    let data = scaled_matrix(&[&[0.0], &[1.0], &[10.0], &[11.0], &[20.0], &[21.0]], 1.0);

    // Test with n_clusters = 3
    let params_3 = AgglomerativeClusteringParameters {
        n_clusters: 3,
        linkage: Linkage::Ward,
    };
    let result_3 = AgglomerativeClustering::fit(&data, params_3).unwrap();
    let unique_labels_3: HashSet<usize> = result_3.labels.into_iter().collect();
    assert_eq!(unique_labels_3.len(), 3);

    // Test with n_clusters = 1
    let params_1 = AgglomerativeClusteringParameters {
        n_clusters: 1,
        linkage: Linkage::Ward,
    };
    let result_1 = AgglomerativeClustering::fit(&data, params_1).unwrap();
    let unique_labels_1: HashSet<usize> = result_1.labels.into_iter().collect();
    assert_eq!(unique_labels_1.len(), 1);
}

#[test]
fn test_fit_heavy_load_deterministic() {
    let n_clusters = 5;

    // Define cluster properties: (center_x, center_y, num_points)
    let cluster_definitions = vec![
        (0.0, 0.0, 10),
        (100.0, 0.0, 20),
        (0.0, 100.0, 15),
        (100.0, 100.0, 25),
        (50.0, -50.0, 5),
    ];

    // The expected sizes of the final clusters.
    let mut expected_counts: Vec<usize> = cluster_definitions.iter().map(|c| c.2).collect();
    expected_counts.sort_unstable();

    let mut data_vec: Vec<Vec<f64>> = Vec::new();

    // Generate data points for each cluster deterministically.
    for (center_x, center_y, num_points) in cluster_definitions {
        for i in 0..num_points {
            let offset = i as f64 * 0.1;
            let x = center_x + offset;
            let y = center_y + offset;
            data_vec.push(vec![x, y]);
        }
    }

    let data_refs: Vec<&[f64]> = data_vec.iter().map(|row| row.as_slice()).collect();
    let data = scaled_matrix(&data_refs, 10.0);

    // Run clustering
    let params = AgglomerativeClusteringParameters {
        n_clusters,
        linkage: Linkage::Ward,
    };
    let result = AgglomerativeClustering::fit(&data, params).unwrap();
    let labels = result.labels;

    // 1. Verify the number of distinct clusters found
    let unique_labels: HashSet<usize> = labels.iter().cloned().collect();
    assert_eq!(
        unique_labels.len(),
        n_clusters,
        "Expected {} distinct clusters, but found {}",
        n_clusters,
        unique_labels.len()
    );

    // 2. Verify the number of members in each cluster
    let mut label_counts: HashMap<usize, usize> = HashMap::new();
    for label in labels {
        *label_counts.entry(label).or_insert(0) += 1;
    }

    let mut actual_counts: Vec<usize> = label_counts.values().cloned().collect();
    actual_counts.sort_unstable();

    assert_eq!(
        actual_counts, expected_counts,
        "Cluster sizes do not match expected values"
    );
}

#[test]
fn test_ward_distance_is_exact_fraction() {
    let data = scaled_matrix(&[&[1.0, 1.0], &[3.0, 3.0]], 1.0);
    let mut cache = VarianceCache::new();
    let d = AgglomerativeClustering::compute_distance(&data, &Linkage::Ward, &mut cache, &vec![0], &vec![1]);
    // (|b| sum_a - |a| sum_b)^2 summed over the features, over |a| |b| (|a| + |b|)
    assert_eq!(d.num, 8);
    assert_eq!(d.den, 2);
    assert_eq!(cache.len(), 2);
}

#[test]
fn test_ward_distance_with_empty_cluster_is_zero() {
    let data = scaled_matrix(&[&[1.0, 1.0], &[3.0, 3.0]], 1.0);
    let mut cache = VarianceCache::new();
    let d = AgglomerativeClustering::compute_distance(&data, &Linkage::Ward, &mut cache, &vec![], &vec![0, 1]);
    assert_eq!(d, Fraction { num: 0, den: 1 });
    assert!(cache.contains_key(&vec![]));
    assert!(cache.contains_key(&vec![0, 1]));
}

#[test]
fn test_ward_distance_is_variance_increase() {
    let data = scaled_matrix(&[&[0.0, 2.0], &[4.0, 0.0], &[5.0, 5.0], &[1.0, 7.0]], 1.0);
    let a = vec![0, 3];
    let b = vec![1, 2];
    let mut cache = VarianceCache::new();
    let d = AgglomerativeClustering::compute_distance(&data, &Linkage::Ward, &mut cache, &a, &b);
    let va = value(AgglomerativeClustering::compute_cluster_variance(&data, &a, &vec![]));
    let vb = value(AgglomerativeClustering::compute_cluster_variance(&data, &b, &vec![]));
    let vab = value(AgglomerativeClustering::compute_cluster_variance(&data, &a, &b));
    assert_approx_eq(value(d), vab - va - vb);
    // The same distance with the clusters in the other order.
    let d2 = AgglomerativeClustering::compute_distance(&data, &Linkage::Ward, &mut cache, &b, &a);
    assert_eq!(d.num * d2.den, d2.num * d.den);
}

#[test]
fn test_variance_of_empty_cluster_is_zero() {
    let data = scaled_matrix(&[&[1.0, 1.0]], 1.0);
    let v = AgglomerativeClustering::compute_cluster_variance(&data, &vec![], &vec![]);
    assert_eq!(v, Fraction { num: 0, den: 1 });
}

#[test]
fn test_variance_scaled_by_squared_size() {
    let data = scaled_matrix(&[&[1.0, 1.0], &[3.0, 3.0], &[5.0, 5.0]], 1.0);
    let v = AgglomerativeClustering::compute_cluster_variance(&data, &vec![0, 1], &vec![2]);
    // the squared deviations, each scaled by n = 3, summed: 2 * (36 + 0 + 36) = 144, over 9
    assert_eq!(v.num, 144);
    assert_eq!(v.den, 9);
}

#[test]
fn test_fit_labels_follow_cluster_ids() {
    let data = scaled_matrix(&[&[10.0], &[0.0], &[11.0], &[1.0]], 1.0);
    let params = AgglomerativeClusteringParameters { n_clusters: 2, linkage: Linkage::Ward };
    let labels = AgglomerativeClustering::fit(&data, params).unwrap().labels;
    assert_eq!(labels, vec![0, 1, 0, 1]);
}

#[test]
fn test_fit_tie_merges_first_pair() {
    // d(0,1) = d(2,3) = 0.5: the pair (0, 1) comes first and is merged first; then (2, 3).
    let data = scaled_matrix(&[&[0.0], &[1.0], &[10.0], &[11.0]], 1.0);
    let params = AgglomerativeClusteringParameters { n_clusters: 3, linkage: Linkage::Ward };
    let labels = AgglomerativeClustering::fit(&data, params).unwrap().labels;
    assert_eq!(labels, vec![0, 0, 1, 2]);
}

#[test]
fn test_fit_more_clusters_than_rows() {
    let data = scaled_matrix(&[&[3.0], &[1.0], &[2.0]], 1.0);
    let params = AgglomerativeClusteringParameters { n_clusters: 10, linkage: Linkage::Ward };
    let labels = AgglomerativeClustering::fit(&data, params).unwrap().labels;
    assert_eq!(labels, vec![0, 1, 2]);
}

#[test]
fn test_fit_no_rows() {
    let data = DenseMatrix::from_2d_vec(&vec![]).unwrap();
    let params = AgglomerativeClusteringParameters { n_clusters: 0, linkage: Linkage::Ward };
    let labels = AgglomerativeClustering::fit(&data, params).unwrap().labels;
    assert!(labels.is_empty());
}

#[test]
fn test_hierarchal_parameter_builders() {
    let p = AgglomerativeClusteringParameters { n_clusters: 2, linkage: Linkage::Ward }
        .with_n_clusters(7)
        .with_linkage(Linkage::Ward);
    assert_eq!(p.n_clusters, 7);
    assert!(matches!(p.linkage, Linkage::Ward));
}

#[test]
fn test_fit_unchanged_by_scaling() {
    let rows: Vec<&[f64]> = vec![&[0.3, 1.2], &[4.1, 0.0], &[5.5, 5.2], &[1.0, 7.7], &[0.2, 1.0], &[5.0, 4.9]];
    for k in 1..=6 {
        let base = AgglomerativeClustering::fit(
            &scaled_matrix(&rows, 10.0),
            AgglomerativeClusteringParameters { n_clusters: k, linkage: Linkage::Ward },
        )
        .unwrap()
        .labels;
        let scaled = AgglomerativeClustering::fit(
            &scaled_matrix(&rows, 1000.0),
            AgglomerativeClusteringParameters { n_clusters: k, linkage: Linkage::Ward },
        )
        .unwrap()
        .labels;
        assert_eq!(base, scaled);
    }
}

#[test]
fn test_variance_independent_of_list_order() {
    let data = scaled_matrix(&[&[0.0, 2.0], &[4.0, 0.0], &[5.0, 5.0], &[1.0, 7.0]], 1.0);
    let a = vec![3, 0];
    let b = vec![2, 1];
    let ab = AgglomerativeClustering::compute_cluster_variance(&data, &a, &b);
    let ba = AgglomerativeClustering::compute_cluster_variance(&data, &b, &a);
    let joined = AgglomerativeClustering::compute_cluster_variance(&data, &vec![3, 0, 2, 1], &vec![]);
    assert_eq!(ab, ba);
    assert_eq!(ab, joined);
    // mean (2.5, 3.5); squared distances 8.5 + 14.5 + 8.5 + 14.5 = 46, scaled by 4^2
    assert_eq!(ab, Fraction { num: 736, den: 16 });
}

#[test]
fn test_fit_labels_in_order_of_first_appearance() {
    let data = scaled_matrix(
        &[&[20.0], &[0.0], &[21.0], &[10.0], &[1.0], &[11.0], &[0.5]],
        10.0,
    );
    let params = AgglomerativeClusteringParameters { n_clusters: 3, linkage: Linkage::Ward };
    let labels = AgglomerativeClustering::fit(&data, params).unwrap().labels;
    assert_eq!(labels, vec![0, 1, 0, 2, 1, 2, 1]);
    let mut largest = 0;
    for (i, l) in labels.iter().enumerate() {
        if i == 0 {
            assert_eq!(*l, 0);
        } else {
            assert!(*l <= largest + 1);
        }
        largest = largest.max(*l);
    }
}

#[test]
fn test_sizes_that_fit_exact_arithmetic() {
    assert!(fits_exact_arithmetic(3, 2000));
    assert!(fits_exact_arithmetic(30000, 4));
    assert!(fits_exact_arithmetic(0, usize::MAX));
    assert!(!fits_exact_arithmetic(30000, 10));
    assert!(!fits_exact_arithmetic(3, usize::MAX));
    assert!(!fits_exact_arithmetic(0x20_0001, 0));
}

#[test]
fn test_fit_many_features_few_rows() {
    let nf = 2000;
    let rows: Vec<Vec<i32>> = vec![
        (0..nf).map(|f| (f % 7) as i32).collect(),
        (0..nf).map(|f| (f % 7) as i32 + 1).collect(),
        (0..nf).map(|f| 1000 - (f % 5) as i32).collect(),
    ];
    let data = DenseMatrix::from_2d_vec(&rows).unwrap();
    let params = AgglomerativeClusteringParameters { n_clusters: 2, linkage: Linkage::Ward };
    let labels = AgglomerativeClustering::fit(&data, params).unwrap().labels;
    assert_eq!(labels, vec![0, 0, 1]);
    let mut cache = VarianceCache::new();
    let d = AgglomerativeClustering::compute_distance(&data, &Linkage::Ward, &mut cache, &vec![0], &vec![1]);
    // each feature differs by 1: (1 * x0 - 1 * x1)^2 = 1, summed over 2000 features, over 1 * 1 * 2
    assert_eq!(d, Fraction { num: 2000, den: 2 });
}
