# smartcore (clustering, verified)

Agglomerative clustering with exact arithmetic, proved correct with Verus, and the random
row subsampling step of a gradient-boosted regressor.

## Layout

- `src/linalg.rs` — `DenseMatrix`, a dense matrix of `i32` features. Decimal data is written
  scaled by a power of ten.
- `src/cluster/ward.rs` — the mathematics of Ward's criterion: the sum of squared distances of
  a cluster to its mean (`scaled_sse`), Ward's distance between two clusters
  (`ward_num / ward_den`), the proof that it is the increase of that sum caused by a merge,
  exact comparison of fractions, and a memo of cluster variances.
- `src/cluster/partition.rs` — clusterings as maps from cluster id to members: partitions,
  merges, label numbering.
- `src/cluster/hierarchal.rs` — Ward clustering. `fit` returns exactly the labels of the
  clustering `ward_clusters` specifies: repeatedly merge the closest pair (first in row-major
  order of ids on a tie) until `n_clusters` clusters remain; labels number clusters by id.
- `src/cluster/hierarchal_clustering.rs` — Ward clustering whose distance is
  computed as `(v1 + v2) - v1 - v2`, identically 0;
  cluster 0 absorbs the following clusters in turn.
- `src/cluster/agglomerative.rs` — clustering with a choice of linkages, whose pairwise
  distances are all 0; it succeeds when no merge is needed (as many clusters as rows).
- `src/xgboost/xgb_regression.rs` — `create_subsample_mask`, which selects `min(size, rows)` distinct
  rows using `rand`'s shuffle.
- `app/` — the floating-point parts: boosting parameters and tree booster, the Lance-Williams
  distance update, and the conversion of decimal samples to `DenseMatrix`.

## Limits

Exact arithmetic is carried in 128-bit integers. The clustering functions accept `n` rows
of `nf` features when `sizes_fit(n, nf)` holds: `n^3 <= 2^62` and `nf * n^4 <= 2^62`
(for instance 2000 features on 3 rows, or 4 features on 30000 rows).
`fits_exact_arithmetic` tests it.
