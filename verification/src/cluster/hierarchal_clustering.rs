//! Agglomerative clustering with Ward's linkage, whose distance between two clusters is
//! `(variance(c1) + variance(c2)) - variance(c1) - variance(c2)`, which is 0 for every pair of
//! clusters. With all distances equal, each step merges the first pair of present clusters
//! in row-major order of ids: cluster 0 absorbs clusters 1, 2, ... in turn. Labels number the
//! remaining clusters in the order in which the hash map of clusters walks its keys.

use crate::cluster::hierarchal::AgglomerativeClustering as VarianceOwner;
use crate::cluster::partition::{
    is_candidate, is_partition, labels_in_key_order, lemma_has_candidate, lemma_merge_partition,
    lemma_pair_size, lemma_singletons, lex_before, member_lists, merge_clusters,
    same_cluster_same_label, singleton_clusters, singletons,
};
use crate::cluster::ward::{
    frac_less, frac_ok, lemma_scaled_sse_factor, lemma_sse_times_n_bound, members_in_range,
    sse_times_n, sizes_fit, lemma_sizes_fit_bounds, lemma_sizes_fit_smaller, Fraction,
    VarianceCache,
};
use crate::error::Failed;
use crate::linalg::DenseMatrix;
use std::collections::HashMap;
use vstd::prelude::*;

verus! {

broadcast use {vstd::std_specs::hash::group_hash_axioms, vstd::map::group_map_axioms};

/// The linkage criterion.
pub enum Linkage {
    /// Ward's minimum variance method.
    Ward,
}

/// Parameters of the clustering.
pub struct AgglomerativeClusteringParameters {
    /// The number of clusters to find.
    pub n_clusters: usize,
    /// The linkage criterion to use.
    pub linkage: Linkage,
}

impl AgglomerativeClusteringParameters {
    /// Sets the number of clusters.
    pub fn with_n_clusters(self, n_clusters: usize) -> (r: Self)
        ensures
            r.n_clusters == n_clusters,
            r.linkage == self.linkage,
    {
        let mut s = self;
        s.n_clusters = n_clusters;
        s
    }

    /// Sets the linkage criterion.
    pub fn with_linkage(self, linkage: Linkage) -> (r: Self)
        ensures
            r.n_clusters == self.n_clusters,
            r.linkage == linkage,
    {
        let mut s = self;
        s.linkage = linkage;
        s
    }
}

/// The result of a clustering: `labels[i]` is the cluster of the `i`-th sample.
pub struct AgglomerativeClustering {
    pub labels: Vec<usize>,
}

/// The clusters after `m` merges out of `n` samples: cluster 0 holds samples `0..=m` in
/// order, clusters `1..=m` are gone, and every later sample is alone in its cluster.
pub open spec fn chain_clusters(n: nat, m: nat) -> Map<usize, Seq<usize>> {
    Map::new(
        |key: usize| key < n && (key == 0 || key > m),
        |key: usize|
            if key == 0 {
                Seq::new(m + 1, |t: int| t as usize)
            } else {
                seq![key]
            },
    )
}

/// The number of merges made for `n` samples and `k` requested clusters.
pub open spec fn merges(n: nat, k: nat) -> nat {
    if n > k {
        (n - k) as nat
    } else {
        0
    }
}

/// Merging cluster `m + 1` into cluster 0 extends the chain by one.
proof fn lemma_chain_step(n: nat, m: nat)
    requires
        m + 1 < n,
        n <= usize::MAX + 1,
    ensures
        chain_clusters(n, m).contains_key(0),
        chain_clusters(n, m).contains_key((m + 1) as usize),
        merge_clusters(chain_clusters(n, m), 0, (m + 1) as usize) == chain_clusters(n, m + 1),
{
    let a = chain_clusters(n, m);
    let b = chain_clusters(n, m + 1);
    let c = merge_clusters(a, 0, (m + 1) as usize);
    assert(a.contains_key(0));
    assert(a.contains_key((m + 1) as usize));
    assert(c.dom() =~= b.dom());
    assert(c[0] =~= b[0]) by {
        assert(a[0].len() == m + 1);
        assert(a[(m + 1) as usize] == seq![(m + 1) as usize]);
        assert forall|t: int| 0 <= t < m + 2 implies #[trigger] c[0][t] == b[0][t] by {
            if t == m + 1 {
                assert(c[0][t] == a[(m + 1) as usize][0]);
            } else {
                assert(c[0][t] == a[0][t]);
            }
        }
    }
    assert forall|key: usize| #[trigger] c.contains_key(key) implies c[key] == b[key] by {}
    assert(c =~= b);
}

/// No merges leave one sample per cluster.
proof fn lemma_chain_start(n: nat)
    ensures
        chain_clusters(n, 0) == singletons(n),
{
    let a = chain_clusters(n, 0);
    assert(a.dom() =~= singletons(n).dom());
    assert forall|key: usize| #[trigger] a.contains_key(key) implies a[key] == singletons(n)[key] by {
        if key == 0 {
            assert(a[0] =~= seq![0usize]);
        }
    }
    assert(a =~= singletons(n));
}

/// Every entry of the distance matrix is a zero fraction with a valid denominator.
pub open spec fn all_zero(matrix: Seq<Vec<Fraction>>) -> bool {
    forall|i: int| 0 <= i < matrix.len() ==> #[trigger] zero_row(matrix[i]@)
}

/// A zero fraction with a valid denominator.
pub open spec fn zero_entry(e: Fraction) -> bool {
    e.num == 0 && frac_ok(e)
}

/// Every entry of the row is a zero fraction with a valid denominator.
pub open spec fn zero_row(row: Seq<Fraction>) -> bool {
    forall|x: int| 0 <= x < row.len() ==> #[trigger] zero_entry(row[x])
}

impl AgglomerativeClustering {
    /// The distance between two clusters under `linkage`: for Ward's linkage,
    /// `(variance(c1) + variance(c2)) - variance(c1) - variance(c2)`, computed exactly, which
    /// is 0. The two variances are taken from `cache` or computed and recorded there.
    fn compute_distance(
        data: &DenseMatrix,
        linkage: &Linkage,
        cache: &mut VarianceCache,
        cluster1_indices: &Vec<usize>,
        cluster2_indices: &Vec<usize>,
    ) -> (r: Fraction)
        requires
            members_in_range(data@, cluster1_indices@),
            members_in_range(data@, cluster2_indices@),
            sizes_fit(cluster1_indices.len() + cluster2_indices.len(), data.num_cols() as int),
            old(cache).well_formed(),
            old(cache).holds_variances_of(data@, data.num_cols() as int),
        ensures
            r.num == 0,
            frac_ok(r),
            final(cache).well_formed(),
            final(cache).holds_variances_of(data@, data.num_cols() as int),
    {
        let ghost rows = data@;
        let ghost nf = data.num_cols() as int;
        match linkage {
            Linkage::Ward => {
                proof {
                    let m = cluster1_indices.len() + cluster2_indices.len();
                    lemma_sizes_fit_smaller(cluster1_indices.len() as int, m, nf);
                    lemma_sizes_fit_smaller(cluster2_indices.len() as int, m, nf);
                }
                let v1 = VarianceOwner::cached_variance(data, cache, cluster1_indices);
                let v2 = VarianceOwner::cached_variance(data, cache, cluster2_indices);
                let n1 = cluster1_indices.len();
                let n2 = cluster2_indices.len();
                // Each variance as `k / d`, reduced by the cluster size.
                let d1: u128 = if n1 == 0 {
                    1
                } else {
                    n1 as u128
                };
                let d2: u128 = if n2 == 0 {
                    1
                } else {
                    n2 as u128
                };
                proof {
                    lemma_scaled_sse_factor(rows, cluster1_indices@, nf);
                    lemma_scaled_sse_factor(rows, cluster2_indices@, nf);
                    if n1 > 0 {
                        vstd::arithmetic::div_mod::lemma_div_multiples_vanish(
                            sse_times_n(rows, cluster1_indices@, nf),
                            n1 as int,
                        );
                        lemma_sse_times_n_bound(rows, cluster1_indices@, nf);
                    }
                    if n2 > 0 {
                        vstd::arithmetic::div_mod::lemma_div_multiples_vanish(
                            sse_times_n(rows, cluster2_indices@, nf),
                            n2 as int,
                        );
                        lemma_sse_times_n_bound(rows, cluster2_indices@, nf);
                    }
                }
                let k1 = v1.num / d1;
                let k2 = v2.num / d2;
                proof {
                    let (a1, a2) = (n1 as int, n2 as int);
                    let m = a1 + a2;
                    let c1 = cluster1_indices@;
                    let c2 = cluster2_indices@;
                    if a1 > 0 {
                        assert(k1 == sse_times_n(rows, c1, nf));
                    } else {
                        let z = sse_times_n(rows, c1, nf);
                        assert(c1.len() * z == 0) by (nonlinear_arith)
                            requires
                                c1.len() == 0,
                        ;
                        assert(v1.num == 0);
                        assert(k1 == 0);
                    }
                    if a2 > 0 {
                        assert(k2 == sse_times_n(rows, c2, nf));
                    } else {
                        let z = sse_times_n(rows, c2, nf);
                        assert(c2.len() * z == 0) by (nonlinear_arith)
                            requires
                                c2.len() == 0,
                        ;
                        assert(v2.num == 0);
                        assert(k2 == 0);
                    }
                    assert(0 <= k1 <= nf * (a1 * a1 * 0x4000_0000_0000_0000));
                    assert(0 <= k2 <= nf * (a2 * a2 * 0x4000_0000_0000_0000));
                    if m == 0 {
                        assert(k1 == 0 && k2 == 0) by (nonlinear_arith)
                            requires
                                a1 == 0,
                                a2 == 0,
                                0 <= k1 <= nf * (a1 * a1 * 0x4000_0000_0000_0000),
                                0 <= k2 <= nf * (a2 * a2 * 0x4000_0000_0000_0000),
                        ;
                    } else {
                        lemma_sizes_fit_bounds(m, nf);
                        assert(0 < d1 <= m && 0 < d2 <= m);
                        assert(a1 * a1 * d2 <= m * m * m) by (nonlinear_arith)
                            requires
                                0 <= a1 <= m,
                                0 < d2 <= m,
                        ;
                        assert(a2 * a2 * d1 <= m * m * m) by (nonlinear_arith)
                            requires
                                0 <= a2 <= m,
                                0 < d1 <= m,
                        ;
                        assert(k1 * d2 <= nf * (a1 * a1 * d2) * 0x4000_0000_0000_0000)
                            by (nonlinear_arith)
                            requires
                                0 <= k1 <= nf * (a1 * a1 * 0x4000_0000_0000_0000),
                                0 < d2,
                        ;
                        assert(k2 * d1 <= nf * (a2 * a2 * d1) * 0x4000_0000_0000_0000)
                            by (nonlinear_arith)
                            requires
                                0 <= k2 <= nf * (a2 * a2 * 0x4000_0000_0000_0000),
                                0 < d1,
                        ;
                        assert(nf * (a1 * a1 * d2) <= nf * (m * m * m)) by (nonlinear_arith)
                            requires
                                nf >= 0,
                                a1 * a1 * d2 <= m * m * m,
                        ;
                        assert(nf * (a2 * a2 * d1) <= nf * (m * m * m)) by (nonlinear_arith)
                            requires
                                nf >= 0,
                                a2 * a2 * d1 <= m * m * m,
                        ;
                        assert(0 <= k1 * d2 && 0 <= k2 * d1) by (nonlinear_arith)
                            requires
                                0 <= k1,
                                0 <= k2,
                                0 < d1,
                                0 < d2,
                        ;
                        assert(0 < d1 * d2 <= m * m) by (nonlinear_arith)
                            requires
                                0 < d1 <= m,
                                0 < d2 <= m,
                        ;
                    }
                }
                // variance(c1) + variance(c2)
                let both_num = k1 * d2 + k2 * d1;
                let both_den = d1 * d2;
                // ... minus variance(c1), minus variance(c2), over the common denominator.
                let num = both_num - k1 * d2 - k2 * d1;
                Fraction { num, den: both_den }
            },
        }
    }

    /// Scans the distance matrix in row-major order over the present clusters and returns
    /// the first pair at the smallest distance; all distances being 0, this is the first
    /// pair of present clusters.
    fn find_closest_pair(matrix: &Vec<Vec<Fraction>>, indices_mapping: &HashMap<usize, Vec<usize>>)
        -> (r: (usize, usize))
        requires
            forall|i: int| 0 <= i < matrix.len() ==> #[trigger] matrix@[i].len() == matrix.len() - 1 - i,
            all_zero(matrix@),
            forall|k: usize| #[trigger] indices_mapping@.contains_key(k) ==> k < matrix.len(),
            exists|a: usize, b: usize| #[trigger] is_candidate(member_lists(indices_mapping@), a, b),
        ensures
            is_candidate(member_lists(indices_mapping@), r.0, r.1),
            forall|a: usize, b: usize| #[trigger]
                is_candidate(member_lists(indices_mapping@), a, b) ==> !lex_before(
                    a as int,
                    b as int,
                    r.0 as int,
                    r.1 as int,
                ),
    {
        let ghost st = member_lists(indices_mapping@);
        let n = matrix.len();
        let mut found = false;
        let mut best = Fraction { num: 0, den: 1 };
        let mut bi: usize = 0;
        let mut bj: usize = 0;
        let mut i: usize = 0;
        while i < n
            invariant
                n == matrix.len(),
                forall|r: int| 0 <= r < n ==> #[trigger] matrix@[r].len() == n - 1 - r,
                all_zero(matrix@),
                st == member_lists(indices_mapping@),
                forall|k: usize| #[trigger] indices_mapping@.contains_key(k) ==> k < n,
                i <= n,
                frac_ok(best),
                best.num == 0,
                !found ==> forall|a: usize, b: usize| #[trigger]
                    is_candidate(st, a, b) ==> !lex_before(a as int, b as int, i as int, i + 1),
                found ==> is_candidate(st, bi, bj) && lex_before(bi as int, bj as int, i as int, i + 1)
                    && forall|a: usize, b: usize| #[trigger]
                    is_candidate(st, a, b) ==> !lex_before(a as int, b as int, bi as int, bj as int),
            decreases n - i,
        {
            if indices_mapping.contains_key(&i) {
                let row_len = matrix[i].len();
                let mut j: usize = 0;
                while j < row_len
                    invariant
                        n == matrix.len(),
                        forall|r: int| 0 <= r < n ==> #[trigger] matrix@[r].len() == n - 1 - r,
                        all_zero(matrix@),
                        st == member_lists(indices_mapping@),
                        forall|k: usize| #[trigger] indices_mapping@.contains_key(k) ==> k < n,
                        i < n,
                        st.contains_key(i),
                        row_len == n - 1 - i,
                        row_len == matrix@[i as int].len(),
                        j <= row_len,
                        frac_ok(best),
                        best.num == 0,
                        !found ==> forall|a: usize, b: usize| #[trigger]
                            is_candidate(st, a, b) ==> !lex_before(a as int, b as int, i as int, i + 1 + j),
                        found ==> is_candidate(st, bi, bj) && lex_before(
                            bi as int,
                            bj as int,
                            i as int,
                            i + 1 + j,
                        ) && forall|a: usize, b: usize| #[trigger]
                            is_candidate(st, a, b) ==> !lex_before(a as int, b as int, bi as int, bj as int),
                    decreases row_len - j,
                {
                    let jo = i + 1 + j;
                    if indices_mapping.contains_key(&jo) {
                        let distance = matrix[i][j];
                        proof {
                            assert(zero_row(matrix@[i as int]@));
                            assert(zero_entry(matrix@[i as int]@[j as int]));
                        }
                        if !found || frac_less(&distance, &best) {
                            proof {
                                assert(!found);
                                assert(is_candidate(st, i, jo));
                            }
                            found = true;
                            best = distance;
                            bi = i;
                            bj = jo;
                        }
                    }
                    j = j + 1;
                }
                proof {
                    assert forall|a: usize, b: usize| #[trigger]
                        is_candidate(st, a, b) && lex_before(a as int, b as int, i + 1, i + 2)
                            implies lex_before(a as int, b as int, i as int, i + 1 + j) by {
                        assert(b < n);
                    }
                }
            } else {
                proof {
                    assert forall|a: usize, b: usize| #[trigger]
                        is_candidate(st, a, b) && lex_before(a as int, b as int, i + 1, i + 2)
                            implies lex_before(a as int, b as int, i as int, i + 1) by {
                        if a == i {
                            assert(st.contains_key(i));
                        }
                    }
                }
            }
            i = i + 1;
        }
        proof {
            if !found {
                let (a, b) = choose|a: usize, b: usize| #[trigger] is_candidate(st, a, b);
                assert(is_candidate(st, a, b));
                assert(a < n);
            }
        }
        (bi, bj)
    }

    /// Merges cluster `j` into cluster `i`, records the merged cluster under id `i`, then
    /// recomputes the distances in row `i` of the matrix, and the entries `(g, i - g - 1)` of
    /// the rows `g < i` for which a cluster with id `i - g - 1` is present.
    fn merge_pair(
        data: &DenseMatrix,
        linkage: &Linkage,
        cache: &mut VarianceCache,
        matrix: &mut Vec<Vec<Fraction>>,
        indices_mapping: &mut HashMap<usize, Vec<usize>>,
        i: usize,
        j: usize,
    )
        requires
            old(matrix).len() == data@.len(),
            sizes_fit(data@.len() as int, data.num_cols() as int),
            forall|r: int| 0 <= r < old(matrix).len() ==> #[trigger] old(matrix)@[r].len()
                == old(matrix).len() - 1 - r,
            all_zero(old(matrix)@),
            is_partition(member_lists(old(indices_mapping)@), data@.len()),
            is_candidate(member_lists(old(indices_mapping)@), i, j),
            old(cache).well_formed(),
            old(cache).holds_variances_of(data@, data.num_cols() as int),
        ensures
            member_lists(final(indices_mapping)@) == merge_clusters(
                member_lists(old(indices_mapping)@),
                i,
                j,
            ),
            final(matrix).len() == data@.len(),
            forall|r: int| 0 <= r < final(matrix).len() ==> #[trigger] final(matrix)@[r].len()
                == final(matrix).len() - 1 - r,
            all_zero(final(matrix)@),
            final(cache).well_formed(),
            final(cache).holds_variances_of(data@, data.num_cols() as int),
    {
        let ghost rows = data@;
        let ghost nf = data.num_cols() as int;
        let ghost n = data@.len();
        let ghost st = member_lists(indices_mapping@);
        let ghost merged = merge_clusters(st, i, j);
        proof {
            lemma_merge_partition(st, i, j, n);
        }
        let cluster1_indices = indices_mapping.remove(&i).unwrap();
        let cluster2_indices = indices_mapping.remove(&j).unwrap();
        cache.remove(&cluster1_indices);
        cache.remove(&cluster2_indices);
        let mut combined_cluster_indices = cluster1_indices;
        let mut tail = cluster2_indices;
        combined_cluster_indices.append(&mut tail);
        indices_mapping.insert(i, combined_cluster_indices);
        proof {
            assert(member_lists(indices_mapping@) =~= merged);
        }
        let combined = indices_mapping.get(&i).unwrap();
        // Row `i`: distances from the merged cluster to the clusters after it.
        let row_len = matrix[i].len();
        proof {
            assert(row_len == n - 1 - i);
        }
        let mut new_row: Vec<Fraction> = Vec::new();
        let mut t: usize = 0;
        while t < row_len
            invariant
                rows == data@,
                nf == data.num_cols(),
                n == rows.len(),
                sizes_fit(n as int, nf),
                is_partition(merged, n),
                merged == member_lists(indices_mapping@),
                merged.contains_key(i),
                combined@ == merged[i],
                i < n,
                row_len == n - 1 - i,
                t <= row_len,
                cache.well_formed(),
                cache.holds_variances_of(rows, nf),
                new_row.len() == t,
                zero_row(new_row@),
            decreases row_len - t,
        {
            let jo = i + 1 + t;
            match indices_mapping.get(&jo) {
                Some(other_cluster_indices) => {
                    proof {
                        assert(merged.contains_key(jo));
                        assert(other_cluster_indices@ == merged[jo]);
                        lemma_pair_size(merged, i, jo, n);
                        lemma_sizes_fit_smaller((merged[i].len() + merged[jo].len()) as int, n as int, nf);
                        assert forall|x: int| 0 <= x < merged[jo].len() implies #[trigger] merged[jo][x] < rows.len() by {}
                        assert forall|x: int| 0 <= x < merged[i].len() implies #[trigger] merged[i][x] < rows.len() by {}
                    }
                    let d = Self::compute_distance(
                        data,
                        linkage,
                        cache,
                        combined,
                        other_cluster_indices,
                    );
                    new_row.push(d);
                },
                None => {
                    new_row.push(Fraction { num: 0, den: 1 });
                },
            }
            t = t + 1;
        }
        let ghost before_row = matrix@;
        let ghost new_row_v = new_row@;
        matrix.set(i, new_row);
        proof {
            assert forall|r: int| 0 <= r < matrix.len() implies #[trigger] matrix@[r].len() == matrix.len() - 1 - r by {
                if r != i {
                    assert(matrix@[r] == before_row[r]);
                }
            }
            let m = matrix@;
            assert forall|a: int| 0 <= a < m.len() implies #[trigger] zero_row(m[a]@) by {
                if a != i {
                    assert(m[a] == before_row[a]);
                } else {
                    assert(m[a]@ == new_row_v);
                }
            }
            assert(all_zero(m));
        }
        // Rows before `i`: the entry at offset `i - g - 1`, when a cluster with that id is present.
        let mut g: usize = 0;
        while g < i
            invariant
                rows == data@,
                nf == data.num_cols(),
                n == rows.len(),
                sizes_fit(n as int, nf),
                is_partition(merged, n),
                merged == member_lists(indices_mapping@),
                merged.contains_key(i),
                combined@ == merged[i],
                i < n,
                g <= i,
                cache.well_formed(),
                cache.holds_variances_of(rows, nf),
                matrix.len() == n,
                forall|r: int| 0 <= r < matrix.len() ==> #[trigger] matrix@[r].len() == matrix.len() - 1 - r,
                all_zero(matrix@),
            decreases i - g,
        {
            let offset = i - g - 1;
            match indices_mapping.get(&offset) {
                Some(other_cluster_indices) => {
                    proof {
                        assert(merged.contains_key(offset));
                        assert(other_cluster_indices@ == merged[offset]);
                        lemma_pair_size(merged, i, offset, n);
                        lemma_sizes_fit_smaller((merged[i].len() + merged[offset].len()) as int, n as int, nf);
                        assert forall|x: int| 0 <= x < merged[offset].len() implies #[trigger] merged[offset][x] < rows.len() by {}
                        assert forall|x: int| 0 <= x < merged[i].len() implies #[trigger] merged[i][x] < rows.len() by {}
                    }
                    let d = Self::compute_distance(
                        data,
                        linkage,
                        cache,
                        combined,
                        other_cluster_indices,
                    );
                    let ghost before = matrix@;
                    proof {
                        assert(matrix@[g as int].len() == n - 1 - g);
                    }
                    matrix[g][offset] = d;
                    proof {
                        assert(matrix@[g as int]@ == before[g as int]@.update(offset as int, d));
                        assert forall|r: int| 0 <= r < matrix.len() implies #[trigger] matrix@[r].len() == matrix.len() - 1 - r by {
                            if r != g {
                                assert(matrix@[r] == before[r]);
                            }
                            assert(before[r].len() == n - 1 - r);
                        }
                        let m = matrix@;
                        assert(zero_row(before[g as int]@));
                        assert(zero_row(m[g as int]@)) by {
                            assert forall|x: int| 0 <= x < m[g as int]@.len() implies #[trigger] zero_entry(m[g as int]@[x]) by {
                                if x != offset {
                                    assert(m[g as int]@[x] == before[g as int]@[x]);
                                }
                            }
                        }
                        assert forall|a: int| 0 <= a < m.len() implies #[trigger] zero_row(m[a]@) by {
                            if a != g {
                                assert(m[a] == before[a]);
                            }
                        }
                        assert(all_zero(m));
                    }
                },
                None => {},
            }
            g = g + 1;
        }
    }

    /// Clusters the rows of `data` until `parameters.n_clusters` clusters remain (or every row
    /// is its own cluster, when there are fewer rows). With all distances 0, cluster 0 ends
    /// up holding rows `0..=m` (`m` being the number of merges) and every later row stays
    /// alone; rows share a label exactly when they share a cluster, and the labels are
    /// `0, 1, ...` up to the number of clusters.
    pub fn fit(data: &DenseMatrix, parameters: AgglomerativeClusteringParameters) -> (r: Result<
        AgglomerativeClustering,
        Failed,
    >)
        requires
            parameters.n_clusters > 0 || data@.len() == 0,
            sizes_fit(data@.len() as int, data.num_cols() as int),
        ensures
            r matches Ok(m) && {
                let k = parameters.n_clusters as nat;
                let n = data@.len();
                let fin = chain_clusters(n, merges(n, k));
                &&& m.labels@.len() == n
                &&& is_partition(fin, n)
                &&& fin.dom().len() == if n <= k {
                    n
                } else {
                    k
                }
                &&& same_cluster_same_label(fin, m.labels@, n)
                &&& forall|p: int| 0 <= p < n ==> #[trigger] m.labels@[p] < fin.dom().len()
                &&& forall|c: usize| c < fin.dom().len() ==> #[trigger] m.labels@.contains(c)
            },
    {
        let mut cache = VarianceCache::new();
        let mut matrix: Vec<Vec<Fraction>> = Vec::new();
        let (num_rows, _) = data.shape();
        let ghost rows = data@;
        let ghost nf = data.num_cols() as int;
        let ghost k = parameters.n_clusters as nat;
        let mut indices_mapping = singleton_clusters(num_rows);
        let ghost st0 = singletons(num_rows as nat);
        proof {
            lemma_singletons(num_rows as nat);
        }
        let mut i: usize = 0;
        while i < num_rows
            invariant
                i <= num_rows,
                num_rows == rows.len(),
                rows == data@,
                nf == data.num_cols(),
                sizes_fit(num_rows as int, nf),
                member_lists(indices_mapping@) == st0,
                st0 == singletons(num_rows as nat),
                is_partition(st0, num_rows as nat),
                cache.well_formed(),
                cache.holds_variances_of(rows, nf),
                matrix.len() == i,
                forall|r: int| 0 <= r < i ==> #[trigger] matrix@[r].len() == num_rows - 1 - r,
                all_zero(matrix@),
            decreases num_rows - i,
        {
            let mut row: Vec<Fraction> = Vec::new();
            let mut j: usize = i + 1;
            while j < num_rows
                invariant
                    i < num_rows,
                    i + 1 <= j <= num_rows,
                    num_rows == rows.len(),
                    rows == data@,
                    nf == data.num_cols(),
                    sizes_fit(num_rows as int, nf),
                    member_lists(indices_mapping@) == st0,
                    st0 == singletons(num_rows as nat),
                    is_partition(st0, num_rows as nat),
                    cache.well_formed(),
                    cache.holds_variances_of(rows, nf),
                    row.len() == j - i - 1,
                    zero_row(row@),
                decreases num_rows - j,
            {
                proof {
                    assert(st0.contains_key(i) && st0.contains_key(j));
                    lemma_pair_size(st0, i, j, num_rows as nat);
                    lemma_sizes_fit_smaller((st0[i].len() + st0[j].len()) as int, num_rows as int, nf);
                    assert forall|x: int| 0 <= x < st0[i].len() implies #[trigger] st0[i][x] < rows.len() by {}
                    assert forall|x: int| 0 <= x < st0[j].len() implies #[trigger] st0[j][x] < rows.len() by {}
                }
                let distance = Self::compute_distance(
                    data,
                    &parameters.linkage,
                    &mut cache,
                    indices_mapping.get(&i).unwrap(),
                    indices_mapping.get(&j).unwrap(),
                );
                row.push(distance);
                j = j + 1;
            }
            let ghost before = matrix@;
            let ghost row_v = row@;
            matrix.push(row);
            proof {
                let m = matrix@;
                assert forall|a: int| 0 <= a < m.len() implies #[trigger] zero_row(m[a]@) by {
                    if a < i {
                        assert(m[a] == before[a]);
                    } else {
                        assert(m[a]@ == row_v);
                    }
                }
                assert(all_zero(m));
            }
            i = i + 1;
        }
        let ghost mut merged_so_far: nat = 0;
        proof {
            lemma_chain_start(num_rows as nat);
            assert(member_lists(indices_mapping@).dom() == indices_mapping@.dom());
        }
        while indices_mapping.len() > parameters.n_clusters
            invariant
                num_rows == rows.len(),
                rows == data@,
                nf == data.num_cols(),
                k == parameters.n_clusters,
                k > 0 || num_rows == 0,
                sizes_fit(num_rows as int, nf),
                matrix.len() == num_rows,
                forall|r: int| 0 <= r < matrix.len() ==> #[trigger] matrix@[r].len() == matrix.len() - 1 - r,
                all_zero(matrix@),
                member_lists(indices_mapping@) == chain_clusters(num_rows as nat, merged_so_far),
                is_partition(member_lists(indices_mapping@), num_rows as nat),
                indices_mapping@.dom().len() + merged_so_far == num_rows,
                num_rows == 0 || merged_so_far < num_rows,
                num_rows <= k ==> merged_so_far == 0,
                num_rows > k ==> num_rows - merged_so_far >= k,
                cache.well_formed(),
                cache.holds_variances_of(rows, nf),
            decreases indices_mapping@.dom().len(),
        {
            let ghost st = member_lists(indices_mapping@);
            let ghost t = merged_so_far;
            proof {
                assert(st.dom() == indices_mapping@.dom());
                lemma_has_candidate(st);
                lemma_chain_step(num_rows as nat, t);
                assert(is_candidate(st, 0, (t + 1) as usize));
            }
            let (i, j) = Self::find_closest_pair(&matrix, &indices_mapping);
            proof {
                if i != 0 {
                    assert(lex_before(0, (t + 1) as int, i as int, j as int));
                }
                if j != t + 1 {
                    assert(st.contains_key(j));
                    assert(lex_before(0, (t + 1) as int, i as int, j as int));
                }
                lemma_merge_partition(st, i, j, num_rows as nat);
            }
            Self::merge_pair(data, &parameters.linkage, &mut cache, &mut matrix, &mut indices_mapping, i, j);
            proof {
                merged_so_far = merged_so_far + 1;
                assert(member_lists(indices_mapping@).dom() == indices_mapping@.dom());
            }
        }
        let ghost fin = member_lists(indices_mapping@);
        proof {
            assert(fin.dom() =~= indices_mapping@.dom());
            assert(merged_so_far == merges(num_rows as nat, k));
        }
        let labels = labels_in_key_order(&indices_mapping, num_rows);
        Ok(AgglomerativeClustering { labels })
    }
}

} // verus!
