//! Agglomerative clustering with Ward's linkage, computed exactly.
//!
//! Each sample starts in a cluster of its own. At every step the two clusters whose merge
//! increases the total within-cluster sum of squared distances to the cluster means the
//! least are merged (the first such pair in row-major order of cluster ids on a tie),
//! until `n_clusters` clusters remain. The merged cluster keeps the smaller id. Labels
//! number the remaining clusters in increasing order of id.

use crate::cluster::ward::{
    col_sum, dev_sum, frac_less, frac_ok, lemma_frac_lt_le, lemma_merge_term_bound,
    lemma_scaled_sse_factor, lemma_sse_times_n_bound, lemma_ward_num_empty,
    lemma_ward_num_from_variances, lemma_ward_num_nonneg, lemma_ward_num_scale,
    lemma_ward_symmetric, members_in_range, rows_have_width, rows_scaled, scaled_sse, sse_times_n,
    variance_den, variance_num, ward_den, ward_num, Fraction, sizes_fit, lemma_sizes_fit_smaller,
    lemma_sizes_fit_bounds,
    VarianceCache,
};
use crate::cluster::partition::{
    cluster_of, ids_are_smallest_members, is_candidate, is_partition, lemma_cluster_of,
    lemma_has_candidate, lemma_merge_ids, lemma_merge_partition, lemma_pair_size, lemma_rank_all,
    lemma_rank_lt, lemma_rank_onto, lemma_singletons, lemma_singletons_ids, lex_before,
    member_lists, merge_clusters, rank_below, same_cluster_same_label, singleton_clusters,
    singletons,
};
use crate::error::Failed;
use crate::linalg::DenseMatrix;
use std::collections::HashMap;
use vstd::prelude::*;

verus! {

broadcast use {vstd::std_specs::hash::group_hash_axioms, vstd::map::group_map_axioms};

/// The linkage criterion, i.e. which distance between clusters decides the merges.
pub enum Linkage {
    /// Ward's minimum variance method: merge the pair whose union increases the sum of
    /// squared distances to the cluster means the least.
    Ward,
}

/// Parameters of the clustering.
pub struct AgglomerativeClusteringParameters {
    /// The number of clusters to find.
    pub n_clusters: usize,
    /// The linkage criterion to use.
    pub linkage: Linkage,
}

impl AgglomerativeClusteringParameters {
    /// Sets the number of clusters.
    pub fn with_n_clusters(self, n_clusters: usize) -> (r: Self)
        ensures
            r.n_clusters == n_clusters,
            r.linkage == self.linkage,
    {
        let mut s = self;
        s.n_clusters = n_clusters;
        s
    }

    /// Sets the linkage criterion.
    pub fn with_linkage(self, linkage: Linkage) -> (r: Self)
        ensures
            r.n_clusters == self.n_clusters,
            r.linkage == linkage,
    {
        let mut s = self;
        s.linkage = linkage;
        s
    }
}

/// The result of a clustering: `labels[i]` is the cluster of the `i`-th sample.
pub struct AgglomerativeClustering {
    pub labels: Vec<usize>,
}

// ---------------------------------------------------------------------------------------
// The clustering that `fit` computes
// ---------------------------------------------------------------------------------------

/// Ward's distance between clusters `i1` and `j1` is smaller than between `i2` and `j2`.
pub open spec fn closer(
    rows: Seq<Seq<i32>>,
    nf: int,
    st: Map<usize, Seq<usize>>,
    i1: usize,
    j1: usize,
    i2: usize,
    j2: usize,
) -> bool {
    ward_num(rows, st[i1], st[j1], nf) * ward_den(st[i2], st[j2]) < ward_num(
        rows,
        st[i2],
        st[j2],
        nf,
    ) * ward_den(st[i1], st[j1])
}

/// `(i, j)` is the pair that Ward's linkage merges next: no pair is closer, and every pair
/// before it in row-major order is farther.
pub open spec fn is_closest_pair(
    rows: Seq<Seq<i32>>,
    nf: int,
    st: Map<usize, Seq<usize>>,
    i: usize,
    j: usize,
) -> bool {
    &&& is_candidate(st, i, j)
    &&& forall|a: usize, b: usize| #[trigger]
        is_candidate(st, a, b) ==> !closer(rows, nf, st, a, b, i, j)
    &&& forall|a: usize, b: usize| #[trigger]
        is_candidate(st, a, b) && lex_before(a as int, b as int, i as int, j as int) ==> closer(
            rows,
            nf,
            st,
            i,
            j,
            a,
            b,
        )
}

/// The pair merged next.
pub open spec fn closest_pair(rows: Seq<Seq<i32>>, nf: int, st: Map<usize, Seq<usize>>) -> (
    usize,
    usize,
) {
    choose|p: (usize, usize)| is_closest_pair(rows, nf, st, p.0, p.1)
}

/// Merges closest pairs, at most `fuel` times, while more than `k` clusters remain.
pub open spec fn ward_run(
    rows: Seq<Seq<i32>>,
    nf: int,
    k: nat,
    st: Map<usize, Seq<usize>>,
    fuel: nat,
) -> Map<usize, Seq<usize>>
    decreases fuel,
{
    if fuel == 0 || st.dom().len() <= k {
        st
    } else {
        let p = closest_pair(rows, nf, st);
        ward_run(rows, nf, k, merge_clusters(st, p.0, p.1), (fuel - 1) as nat)
    }
}

/// The clusters that Ward's linkage leaves when it stops at `k` clusters, starting from one
/// cluster per row of `rows`.
pub open spec fn ward_clusters(rows: Seq<Seq<i32>>, nf: int, k: nat) -> Map<usize, Seq<usize>> {
    ward_run(rows, nf, k, singletons(rows.len()), rows.len())
}

/// The label of sample `p`: the rank of its cluster's id among the ids that remain.
pub open spec fn ward_label(rows: Seq<Seq<i32>>, nf: int, k: nat, p: usize) -> nat {
    let fin = ward_clusters(rows, nf, k);
    rank_below(fin.dom(), cluster_of(fin, p) as int)
}

/// At most one pair is the closest.
pub proof fn lemma_closest_pair_unique(
    rows: Seq<Seq<i32>>,
    nf: int,
    st: Map<usize, Seq<usize>>,
    i1: usize,
    j1: usize,
    i2: usize,
    j2: usize,
)
    requires
        is_closest_pair(rows, nf, st, i1, j1),
        is_closest_pair(rows, nf, st, i2, j2),
    ensures
        i1 == i2 && j1 == j2,
{
    if lex_before(i1 as int, j1 as int, i2 as int, j2 as int) {
        assert(is_candidate(st, i1, j1));
    } else if lex_before(i2 as int, j2 as int, i1 as int, j1 as int) {
        assert(is_candidate(st, i2, j2));
    }
}

/// Multiplying every coordinate by the same positive number does not change which pair
/// Ward's linkage merges next: all distances are multiplied by the square of that number.
pub proof fn lemma_next_merge_scale_invariant(
    rows: Seq<Seq<i32>>,
    rows2: Seq<Seq<i32>>,
    c: int,
    nf: int,
    st: Map<usize, Seq<usize>>,
    i: usize,
    j: usize,
)
    requires
        c > 0,
        rows_scaled(rows, rows2, c),
        rows_have_width(rows, nf),
        is_partition(st, rows.len()),
    ensures
        is_closest_pair(rows2, nf, st, i, j) == is_closest_pair(rows, nf, st, i, j),
{
    assert forall|a1: usize, b1: usize, a2: usize, b2: usize|
        is_candidate(st, a1, b1) && is_candidate(st, a2, b2) implies closer(
            rows2,
            nf,
            st,
            a1,
            b1,
            a2,
            b2,
        ) == closer(rows, nf, st, a1, b1, a2, b2) by {
        lemma_members_in_range(rows, st, a1);
        lemma_members_in_range(rows, st, b1);
        lemma_members_in_range(rows, st, a2);
        lemma_members_in_range(rows, st, b2);
        lemma_ward_num_scale(rows, rows2, c, st[a1], st[b1], nf, nf);
        lemma_ward_num_scale(rows, rows2, c, st[a2], st[b2], nf, nf);
        let w1 = ward_num(rows, st[a1], st[b1], nf);
        let w2 = ward_num(rows, st[a2], st[b2], nf);
        let d1 = ward_den(st[a1], st[b1]);
        let d2 = ward_den(st[a2], st[b2]);
        let cc = c * c;
        assert(cc > 0) by (nonlinear_arith)
            requires
                c > 0,
                cc == c * c,
        ;
        assert((cc * w1 * d2 < cc * w2 * d1) == (w1 * d2 < w2 * d1)) by (nonlinear_arith)
            requires
                cc > 0,
        ;
    }
}

/// The members of a cluster of a partition of the rows name rows.
proof fn lemma_members_in_range(rows: Seq<Seq<i32>>, st: Map<usize, Seq<usize>>, k: usize)
    requires
        is_partition(st, rows.len()),
        st.contains_key(k),
    ensures
        members_in_range(rows, st[k]),
{
    assert forall|t: int| 0 <= t < st[k].len() implies #[trigger] st[k][t] < rows.len() by {}
}

/// Ward's denominators are positive.
proof fn lemma_ward_den_pos(a: Seq<usize>, b: Seq<usize>)
    ensures
        ward_den(a, b) > 0,
{
    if a.len() > 0 && b.len() > 0 {
        let (na, nb) = (a.len() as int, b.len() as int);
        assert(na * nb * (na + nb) > 0) by (nonlinear_arith)
            requires
                na > 0,
                nb > 0,
        ;
    }
}

/// Chains of comparisons between fractions `w / d` with positive denominators.
proof fn lemma_fraction_chain(w1: int, d1: int, w2: int, d2: int, w3: int, d3: int)
    requires
        d1 > 0,
        d2 > 0,
        d3 > 0,
    ensures
        w1 * d2 < w2 * d1 && w2 * d3 <= w3 * d2 ==> w1 * d3 < w3 * d1,
        w1 * d2 <= w2 * d1 && w2 * d3 < w3 * d2 ==> w1 * d3 < w3 * d1,
        w1 * d2 <= w2 * d1 && w2 * d3 <= w3 * d2 ==> w1 * d3 <= w3 * d1,
{
    if w1 * d2 <= w2 * d1 && w2 * d3 <= w3 * d2 {
        assert(w1 * d2 * d3 <= w2 * d1 * d3) by (nonlinear_arith)
            requires
                w1 * d2 <= w2 * d1,
                d3 > 0,
        ;
        assert(w2 * d3 * d1 <= w3 * d2 * d1) by (nonlinear_arith)
            requires
                w2 * d3 <= w3 * d2,
                d1 > 0,
        ;
        assert(w2 * d1 * d3 == w2 * d3 * d1) by (nonlinear_arith);
        assert(w1 * d2 * d3 == w1 * d3 * d2) by (nonlinear_arith);
        assert(w3 * d2 * d1 == w3 * d1 * d2) by (nonlinear_arith);
        assert(w1 * d3 <= w3 * d1) by (nonlinear_arith)
            requires
                w1 * d3 * d2 <= w3 * d1 * d2,
                d2 > 0,
        ;
        if w1 * d2 < w2 * d1 {
            assert(w1 * d2 * d3 < w2 * d1 * d3) by (nonlinear_arith)
                requires
                    w1 * d2 < w2 * d1,
                    d3 > 0,
            ;
            assert(w1 * d3 < w3 * d1) by (nonlinear_arith)
                requires
                    w1 * d3 * d2 < w3 * d1 * d2,
                    d2 > 0,
            ;
        }
        if w2 * d3 < w3 * d2 {
            assert(w2 * d3 * d1 < w3 * d2 * d1) by (nonlinear_arith)
                requires
                    w2 * d3 < w3 * d2,
                    d1 > 0,
            ;
            assert(w1 * d3 < w3 * d1) by (nonlinear_arith)
                requires
                    w1 * d3 * d2 < w3 * d1 * d2,
                    d2 > 0,
            ;
        }
    }
}

/// The order in which Ward's linkage prefers pairs: by distance, then in row-major order.
pub open spec fn merge_order(rows: Seq<Seq<i32>>, nf: int, st: Map<usize, Seq<usize>>) -> spec_fn(
    (usize, usize),
    (usize, usize),
) -> bool {
    |p: (usize, usize), q: (usize, usize)|
        closer(rows, nf, st, p.0, p.1, q.0, q.1) || (!closer(rows, nf, st, q.0, q.1, p.0, p.1)
            && !lex_before(q.0 as int, q.1 as int, p.0 as int, p.1 as int))
}

/// `merge_order` is a total order on pairs.
proof fn lemma_merge_order_total(rows: Seq<Seq<i32>>, nf: int, st: Map<usize, Seq<usize>>)
    ensures
        vstd::relations::total_ordering(merge_order(rows, nf, st)),
{
    let r = merge_order(rows, nf, st);
    assert forall|x: (usize, usize), y: (usize, usize), z: (usize, usize)|
        #[trigger] r(x, y) && #[trigger] r(y, z) implies r(x, z) by {
        lemma_ward_den_pos(st[x.0], st[x.1]);
        lemma_ward_den_pos(st[y.0], st[y.1]);
        lemma_ward_den_pos(st[z.0], st[z.1]);
        lemma_fraction_chain(
            ward_num(rows, st[x.0], st[x.1], nf),
            ward_den(st[x.0], st[x.1]),
            ward_num(rows, st[y.0], st[y.1], nf),
            ward_den(st[y.0], st[y.1]),
            ward_num(rows, st[z.0], st[z.1], nf),
            ward_den(st[z.0], st[z.1]),
        );
    }
    assert(vstd::relations::transitive(r));
    assert(vstd::relations::reflexive(r));
    assert(vstd::relations::antisymmetric(r));
    assert(vstd::relations::strongly_connected(r));
}

/// With at least two clusters of a partition, a closest pair exists.
pub proof fn lemma_closest_pair_exists(
    rows: Seq<Seq<i32>>,
    nf: int,
    st: Map<usize, Seq<usize>>,
    n: nat,
)
    requires
        is_partition(st, n),
        n <= usize::MAX + 1,
        st.dom().len() >= 2,
    ensures
        is_closest_pair(rows, nf, st, closest_pair(rows, nf, st).0, closest_pair(rows, nf, st).1),
{
    let r = merge_order(rows, nf, st);
    let cands = Set::new(|p: (usize, usize)| is_candidate(st, p.0, p.1));
    crate::cluster::partition::lemma_pairs_below_finite(n);
    assert(cands.subset_of(crate::cluster::partition::pairs_below(n)));
    vstd::set_lib::lemma_set_subset_finite(crate::cluster::partition::pairs_below(n), cands);
    lemma_has_candidate(st);
    let (a, b) = choose|a: usize, b: usize| #[trigger] is_candidate(st, a, b);
    assert(cands.contains((a, b)));
    assert(cands.len() > 0);
    lemma_merge_order_total(rows, nf, st);
    cands.find_unique_minimal_ensures(r);
    let m = cands.find_unique_minimal(r);
    assert(is_candidate(st, m.0, m.1));
    assert forall|x: usize, y: usize| #[trigger] is_candidate(st, x, y) implies !closer(
        rows,
        nf,
        st,
        x,
        y,
        m.0,
        m.1,
    ) by {
        assert(cands.contains((x, y)));
        if closer(rows, nf, st, x, y, m.0, m.1) {
            assert(r((x, y), m));
            assert(r(m, (x, y)));
        }
    }
    assert forall|x: usize, y: usize|
        #[trigger] is_candidate(st, x, y) && lex_before(x as int, y as int, m.0 as int, m.1 as int)
            implies closer(rows, nf, st, m.0, m.1, x, y) by {
        assert(cands.contains((x, y)));
        if !closer(rows, nf, st, m.0, m.1, x, y) {
            assert(r((x, y), m));
            assert(r(m, (x, y)));
        }
    }
    assert(is_closest_pair(rows, nf, st, m.0, m.1));
}

/// Multiplying every coordinate by the same positive number leaves the clusters that Ward's
/// linkage ends with unchanged.
pub proof fn lemma_ward_clusters_scale_invariant(
    rows: Seq<Seq<i32>>,
    rows2: Seq<Seq<i32>>,
    c: int,
    nf: int,
    k: nat,
)
    requires
        c > 0,
        k > 0,
        rows_scaled(rows, rows2, c),
        rows_have_width(rows, nf),
        rows.len() <= usize::MAX + 1,
    ensures
        ward_clusters(rows2, nf, k) == ward_clusters(rows, nf, k),
{
    lemma_singletons(rows.len());
    lemma_ward_run_scale_invariant(rows, rows2, c, nf, k, singletons(rows.len()), rows.len());
}

proof fn lemma_ward_run_scale_invariant(
    rows: Seq<Seq<i32>>,
    rows2: Seq<Seq<i32>>,
    c: int,
    nf: int,
    k: nat,
    st: Map<usize, Seq<usize>>,
    fuel: nat,
)
    requires
        c > 0,
        k > 0,
        rows_scaled(rows, rows2, c),
        rows_have_width(rows, nf),
        rows.len() <= usize::MAX + 1,
        is_partition(st, rows.len()),
    ensures
        ward_run(rows2, nf, k, st, fuel) == ward_run(rows, nf, k, st, fuel),
    decreases fuel,
{
    if fuel > 0 && st.dom().len() > k {
        lemma_closest_pair_exists(rows, nf, st, rows.len());
        let p = closest_pair(rows, nf, st);
        lemma_next_merge_scale_invariant(rows, rows2, c, nf, st, p.0, p.1);
        assert(is_closest_pair(rows2, nf, st, p.0, p.1));
        let p2 = closest_pair(rows2, nf, st);
        assert(is_closest_pair(rows2, nf, st, p2.0, p2.1));
        lemma_closest_pair_unique(rows2, nf, st, p.0, p.1, p2.0, p2.1);
        lemma_merge_partition(st, p.0, p.1, rows.len());
        lemma_ward_run_scale_invariant(
            rows,
            rows2,
            c,
            nf,
            k,
            merge_clusters(st, p.0, p.1),
            (fuel - 1) as nat,
        );
    }
}

/// Merging closest pairs keeps a partition of the samples in which every cluster is named
/// after its smallest member.
proof fn lemma_ward_run_partition(
    rows: Seq<Seq<i32>>,
    nf: int,
    k: nat,
    st: Map<usize, Seq<usize>>,
    n: nat,
    fuel: nat,
)
    requires
        k > 0,
        n <= usize::MAX + 1,
        is_partition(st, n),
        ids_are_smallest_members(st),
    ensures
        is_partition(ward_run(rows, nf, k, st, fuel), n),
        ids_are_smallest_members(ward_run(rows, nf, k, st, fuel)),
    decreases fuel,
{
    if fuel > 0 && st.dom().len() > k {
        lemma_closest_pair_exists(rows, nf, st, n);
        let p = closest_pair(rows, nf, st);
        lemma_merge_partition(st, p.0, p.1, n);
        lemma_merge_ids(st, p.0, p.1);
        lemma_ward_run_partition(rows, nf, k, merge_clusters(st, p.0, p.1), n, (fuel - 1) as nat);
    }
}

/// In the final clustering, a cluster's id is the cluster of that sample.
proof fn lemma_id_is_own_cluster(fin: Map<usize, Seq<usize>>, n: nat, c: usize)
    requires
        is_partition(fin, n),
        ids_are_smallest_members(fin),
        fin.contains_key(c),
    ensures
        c < n,
        cluster_of(fin, c) == c,
{
    lemma_cluster_of(fin, n, c);
}

/// Clusters are numbered in the order in which their first sample appears: sample 0 has
/// label 0, and the label of every later sample is at most one more than the label of some
/// sample before it, i.e. at most one more than the largest label before it.
pub proof fn lemma_ward_labels_first_appearance(rows: Seq<Seq<i32>>, nf: int, k: nat)
    requires
        k > 0,
        rows.len() <= usize::MAX + 1,
    ensures
        rows.len() > 0 ==> ward_label(rows, nf, k, 0) == 0,
        forall|i: usize|
            #![trigger ward_label(rows, nf, k, i)]
            0 < i < rows.len() ==> exists|j: usize|
                #![trigger ward_label(rows, nf, k, j)]
                j < i && ward_label(rows, nf, k, i) <= ward_label(rows, nf, k, j) + 1,
{
    let n = rows.len();
    let fin = ward_clusters(rows, nf, k);
    lemma_singletons(n);
    lemma_singletons_ids(n);
    lemma_ward_run_partition(rows, nf, k, singletons(n), n, n);
    if n > 0 {
        lemma_cluster_of(fin, n, 0);
        let c = cluster_of(fin, 0);
        assert(c == 0);
    }
    assert forall|i: usize| #![trigger ward_label(rows, nf, k, i)] 0 < i < n implies exists|j: usize|
        #![trigger ward_label(rows, nf, k, j)]
        j < i && ward_label(rows, nf, k, i) <= ward_label(rows, nf, k, j) + 1 by {
        lemma_cluster_of(fin, n, i);
        let c = cluster_of(fin, i);
        let t = choose|t: int| 0 <= t < fin[c].len() && fin[c][t] == i;
        assert(c <= fin[c][t]);
        if c < i {
            lemma_id_is_own_cluster(fin, n, c);
            assert(ward_label(rows, nf, k, c) == ward_label(rows, nf, k, i));
        } else {
            let r = rank_below(fin.dom(), i as int);
            if r == 0 {
                assert(ward_label(rows, nf, k, i) <= ward_label(rows, nf, k, 0) + 1);
            } else {
                lemma_rank_onto(fin.dom(), i as int, (r - 1) as nat);
                let key = choose|key: usize|
                    key < i && fin.dom().contains(key) && #[trigger] rank_below(fin.dom(), key as int)
                        == (r - 1) as nat;
                lemma_id_is_own_cluster(fin, n, key);
                assert(ward_label(rows, nf, k, key) + 1 == ward_label(rows, nf, k, i));
            }
        }
    }
}

/// The labels are determined by the samples, the number of features and the number of
/// clusters: two label sequences that both give every sample its `ward_label` are equal.
pub proof fn lemma_ward_labels_determined(
    rows: Seq<Seq<i32>>,
    nf: int,
    k: nat,
    a: Seq<usize>,
    b: Seq<usize>,
)
    requires
        a.len() == rows.len(),
        b.len() == rows.len(),
        forall|p: int| 0 <= p < rows.len() ==> #[trigger] a[p] == ward_label(rows, nf, k, p as usize),
        forall|p: int| 0 <= p < rows.len() ==> #[trigger] b[p] == ward_label(rows, nf, k, p as usize),
    ensures
        a == b,
{
    assert(a =~= b);
}

/// The entry of the upper-triangular matrix of distances for clusters `i < j`.
pub open spec fn entry(matrix: Seq<Vec<Fraction>>, i: usize, j: usize) -> Fraction {
    matrix[i as int]@[j - i - 1]
}

/// The distance matrix holds Ward's distance for every pair of present clusters.
pub open spec fn distances_hold(
    rows: Seq<Seq<i32>>,
    nf: int,
    st: Map<usize, Seq<usize>>,
    matrix: Seq<Vec<Fraction>>,
) -> bool {
    forall|i: usize, j: usize| #[trigger]
        is_candidate(st, i, j) ==> entry(matrix, i, j).num == ward_num(rows, st[i], st[j], nf)
            && entry(matrix, i, j).den == ward_den(st[i], st[j]) && frac_ok(entry(matrix, i, j))
}

/// The distance matrix has one row per sample, row `i` having `n - 1 - i` entries.
pub open spec fn triangular(matrix: Seq<Vec<Fraction>>, n: nat) -> bool {
    &&& matrix.len() == n
    &&& forall|i: int| 0 <= i < n ==> #[trigger] matrix[i].len() == n - 1 - i
}

/// Progress of the search for the closest pair, once every pair before `(pi, pj)` has been
/// looked at: `found` tells whether a pair was seen, and `(bi, bj)` is the best one seen.
pub open spec fn search_state(
    rows: Seq<Seq<i32>>,
    nf: int,
    st: Map<usize, Seq<usize>>,
    found: bool,
    bi: usize,
    bj: usize,
    pi: int,
    pj: int,
) -> bool {
    if !found {
        forall|a: usize, b: usize| #[trigger]
            is_candidate(st, a, b) ==> !lex_before(a as int, b as int, pi, pj)
    } else {
        &&& is_candidate(st, bi, bj)
        &&& lex_before(bi as int, bj as int, pi, pj)
        &&& forall|a: usize, b: usize| #[trigger]
            is_candidate(st, a, b) && lex_before(a as int, b as int, pi, pj) ==> !closer(
                rows,
                nf,
                st,
                a,
                b,
                bi,
                bj,
            ) && (lex_before(a as int, b as int, bi as int, bj as int) ==> closer(
                rows,
                nf,
                st,
                bi,
                bj,
                a,
                b,
            ))
    }
}

/// Scans the distance matrix in row-major order over the present clusters and returns the
/// first pair at the smallest distance.
fn find_closest_pair(
    matrix: &Vec<Vec<Fraction>>,
    indices_mapping: &HashMap<usize, Vec<usize>>,
    Ghost(rows): Ghost<Seq<Seq<i32>>>,
    Ghost(nf): Ghost<int>,
) -> (r: (usize, usize))
    requires
        triangular(matrix@, matrix.len() as nat),
        is_partition(member_lists(indices_mapping@), matrix.len() as nat),
        member_lists(indices_mapping@).dom().len() >= 2,
        distances_hold(rows, nf, member_lists(indices_mapping@), matrix@),
    ensures
        is_closest_pair(rows, nf, member_lists(indices_mapping@), r.0, r.1),
{
    let ghost st = member_lists(indices_mapping@);
    let n = matrix.len();
    let mut found = false;
    let mut best = Fraction { num: 0, den: 1 };
    let mut bi: usize = 0;
    let mut bj: usize = 0;
    let mut i: usize = 0;
    while i < n
        invariant
            n == matrix.len(),
            triangular(matrix@, n as nat),
            st == member_lists(indices_mapping@),
            is_partition(st, n as nat),
            distances_hold(rows, nf, st, matrix@),
            i <= n,
            search_state(rows, nf, st, found, bi, bj, i as int, i + 1),
            found ==> best == entry(matrix@, bi, bj),
        decreases n - i,
    {
        if indices_mapping.contains_key(&i) {
            let row_len = matrix[i].len();
            let mut j: usize = 0;
            while j < row_len
                invariant
                    n == matrix.len(),
                    triangular(matrix@, n as nat),
                    st == member_lists(indices_mapping@),
                    is_partition(st, n as nat),
                    distances_hold(rows, nf, st, matrix@),
                    i < n,
                    st.contains_key(i),
                    row_len == n - 1 - i,
                    row_len == matrix@[i as int].len(),
                    j <= row_len,
                    search_state(rows, nf, st, found, bi, bj, i as int, i + 1 + j),
                    found ==> best == entry(matrix@, bi, bj),
                decreases row_len - j,
            {
                let jo = i + 1 + j;
                if indices_mapping.contains_key(&jo) {
                    let d = matrix[i][j];
                    proof {
                        assert(is_candidate(st, i, jo));
                        assert(entry(matrix@, i, jo) == d);
                    }
                    if !found || frac_less(&d, &best) {
                        proof {
                            if found {
                                assert forall|a: usize, b: usize|
                                    #[trigger] is_candidate(st, a, b) && lex_before(
                                        a as int,
                                        b as int,
                                        i as int,
                                        jo + 1,
                                    ) implies !closer(rows, nf, st, a, b, i, jo) && (lex_before(
                                    a as int,
                                    b as int,
                                    i as int,
                                    jo as int,
                                ) ==> closer(rows, nf, st, i, jo, a, b)) by {
                                    if a == i && b == jo {
                                    } else {
                                        let e = entry(matrix@, a, b);
                                        lemma_frac_lt_le(d, best, e);
                                    }
                                }
                            }
                        }
                        found = true;
                        best = d;
                        bi = i;
                        bj = jo;
                    } else {
                        proof {
                            assert forall|a: usize, b: usize|
                                #[trigger] is_candidate(st, a, b) && lex_before(
                                    a as int,
                                    b as int,
                                    i as int,
                                    jo + 1,
                                ) implies !closer(rows, nf, st, a, b, bi, bj) && (lex_before(
                                a as int,
                                b as int,
                                bi as int,
                                bj as int,
                            ) ==> closer(rows, nf, st, bi, bj, a, b)) by {
                                if a == i && b == jo {
                                } else {
                                    assert(lex_before(a as int, b as int, i as int, jo as int));
                                }
                            }
                        }
                    }
                } else {
                    proof {
                        assert forall|a: usize, b: usize| #[trigger]
                            is_candidate(st, a, b) && lex_before(a as int, b as int, i as int, jo + 1)
                                implies lex_before(a as int, b as int, i as int, jo as int) by {
                            if a == i && b == jo {
                                assert(st.contains_key(jo));
                            }
                        }
                    }
                }
                j = j + 1;
            }
            proof {
                assert forall|a: usize, b: usize| #[trigger]
                    is_candidate(st, a, b) && lex_before(a as int, b as int, i + 1, i + 2)
                        implies lex_before(a as int, b as int, i as int, i + 1 + j) by {
                    assert(b < n);
                }
            }
        } else {
            proof {
                assert forall|a: usize, b: usize| #[trigger]
                    is_candidate(st, a, b) && lex_before(a as int, b as int, i + 1, i + 2)
                        implies lex_before(a as int, b as int, i as int, i + 1) by {
                    if a == i {
                        assert(st.contains_key(i));
                    }
                }
            }
        }
        i = i + 1;
    }
    proof {
        lemma_has_candidate(st);
        assert forall|a: usize, b: usize| #[trigger] is_candidate(st, a, b) implies lex_before(
            a as int,
            b as int,
            n as int,
            n + 1,
        ) by {
            assert(a < n);
        }
        assert(found);
    }
    (bi, bj)
}

/// Ward's distance between clusters `a` and `b` of `st`, as held in entry `(a, b)`.
pub open spec fn entry_holds(
    rows: Seq<Seq<i32>>,
    nf: int,
    st: Map<usize, Seq<usize>>,
    e: Fraction,
    a: usize,
    b: usize,
) -> bool {
    e.num == ward_num(rows, st[a], st[b], nf) && e.den == ward_den(st[a], st[b]) && frac_ok(e)
}

/// Merges cluster `j` into cluster `i` and brings the distances of cluster `i` to every
/// other present cluster up to date in the matrix.
fn merge_pair(
    data: &DenseMatrix,
    linkage: &Linkage,
    cache: &mut VarianceCache,
    matrix: &mut Vec<Vec<Fraction>>,
    indices_mapping: &mut HashMap<usize, Vec<usize>>,
    i: usize,
    j: usize,
)
    requires
        old(matrix).len() == data@.len(),
        sizes_fit(data@.len() as int, data.num_cols() as int),
        forall|r: int| 0 <= r < data@.len() ==> #[trigger] data@[r].len() == data.num_cols(),
        triangular(old(matrix)@, data@.len()),
        is_partition(member_lists(old(indices_mapping)@), data@.len()),
        is_candidate(member_lists(old(indices_mapping)@), i, j),
        distances_hold(
            data@,
            data.num_cols() as int,
            member_lists(old(indices_mapping)@),
            old(matrix)@,
        ),
        old(cache).well_formed(),
        old(cache).holds_variances_of(data@, data.num_cols() as int),
    ensures
        member_lists(final(indices_mapping)@) == merge_clusters(
            member_lists(old(indices_mapping)@),
            i,
            j,
        ),
        triangular(final(matrix)@, data@.len()),
        distances_hold(
            data@,
            data.num_cols() as int,
            member_lists(final(indices_mapping)@),
            final(matrix)@,
        ),
        final(cache).well_formed(),
        final(cache).holds_variances_of(data@, data.num_cols() as int),
{
    let ghost rows = data@;
    let ghost nf = data.num_cols() as int;
    let ghost n = data@.len();
    let ghost st = member_lists(indices_mapping@);
    let ghost merged = merge_clusters(st, i, j);
    let ghost old_matrix = matrix@;
    proof {
        lemma_merge_partition(st, i, j, n);
    }
    let cluster1_indices = indices_mapping.remove(&i).unwrap();
    let cluster2_indices = indices_mapping.remove(&j).unwrap();
    let ghost rest = indices_mapping@;
    proof {
        assert(cluster1_indices@ == st[i]);
        assert(cluster2_indices@ == st[j]);
        assert forall|k: usize| #[trigger] rest.contains_key(k) <==> merged.contains_key(k) && k != i by {}
        assert forall|k: usize| #[trigger] rest.contains_key(k) implies rest[k]@ == merged[k] by {}
    }
    cache.remove(&cluster1_indices);
    cache.remove(&cluster2_indices);
    let mut combined_cluster_indices = cluster1_indices;
    let mut tail = cluster2_indices;
    combined_cluster_indices.append(&mut tail);
    proof {
        assert(combined_cluster_indices@ == merged[i]);
    }
    // Distances from the merged cluster `i` to the clusters after it.
    let row_len = matrix[i].len();
    let mut new_row: Vec<Fraction> = Vec::new();
    let mut t: usize = 0;
    while t < row_len
        invariant
            rows == data@,
            nf == data.num_cols(),
            n == rows.len(),
            sizes_fit(n as int, nf),
            is_partition(merged, n),
            merged.contains_key(i),
            i < n,
            row_len == n - 1 - i,
            t <= row_len,
            indices_mapping@ == rest,
            forall|k: usize| #[trigger] rest.contains_key(k) <==> merged.contains_key(k) && k != i,
            forall|k: usize| #[trigger] rest.contains_key(k) ==> rest[k]@ == merged[k],
            combined_cluster_indices@ == merged[i],
            cache.well_formed(),
            cache.holds_variances_of(rows, nf),
            new_row.len() == t,
            forall|b: usize|
                i < b < i + 1 + t && #[trigger] merged.contains_key(b) ==> entry_holds(
                    rows,
                    nf,
                    merged,
                    new_row@[b - i - 1],
                    i,
                    b,
                ),
        decreases row_len - t,
    {
        let jo = i + 1 + t;
        match indices_mapping.get(&jo) {
            Some(other_cluster_indices) => {
                proof {
                    lemma_pair_size(merged, i, jo, n);
                    lemma_sizes_fit_smaller((merged[i].len() + merged[jo].len()) as int, n as int, nf);
                    assert(other_cluster_indices@ == merged[jo]);
                    assert(merged[i].len() + merged[jo].len() <= n);
                    assert forall|x: int| 0 <= x < merged[jo].len() implies #[trigger] merged[jo][x] < rows.len() by {}
                    assert forall|x: int| 0 <= x < merged[i].len() implies #[trigger] merged[i][x] < rows.len() by {}
                }
                let d = AgglomerativeClustering::compute_distance(
                    data,
                    linkage,
                    cache,
                    &combined_cluster_indices,
                    other_cluster_indices,
                );
                new_row.push(d);
            },
            None => {
                new_row.push(Fraction { num: 0, den: 1 });
            },
        }
        t = t + 1;
    }
    matrix.set(i, new_row);
    proof {
        assert forall|a: usize, b: usize| #[trigger]
            is_candidate(merged, a, b) && !(b == i && a >= 0) implies entry_holds(
                rows,
                nf,
                merged,
                entry(matrix@, a, b),
                a,
                b,
            ) by {
            if a == i {
                assert(entry(matrix@, a, b) == new_row@[b - i - 1]);
            } else {
                assert(matrix@[a as int] == old_matrix[a as int]);
                assert(merged[a] == st[a]);
                assert(merged[b] == st[b]);
                assert(is_candidate(st, a, b));
            }
        }
        assert forall|r: int| 0 <= r < n implies #[trigger] matrix@[r].len() == n - 1 - r by {
            if r != i {
                assert(matrix@[r] == old_matrix[r]);
            }
        }
    }
    // Distances from the clusters before `i` to the merged cluster.
    let mut g: usize = 0;
    while g < i
        invariant
            rows == data@,
            nf == data.num_cols(),
            n == rows.len(),
            sizes_fit(n as int, nf),
            is_partition(merged, n),
            merged.contains_key(i),
            i < n,
            g <= i,
            indices_mapping@ == rest,
            forall|k: usize| #[trigger] rest.contains_key(k) <==> merged.contains_key(k) && k != i,
            forall|k: usize| #[trigger] rest.contains_key(k) ==> rest[k]@ == merged[k],
            combined_cluster_indices@ == merged[i],
            cache.well_formed(),
            cache.holds_variances_of(rows, nf),
            triangular(matrix@, n),
            forall|a: usize, b: usize| #[trigger]
                is_candidate(merged, a, b) && !(b == i && a >= g) ==> entry_holds(
                    rows,
                    nf,
                    merged,
                    entry(matrix@, a, b),
                    a,
                    b,
                ),
        decreases i - g,
    {
        match indices_mapping.get(&g) {
            Some(other_cluster_indices) => {
                proof {
                    lemma_pair_size(merged, i, g, n);
                    lemma_sizes_fit_smaller((merged[i].len() + merged[g].len()) as int, n as int, nf);
                    assert(other_cluster_indices@ == merged[g]);
                    assert forall|x: int| 0 <= x < merged[g].len() implies #[trigger] merged[g][x] < rows.len() by {}
                    assert forall|x: int| 0 <= x < merged[i].len() implies #[trigger] merged[i][x] < rows.len() by {}
                }
                let d = AgglomerativeClustering::compute_distance(
                    data,
                    linkage,
                    cache,
                    &combined_cluster_indices,
                    other_cluster_indices,
                );
                proof {
                    lemma_ward_symmetric(rows, merged[i], merged[g], nf);
                }
                let ghost before = matrix@;
                proof {
                    assert(matrix@[g as int].len() == n - 1 - g);
                }
                matrix[g][i - g - 1] = d;
                proof {
                    assert(matrix@[g as int]@ == before[g as int]@.update(i - g - 1, d));
                    assert forall|r: int| 0 <= r < n implies #[trigger] matrix@[r].len() == n - 1 - r by {
                        if r != g {
                            assert(matrix@[r] == before[r]);
                        }
                        assert(before[r].len() == n - 1 - r);
                    }
                    assert forall|a: usize, b: usize| #[trigger]
                        is_candidate(merged, a, b) && !(b == i && a >= g + 1) implies entry_holds(
                            rows,
                            nf,
                            merged,
                            entry(matrix@, a, b),
                            a,
                            b,
                        ) by {
                        if a != g {
                            assert(matrix@[a as int] == before[a as int]);
                        } else if b != i {
                            assert(entry(matrix@, a, b) == entry(before, a, b));
                        }
                    }
                }
            },
            None => {
                proof {
                    assert forall|a: usize, b: usize| #[trigger]
                        is_candidate(merged, a, b) && !(b == i && a >= g + 1) implies entry_holds(
                            rows,
                            nf,
                            merged,
                            entry(matrix@, a, b),
                            a,
                            b,
                        ) by {
                        if a == g && b == i {
                            assert(rest.contains_key(g));
                        }
                    }
                }
            },
        }
        g = g + 1;
    }
    indices_mapping.insert(i, combined_cluster_indices);
    proof {
        assert(member_lists(indices_mapping@) =~= merged);
    }
}

/// Numbers the clusters of `indices_mapping` in increasing order of id and gives each
/// sample the number of its cluster.
fn assign_labels(indices_mapping: &HashMap<usize, Vec<usize>>, num_rows: usize) -> (labels: Vec<
    usize,
>)
    requires
        is_partition(member_lists(indices_mapping@), num_rows as nat),
    ensures
        labels.len() == num_rows,
        forall|p: int|
            0 <= p < num_rows ==> labels@[p] == rank_below(
                indices_mapping@.dom(),
                cluster_of(member_lists(indices_mapping@), p as usize) as int,
            ),
{
    let ghost st = member_lists(indices_mapping@);
    let ghost dom = indices_mapping@.dom();
    proof {
        assert(st.dom() == dom);
    }
    let mut labels: Vec<usize> = vec![0; num_rows];
    let mut rank: usize = 0;
    let mut key: usize = 0;
    while key < num_rows
        invariant
            st == member_lists(indices_mapping@),
            dom == indices_mapping@.dom(),
            st.dom() == dom,
            is_partition(st, num_rows as nat),
            key <= num_rows,
            rank == rank_below(dom, key as int),
            rank <= key,
            labels.len() == num_rows,
            forall|p: usize|
                p < num_rows && #[trigger] cluster_of(st, p) < key ==> labels@[p as int]
                    == rank_below(dom, cluster_of(st, p) as int),
        decreases num_rows - key,
    {
        match indices_mapping.get(&key) {
            Some(members) => {
                let mut t: usize = 0;
                while t < members.len()
                    invariant
                        st == member_lists(indices_mapping@),
                        is_partition(st, num_rows as nat),
                        st.contains_key(key),
                        members@ == st[key],
                        key < num_rows,
                        rank == rank_below(dom, key as int),
                        labels.len() == num_rows,
                        t <= members.len(),
                        forall|p: usize|
                            p < num_rows && #[trigger] cluster_of(st, p) < key ==> labels@[p as int]
                                == rank_below(dom, cluster_of(st, p) as int),
                        forall|x: int| 0 <= x < t ==> labels@[#[trigger] members@[x] as int] == rank,
                    decreases members.len() - t,
                {
                    let p = members[t];
                    proof {
                        assert(st[key][t as int] == p);
                        assert(p < num_rows);
                        lemma_cluster_of(st, num_rows as nat, p);
                        assert(st[key].contains(p));
                    }
                    labels.set(p, rank);
                    proof {
                        assert forall|q: usize|
                            q < num_rows && #[trigger] cluster_of(st, q) < key implies labels@[q as int]
                                == rank_below(dom, cluster_of(st, q) as int) by {
                            if q == p {
                                assert(cluster_of(st, p) == key);
                            }
                        }
                        assert forall|x: int| 0 <= x < t + 1 implies labels@[#[trigger] members@[x] as int]
                            == rank by {
                            if members@[x] != p {
                                assert(x < t);
                            }
                        }
                    }
                    t = t + 1;
                }
                proof {
                    assert forall|q: usize|
                        q < num_rows && #[trigger] cluster_of(st, q) < key + 1 implies labels@[q as int]
                            == rank_below(dom, cluster_of(st, q) as int) by {
                        lemma_cluster_of(st, num_rows as nat, q);
                        if cluster_of(st, q) == key {
                            assert(st[key].contains(q));
                            let x = choose|x: int| 0 <= x < st[key].len() && st[key][x] == q;
                            assert(labels@[members@[x] as int] == rank);
                        }
                    }
                }
                rank = rank + 1;
            },
            None => {
                proof {
                    assert forall|q: usize|
                        q < num_rows && #[trigger] cluster_of(st, q) < key + 1 implies labels@[q as int]
                            == rank_below(dom, cluster_of(st, q) as int) by {
                        lemma_cluster_of(st, num_rows as nat, q);
                    }
                }
            },
        }
        key = key + 1;
    }
    proof {
        assert forall|p: int| 0 <= p < num_rows implies labels@[p] == rank_below(
            dom,
            cluster_of(st, p as usize) as int,
        ) by {
            lemma_cluster_of(st, num_rows as nat, p as usize);
        }
    }
    labels
}

/// The member of `c1 ++ c2` at position `t`.
fn member_at(c1: &Vec<usize>, c2: &Vec<usize>, t: usize) -> (p: usize)
    requires
        t < c1.len() + c2.len(),
    ensures
        p == (c1@ + c2@)[t as int],
{
    if t < c1.len() {
        c1[t]
    } else {
        c2[t - c1.len()]
    }
}

impl AgglomerativeClustering {
    /// The variance of the cluster made of the samples `cluster1_indices` followed by
    /// `cluster2_indices` (the second list may be empty): the sum, over its members, of the
    /// squared euclidean distance to the cluster's mean, returned as the exact fraction
    /// `scaled_sse / n^2` (`0 / 1` for an empty cluster).
    pub fn compute_cluster_variance(
        data: &DenseMatrix,
        cluster1_indices: &Vec<usize>,
        cluster2_indices: &Vec<usize>,
    ) -> (r: Fraction)
        requires
            members_in_range(data@, cluster1_indices@),
            members_in_range(data@, cluster2_indices@),
            sizes_fit(cluster1_indices.len() + cluster2_indices.len(), data.num_cols() as int),
        ensures
            r.num == variance_num(data@, cluster1_indices@ + cluster2_indices@, data.num_cols() as int),
            r.den == variance_den(cluster1_indices@ + cluster2_indices@),
    {
        let (nrows, nf) = data.shape();
        let ghost rows = data@;
        let ghost s = cluster1_indices@ + cluster2_indices@;
        proof {
            if s.len() > 0 {
                lemma_sizes_fit_bounds(s.len() as int, nf as int);
            }
        }
        let n: usize = cluster1_indices.len() + cluster2_indices.len();
        if n == 0 {
            proof {
                assert(scaled_sse(rows, s, nf as int) == 0) by {
                    lemma_scaled_sse_factor(rows, s, nf as int);
                }
            }
            return Fraction { num: 0, den: 1 };
        }
        let ghost k: int = n * n * 0x1_0000_0000_0000_0000;
        proof {
            lemma_sizes_fit_bounds(n as int, nf as int);
            let ni = n as int;
            assert(ni * k == (ni * ni * ni) * 0x1_0000_0000_0000_0000) by (nonlinear_arith)
                requires
                    k == ni * ni * 0x1_0000_0000_0000_0000,
            ;
            assert(ni * k <= 0x4000_0000_0000_0000_0000_0000_0000_0000) by (nonlinear_arith)
                requires
                    ni * k == (ni * ni * ni) * 0x1_0000_0000_0000_0000,
                    ni * ni * ni <= 0x4000_0000_0000_0000,
            ;
            assert(nf * (ni * k) <= 0x4000_0000_0000_0000_0000_0000_0000_0000) by (nonlinear_arith)
                requires
                    ni * k == (ni * ni * ni) * 0x1_0000_0000_0000_0000,
                    nf * (ni * ni * ni) <= 0x4000_0000_0000_0000,
                    nf >= 0,
            ;
        }
        let mut total: u128 = 0;
        let mut f: usize = 0;
        while f < nf
            invariant
                nrows == rows.len(),
                forall|i: int| 0 <= i < rows.len() ==> #[trigger] rows[i].len() == nf,
                rows == data@,
                nf == data.num_cols(),
                s == cluster1_indices@ + cluster2_indices@,
                members_in_range(rows, s),
                n == s.len(),
                0 < n <= 0x20_0000,
                k == n * n * 0x1_0000_0000_0000_0000,
                n * k <= 0x4000_0000_0000_0000_0000_0000_0000_0000,
                nf * (n * k) <= 0x4000_0000_0000_0000_0000_0000_0000_0000,
                f <= nf,
                total == scaled_sse(rows, s, f as int),
                total <= f * (n * k),
            decreases nf - f,
        {
            // The sum of feature `f` over the cluster.
            let mut c: i64 = 0;
            let mut t: usize = 0;
            while t < n
                invariant
                    forall|i: int| 0 <= i < rows.len() ==> #[trigger] rows[i].len() == nf,
                    rows == data@,
                    nf == data.num_cols(),
                    s == cluster1_indices@ + cluster2_indices@,
                    members_in_range(rows, s),
                    n == s.len(),
                    n <= 0x20_0000,
                    f < nf,
                    t <= n,
                    c == col_sum(rows, s.take(t as int), f as int),
                    -(t * 0x8000_0000) <= c <= t * 0x8000_0000,
                decreases n - t,
            {
                let p = member_at(cluster1_indices, cluster2_indices, t);
                proof {
                    assert(s.take(t + 1).drop_last() =~= s.take(t as int));
                    assert(s.take(t + 1).last() == s[t as int]);
                    assert(s[t as int] < rows.len());
                }
                let x = data.get(p, f);
                c = c + x as i64;
                t = t + 1;
            }
            proof {
                assert(s.take(n as int) =~= s);
            }
            // The squared deviations from the mean, each scaled by n.
            let mut dev: u128 = 0;
            let mut t: usize = 0;
            while t < n
                invariant
                    forall|i: int| 0 <= i < rows.len() ==> #[trigger] rows[i].len() == nf,
                    rows == data@,
                    nf == data.num_cols(),
                    s == cluster1_indices@ + cluster2_indices@,
                    members_in_range(rows, s),
                    n == s.len(),
                    0 < n <= 0x20_0000,
                    k == n * n * 0x1_0000_0000_0000_0000,
                    n * k <= 0x4000_0000_0000_0000_0000_0000_0000_0000,
                    f < nf,
                    t <= n,
                    c == col_sum(rows, s, f as int),
                    -(n * 0x8000_0000) <= c <= n * 0x8000_0000,
                    dev == dev_sum(rows, s.take(t as int), f as int, n as int, c as int),
                    dev <= t * k,
                decreases n - t,
            {
                let p = member_at(cluster1_indices, cluster2_indices, t);
                proof {
                    assert(s.take(t + 1).drop_last() =~= s.take(t as int));
                    assert(s.take(t + 1).last() == s[t as int]);
                    assert(s[t as int] < rows.len());
                }
                let x = data.get(p, f);
                proof {
                    let xi = x as int;
                    let ni = n as int;
                    assert(-(ni * 0x8000_0000) <= ni * xi <= ni * 0x8000_0000) by (nonlinear_arith)
                        requires
                            -0x8000_0000 <= xi < 0x8000_0000,
                            0 < ni,
                    ;
                }
                let d: i64 = (n as i64) * (x as i64) - c;
                proof {
                    let di = d as int;
                    let ni = n as int;
                    assert(di * di <= k) by (nonlinear_arith)
                        requires
                            -(ni * 0x1_0000_0000) <= di <= ni * 0x1_0000_0000,
                            k == ni * ni * 0x1_0000_0000_0000_0000,
                    ;
                    assert(0 <= di * di) by (nonlinear_arith);
                    assert(t * k + k == (t + 1) * k) by (nonlinear_arith);
                    assert((t + 1) * k <= n * k) by (nonlinear_arith)
                        requires
                            t + 1 <= n,
                            k >= 0,
                    ;
                }
                let sq: i128 = (d as i128) * (d as i128);
                dev = dev + sq as u128;
                t = t + 1;
            }
            proof {
                assert(s.take(n as int) =~= s);
                assert(f * (n * k) + n * k == (f + 1) * (n * k)) by (nonlinear_arith);
                assert((f + 1) * (n * k) <= nf * (n * k)) by (nonlinear_arith)
                    requires
                        f + 1 <= nf,
                        n * k >= 0,
                ;
            }
            total = total + dev;
            f = f + 1;
        }
        proof {
            assert((n as int) * (n as int) <= 0x400_0000_0000) by (nonlinear_arith)
                requires
                    n <= 0x20_0000,
            ;
        }
        Fraction { num: total, den: (n as u128) * (n as u128) }
    }

    /// The variance of the cluster `indices`, taken from `cache` when it holds it, else
    /// computed and recorded there.
    pub(crate) fn cached_variance(data: &DenseMatrix, cache: &mut VarianceCache, indices: &Vec<usize>) -> (r:
        Fraction)
        requires
            members_in_range(data@, indices@),
            sizes_fit(indices.len() as int, data.num_cols() as int),
            old(cache).well_formed(),
            old(cache).holds_variances_of(data@, data.num_cols() as int),
        ensures
            r.num == variance_num(data@, indices@, data.num_cols() as int),
            r.den == variance_den(indices@),
            final(cache).well_formed(),
            final(cache).holds_variances_of(data@, data.num_cols() as int),
            final(cache).contains(indices@),
            forall|k: Seq<usize>| #[trigger]
                final(cache).contains(k) <==> (old(cache).contains(k) || k == indices@),
    {
        let ghost nf = data.num_cols() as int;
        match cache.get(indices) {
            Some(v) => {
                proof {
                    assert(cache.holds_variances_of(data@, nf));
                }
                v
            },
            None => {
                let empty: Vec<usize> = Vec::new();
                let v = Self::compute_cluster_variance(data, indices, &empty);
                proof {
                    assert(indices@ + empty@ =~= indices@);
                }
                let key = indices.clone();
                proof {
                    assert(key@ =~= indices@);
                }
                cache.insert(key, v);
                v
            },
        }
    }

    /// The distance between two clusters under `linkage`. For Ward's linkage it is the
    /// increase of the variance caused by merging them,
    /// `variance(c1 ++ c2) - variance(c1) - variance(c2)`, computed exactly; the variances of
    /// the two clusters are taken from `cache` or computed and recorded there. The fraction
    /// returned is `ward_num / ward_den` (`0 / 1` when a cluster is empty).
    pub fn compute_distance(
        data: &DenseMatrix,
        linkage: &Linkage,
        cache: &mut VarianceCache,
        cluster1_indices: &Vec<usize>,
        cluster2_indices: &Vec<usize>,
    ) -> (r: Fraction)
        requires
            members_in_range(data@, cluster1_indices@),
            members_in_range(data@, cluster2_indices@),
            sizes_fit(cluster1_indices.len() + cluster2_indices.len(), data.num_cols() as int),
            old(cache).well_formed(),
            old(cache).holds_variances_of(data@, data.num_cols() as int),
        ensures
            r.num == ward_num(data@, cluster1_indices@, cluster2_indices@, data.num_cols() as int),
            r.den == ward_den(cluster1_indices@, cluster2_indices@),
            frac_ok(r),
            final(cache).well_formed(),
            final(cache).holds_variances_of(data@, data.num_cols() as int),
            forall|k: Seq<usize>| #[trigger]
                final(cache).contains(k) <==> (old(cache).contains(k) || k == cluster1_indices@
                    || k == cluster2_indices@),
    {
        let ghost rows = data@;
        let ghost nf = data.num_cols() as int;
        let ghost a = cluster1_indices@;
        let ghost b = cluster2_indices@;
        match linkage {
            Linkage::Ward => {
                proof {
                    lemma_sizes_fit_smaller(a.len() as int, (a + b).len() as int, nf);
                    lemma_sizes_fit_smaller(b.len() as int, (a + b).len() as int, nf);
                }
                let v1 = Self::cached_variance(data, cache, cluster1_indices);
                let v2 = Self::cached_variance(data, cache, cluster2_indices);
                let both = Self::compute_cluster_variance(data, cluster1_indices, cluster2_indices);
                let n1 = cluster1_indices.len();
                let n2 = cluster2_indices.len();
                if n1 == 0 || n2 == 0 {
                    proof {
                        lemma_ward_num_empty(rows, a, b, nf);
                    }
                    return Fraction { num: 0, den: 1 };
                }
                proof {
                    lemma_sizes_fit_bounds((a + b).len() as int, nf);
                }
                let n = n1 + n2;
                proof {
                    lemma_scaled_sse_factor(rows, a, nf);
                    lemma_scaled_sse_factor(rows, b, nf);
                    lemma_scaled_sse_factor(rows, a + b, nf);
                    assert((a + b).len() == n);
                    vstd::arithmetic::div_mod::lemma_div_multiples_vanish(
                        sse_times_n(rows, a, nf),
                        n1 as int,
                    );
                    vstd::arithmetic::div_mod::lemma_div_multiples_vanish(
                        sse_times_n(rows, b, nf),
                        n2 as int,
                    );
                    vstd::arithmetic::div_mod::lemma_div_multiples_vanish(
                        sse_times_n(rows, a + b, nf),
                        n as int,
                    );
                }
                let k1 = v1.num / (n1 as u128);
                let k2 = v2.num / (n2 as u128);
                let k12 = both.num / (n as u128);
                proof {
                    lemma_sse_times_n_bound(rows, a + b, nf);
                    lemma_sse_times_n_bound(rows, a, nf);
                    lemma_sse_times_n_bound(rows, b, nf);
                    lemma_merge_term_bound(n1 as int, n2 as int, k12 as int, nf);
                    lemma_ward_num_from_variances(rows, a, b, nf);
                    lemma_ward_num_nonneg(rows, a, b, nf);
                    let (i1, i2, ii) = (n1 as int, n2 as int, n as int);
                    assert(0 <= ii * i2 * (k1 as int)) by (nonlinear_arith)
                        requires
                            ii > 0,
                            i2 > 0,
                            k1 >= 0,
                    ;
                    assert(0 <= ii * i1 * (k2 as int)) by (nonlinear_arith)
                        requires
                            ii > 0,
                            i1 > 0,
                            k2 >= 0,
                    ;
                    lemma_sizes_fit_bounds(ii, nf);
                    assert(0 < i1 * i2 <= ii * ii) by (nonlinear_arith)
                        requires
                            0 < i1 <= ii,
                            0 < i2 <= ii,
                    ;
                    assert(0 < i1 * i2 * ii <= ii * ii * ii) by (nonlinear_arith)
                        requires
                            0 < i1 * i2 <= ii * ii,
                            0 < ii,
                    ;
                    assert(ii * i2 <= ii * ii && ii * i1 <= ii * ii) by (nonlinear_arith)
                        requires
                            0 < i1 <= ii,
                            0 < i2 <= ii,
                    ;
                }
                let (w1, w2, w) = (n1 as u128, n2 as u128, n as u128);
                let t1 = (w1 * w2) * k12;
                let t2 = (w * w2) * k1;
                let t3 = (w * w1) * k2;
                let num = t1 - t2 - t3;
                let den = (w1 * w2) * w;
                Fraction { num, den }
            },
        }
    }

    /// Clusters the rows of `data` with Ward's linkage until `parameters.n_clusters`
    /// clusters remain (or every row is its own cluster, when there are fewer rows).
    ///
    /// The result holds one label per row: rows in the same final cluster share a label,
    /// and the labels are `0, 1, ...` in increasing order of the cluster ids, the id of a
    /// cluster being the smallest row it holds. Clusters are therefore numbered in the order
    /// in which their first row appears.
    pub fn fit(data: &DenseMatrix, parameters: AgglomerativeClusteringParameters) -> (r: Result<
        AgglomerativeClustering,
        Failed,
    >)
        requires
            parameters.n_clusters > 0 || data@.len() == 0,
            sizes_fit(data@.len() as int, data.num_cols() as int),
        ensures
            r matches Ok(m) && {
                let k = parameters.n_clusters as nat;
                let nf = data.num_cols() as int;
                let n = data@.len();
                let fin = ward_clusters(data@, nf, k);
                &&& m.labels@.len() == n
                &&& forall|p: int|
                    0 <= p < n ==> #[trigger] m.labels@[p] == ward_label(data@, nf, k, p as usize)
                &&& is_partition(fin, n)
                &&& ids_are_smallest_members(fin)
                &&& same_cluster_same_label(fin, m.labels@, n)
                &&& fin.dom().len() == if n <= k {
                    n
                } else {
                    k
                }
                &&& forall|p: int| 0 <= p < n ==> #[trigger] m.labels@[p] < fin.dom().len()
                &&& forall|c: usize| c < fin.dom().len() ==> #[trigger] m.labels@.contains(c)
                &&& n > 0 ==> m.labels@[0] == 0
                &&& forall|i: int|
                    #![trigger m.labels@[i]]
                    0 < i < n ==> exists|j: int|
                        #![trigger m.labels@[j]]
                        0 <= j < i && m.labels@[i] <= m.labels@[j] + 1
            },
    {
        let mut cache = VarianceCache::new();
        let mut matrix: Vec<Vec<Fraction>> = Vec::new();
        let (num_rows, _) = data.shape();
        let ghost rows = data@;
        let ghost nf = data.num_cols() as int;
        let ghost k = parameters.n_clusters as nat;
        // Initially, each row is a cluster of its own, with the row's index as its id.
        let mut indices_mapping = singleton_clusters(num_rows);
        let ghost st0 = singletons(num_rows as nat);
        proof {
            lemma_singletons(num_rows as nat);
            lemma_singletons_ids(num_rows as nat);
        }
        // The distances between all pairs of rows; row `i` of the matrix holds the distances
        // from cluster `i` to the clusters `i + 1, i + 2, ...`.
        let mut i: usize = 0;
        while i < num_rows
            invariant
                i <= num_rows,
                num_rows == rows.len(),
                rows == data@,
                nf == data.num_cols(),
                sizes_fit(num_rows as int, nf),
                forall|r: int| 0 <= r < rows.len() ==> #[trigger] rows[r].len() == nf,
                member_lists(indices_mapping@) == st0,
                st0 == singletons(num_rows as nat),
                is_partition(st0, num_rows as nat),
                cache.well_formed(),
                cache.holds_variances_of(rows, nf),
                matrix.len() == i,
                forall|r: int| 0 <= r < i ==> #[trigger] matrix@[r].len() == num_rows - 1 - r,
                forall|a: usize, b: usize| #[trigger]
                    is_candidate(st0, a, b) && a < i ==> entry_holds(
                        rows,
                        nf,
                        st0,
                        entry(matrix@, a, b),
                        a,
                        b,
                    ),
            decreases num_rows - i,
        {
            let mut row: Vec<Fraction> = Vec::new();
            let mut j: usize = i + 1;
            while j < num_rows
                invariant
                    i < num_rows,
                    i + 1 <= j <= num_rows,
                    num_rows == rows.len(),
                    rows == data@,
                    nf == data.num_cols(),
                    sizes_fit(num_rows as int, nf),
                    forall|r: int| 0 <= r < rows.len() ==> #[trigger] rows[r].len() == nf,
                    member_lists(indices_mapping@) == st0,
                    st0 == singletons(num_rows as nat),
                    is_partition(st0, num_rows as nat),
                    cache.well_formed(),
                    cache.holds_variances_of(rows, nf),
                    row.len() == j - i - 1,
                    forall|b: usize|
                        i < b < j ==> #[trigger] entry_holds(rows, nf, st0, row@[b - i - 1], i, b),
                decreases num_rows - j,
            {
                proof {
                    assert(st0.contains_key(i) && st0.contains_key(j));
                    lemma_pair_size(st0, i, j, num_rows as nat);
                    lemma_sizes_fit_smaller((st0[i].len() + st0[j].len()) as int, num_rows as int, nf);
                    assert forall|x: int| 0 <= x < st0[i].len() implies #[trigger] st0[i][x] < rows.len() by {}
                    assert forall|x: int| 0 <= x < st0[j].len() implies #[trigger] st0[j][x] < rows.len() by {}
                }
                let distance = AgglomerativeClustering::compute_distance(
                    data,
                    &parameters.linkage,
                    &mut cache,
                    indices_mapping.get(&i).unwrap(),
                    indices_mapping.get(&j).unwrap(),
                );
                row.push(distance);
                j = j + 1;
            }
            matrix.push(row);
            proof {
                assert forall|a: usize, b: usize| #[trigger]
                    is_candidate(st0, a, b) && a < i + 1 implies entry_holds(
                        rows,
                        nf,
                        st0,
                        entry(matrix@, a, b),
                        a,
                        b,
                    ) by {
                    if a == i {
                        assert(entry(matrix@, a, b) == row@[b - i - 1]);
                    }
                }
            }
            i = i + 1;
        }
        proof {
            assert forall|a: usize, b: usize| #[trigger] is_candidate(st0, a, b) implies entry_holds(
                rows,
                nf,
                st0,
                entry(matrix@, a, b),
                a,
                b,
            ) by {
                assert(a < num_rows);
            }
        }
        // Merge the two closest clusters until `n_clusters` remain.
        while indices_mapping.len() > parameters.n_clusters
            invariant
                num_rows == rows.len(),
                rows == data@,
                nf == data.num_cols(),
                k == parameters.n_clusters,
                k > 0 || num_rows == 0,
                sizes_fit(num_rows as int, nf),
                forall|r: int| 0 <= r < rows.len() ==> #[trigger] rows[r].len() == nf,
                matrix.len() == num_rows,
                triangular(matrix@, num_rows as nat),
                is_partition(member_lists(indices_mapping@), num_rows as nat),
                ids_are_smallest_members(member_lists(indices_mapping@)),
                distances_hold(rows, nf, member_lists(indices_mapping@), matrix@),
                cache.well_formed(),
                cache.holds_variances_of(rows, nf),
                ward_run(
                    rows,
                    nf,
                    k,
                    member_lists(indices_mapping@),
                    member_lists(indices_mapping@).dom().len(),
                ) == ward_clusters(rows, nf, k),
                num_rows <= k ==> member_lists(indices_mapping@).dom().len() == num_rows,
                num_rows > k ==> member_lists(indices_mapping@).dom().len() >= k,
            decreases indices_mapping@.dom().len(),
        {
            let ghost st = member_lists(indices_mapping@);
            proof {
                assert(st.dom() == indices_mapping@.dom());
            }
            let (i, j) = find_closest_pair(&matrix, &indices_mapping, Ghost(rows), Ghost(nf));
            proof {
                let p = closest_pair(rows, nf, st);
                assert(is_closest_pair(rows, nf, st, (i, j).0, (i, j).1));
                lemma_closest_pair_unique(rows, nf, st, p.0, p.1, i, j);
                lemma_merge_partition(st, i, j, num_rows as nat);
                lemma_merge_ids(st, i, j);
            }
            merge_pair(data, &parameters.linkage, &mut cache, &mut matrix, &mut indices_mapping, i, j);
            proof {
                assert(member_lists(indices_mapping@).dom() == indices_mapping@.dom());
            }
        }
        let ghost fin = member_lists(indices_mapping@);
        proof {
            assert(fin.dom() =~= indices_mapping@.dom());
            assert(ward_run(rows, nf, k, fin, fin.dom().len()) == fin);
        }
        // Number the remaining clusters in increasing order of id.
        let labels = assign_labels(&indices_mapping, num_rows);
        proof {
            let count = fin.dom().len();
            lemma_rank_all(fin.dom(), num_rows as nat);
            assert forall|p: int| 0 <= p < num_rows implies #[trigger] labels@[p] < count by {
                lemma_cluster_of(fin, num_rows as nat, p as usize);
                lemma_rank_lt(fin.dom(), cluster_of(fin, p as usize), num_rows as int);
            }
            assert forall|p: int, q: int|
                0 <= p < num_rows && 0 <= q < num_rows implies (#[trigger] labels@[p]
                    == #[trigger] labels@[q] <==> cluster_of(fin, p as usize) == cluster_of(
                    fin,
                    q as usize,
                )) by {
                let cp = cluster_of(fin, p as usize);
                let cq = cluster_of(fin, q as usize);
                lemma_cluster_of(fin, num_rows as nat, p as usize);
                lemma_cluster_of(fin, num_rows as nat, q as usize);
                if cp < cq {
                    lemma_rank_lt(fin.dom(), cp, cq as int);
                } else if cq < cp {
                    lemma_rank_lt(fin.dom(), cq, cp as int);
                }
            }
            assert forall|c: usize| c < count implies #[trigger] labels@.contains(c) by {
                lemma_rank_onto(fin.dom(), num_rows as int, c as nat);
                let key = choose|key: usize|
                    key < num_rows && fin.dom().contains(key) && #[trigger] rank_below(
                        fin.dom(),
                        key as int,
                    ) == c;
                let p = fin[key][0];
                assert(fin[key].contains(p));
                assert(p < num_rows);
                lemma_cluster_of(fin, num_rows as nat, p);
                assert(labels@[p as int] == c);
                assert(labels@.contains(c));
            }
            if num_rows > 0 {
                lemma_ward_labels_first_appearance(rows, nf, k);
                assert(labels@[0] == ward_label(rows, nf, k, 0));
                assert forall|i: int| #![trigger labels@[i]] 0 < i < num_rows implies exists|j: int|
                    #![trigger labels@[j]]
                    0 <= j < i && labels@[i] <= labels@[j] + 1 by {
                    assert(labels@[i] == ward_label(rows, nf, k, i as usize));
                    let j = choose|j: usize|
                        #![trigger ward_label(rows, nf, k, j)]
                        j < i as usize && ward_label(rows, nf, k, i as usize) <= ward_label(
                            rows,
                            nf,
                            k,
                            j,
                        ) + 1;
                    assert(labels@[j as int] == ward_label(rows, nf, k, j));
                }
            }
        }
        Ok(AgglomerativeClustering { labels })
    }
}

} // verus!
