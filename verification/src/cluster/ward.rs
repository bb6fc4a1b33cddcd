//! Exact arithmetic behind Ward's criterion: sums of squared deviations of a cluster from
//! its mean, the increase of that quantity when two clusters merge, a memo of cluster
//! variances, and the comparison of non-negative fractions.

use vstd::prelude::*;

verus! {

/// The sizes for which the exact arithmetic of this crate stays within 128 bits: clusters of
/// up to `n` samples over `nf` features of `i32` values. Two quantities must fit: the size
/// product `|a| |b| (|a| + |b|)` of Ward's denominator (at most `n^3`), and the largest
/// intermediate value, `|a| |b|` times `|a + b|` times the variance of `a + b` (at most
/// `nf n^4 2^60`). The first bound also keeps `n` below `2^21`, stated for convenience.
pub open spec fn sizes_fit(n: int, nf: int) -> bool {
    &&& 0 <= n <= 0x20_0000
    &&& 0 <= nf
    &&& n * n * n <= 0x4000_0000_0000_0000
    &&& nf * (n * n * n * n) <= 0x4000_0000_0000_0000
}

/// Coordinate `f` of sample `p`.
pub open spec fn coord(rows: Seq<Seq<i32>>, p: usize, f: int) -> int {
    rows[p as int][f] as int
}

/// Every row holds `nf` features.
pub open spec fn rows_have_width(rows: Seq<Seq<i32>>, nf: int) -> bool {
    forall|i: int| 0 <= i < rows.len() ==> #[trigger] rows[i].len() == nf
}

/// Every member of `s` names a row of `rows`.
pub open spec fn members_in_range(rows: Seq<Seq<i32>>, s: Seq<usize>) -> bool {
    forall|t: int| 0 <= t < s.len() ==> #[trigger] s[t] < rows.len()
}

/// The sum of feature `f` over the members of `s`.
pub open spec fn col_sum(rows: Seq<Seq<i32>>, s: Seq<usize>, f: int) -> int
    decreases s.len(),
{
    if s.len() == 0 {
        0
    } else {
        col_sum(rows, s.drop_last(), f) + coord(rows, s.last(), f)
    }
}

/// The sum of the squares of feature `f` over the members of `s`.
pub open spec fn sq_sum(rows: Seq<Seq<i32>>, s: Seq<usize>, f: int) -> int
    decreases s.len(),
{
    if s.len() == 0 {
        0
    } else {
        sq_sum(rows, s.drop_last(), f) + coord(rows, s.last(), f) * coord(rows, s.last(), f)
    }
}

/// The sum over the members of `s` of `(n * x - c)^2`, `x` being their feature `f`.
pub open spec fn dev_sum(rows: Seq<Seq<i32>>, s: Seq<usize>, f: int, n: int, c: int) -> int
    decreases s.len(),
{
    if s.len() == 0 {
        0
    } else {
        let d = n * coord(rows, s.last(), f) - c;
        dev_sum(rows, s.drop_last(), f, n, c) + d * d
    }
}

/// `n^2` times the sum of squared deviations of feature `f` from its mean over `s`,
/// where `n = |s|`: the deviation of a member scaled by `n` is `n * x - (sum of x)`.
pub open spec fn feature_scaled_sse(rows: Seq<Seq<i32>>, s: Seq<usize>, f: int) -> int {
    dev_sum(rows, s, f, s.len() as int, col_sum(rows, s, f))
}

/// `|s|^2` times the variance of cluster `s` as this crate measures it: the sum, over its
/// members, of the squared euclidean distance to the cluster's mean, over the first `nf`
/// features.
pub open spec fn scaled_sse(rows: Seq<Seq<i32>>, s: Seq<usize>, nf: int) -> int
    decreases nf,
{
    if nf <= 0 {
        0
    } else {
        scaled_sse(rows, s, nf - 1) + feature_scaled_sse(rows, s, nf - 1)
    }
}

/// `|s|` times the variance of `s`, written with sums and sums of squares.
pub open spec fn sse_times_n(rows: Seq<Seq<i32>>, s: Seq<usize>, nf: int) -> int
    decreases nf,
{
    if nf <= 0 {
        0
    } else {
        let c = col_sum(rows, s, nf - 1);
        sse_times_n(rows, s, nf - 1) + s.len() * sq_sum(rows, s, nf - 1) - c * c
    }
}

/// Numerator of the variance of `s` as a fraction.
pub open spec fn variance_num(rows: Seq<Seq<i32>>, s: Seq<usize>, nf: int) -> int {
    scaled_sse(rows, s, nf)
}

/// Denominator of the variance of `s` as a fraction: `|s|^2`, or 1 for an empty cluster
/// (whose variance is 0).
pub open spec fn variance_den(s: Seq<usize>) -> int {
    if s.len() == 0 {
        1
    } else {
        (s.len() * s.len()) as int
    }
}

/// Numerator of Ward's distance between `a` and `b`:
/// the sum over features of `(|b| * sum_a - |a| * sum_b)^2`.
pub open spec fn ward_num(rows: Seq<Seq<i32>>, a: Seq<usize>, b: Seq<usize>, nf: int) -> int
    decreases nf,
{
    if nf <= 0 {
        0
    } else {
        let d = b.len() * col_sum(rows, a, nf - 1) - a.len() * col_sum(rows, b, nf - 1);
        ward_num(rows, a, b, nf - 1) + d * d
    }
}

/// Denominator of Ward's distance between `a` and `b`: `|a| * |b| * (|a| + |b|)`, or 1 when
/// either cluster is empty (the distance is then 0).
pub open spec fn ward_den(a: Seq<usize>, b: Seq<usize>) -> int {
    if a.len() == 0 || b.len() == 0 {
        1
    } else {
        (a.len() * b.len() * (a.len() + b.len())) as int
    }
}

// ---------------------------------------------------------------------------------------
// Algebra of the sums
// ---------------------------------------------------------------------------------------

/// Sums over a concatenation are the sums of the parts.
pub proof fn lemma_sums_concat(rows: Seq<Seq<i32>>, a: Seq<usize>, b: Seq<usize>, f: int)
    ensures
        col_sum(rows, a + b, f) == col_sum(rows, a, f) + col_sum(rows, b, f),
        sq_sum(rows, a + b, f) == sq_sum(rows, a, f) + sq_sum(rows, b, f),
    decreases b.len(),
{
    if b.len() == 0 {
        assert(a + b =~= a);
    } else {
        lemma_sums_concat(rows, a, b.drop_last(), f);
        assert((a + b).drop_last() =~= a + b.drop_last());
        assert((a + b).last() == b.last());
    }
}

/// Sums over a cluster depend only on its members and how often each is listed, not on the
/// order in which they are listed.
proof fn lemma_sums_permutation(rows: Seq<Seq<i32>>, s1: Seq<usize>, s2: Seq<usize>, f: int)
    requires
        s1.to_multiset() == s2.to_multiset(),
    ensures
        col_sum(rows, s1, f) == col_sum(rows, s2, f),
        sq_sum(rows, s1, f) == sq_sum(rows, s2, f),
    decreases s1.len(),
{
    broadcast use vstd::multiset::group_multiset_axioms;

    s1.to_multiset_ensures();
    s2.to_multiset_ensures();
    if s1.len() == 0 {
        assert(s2 =~= Seq::<usize>::empty());
        assert(s1 =~= Seq::<usize>::empty());
    } else {
        let x = s1.last();
        let s1d = s1.drop_last();
        assert(s1 =~= s1d.push(x));
        s1d.to_multiset_ensures();
        assert(s1.contains(x)) by {
            assert(s1[s1.len() - 1] == x);
        }
        assert(s1.to_multiset().count(x) > 0);
        assert(s2.to_multiset().count(x) > 0);
        assert(s2.contains(x));
        let i = choose|i: int| 0 <= i < s2.len() && s2[i] == x;
        let s2r = s2.remove(i);
        assert(s2r.to_multiset() =~= s1d.to_multiset());
        lemma_sums_permutation(rows, s1d, s2r, f);
        let p = s2.subrange(0, i);
        let q = s2.subrange(i + 1, s2.len() as int);
        let one = seq![x];
        assert(s2 =~= p + (one + q));
        assert(s2r =~= p + q);
        lemma_sums_concat(rows, p, one + q, f);
        lemma_sums_concat(rows, one, q, f);
        lemma_sums_concat(rows, p, q, f);
        assert(one.drop_last() =~= Seq::<usize>::empty());
        assert(one.last() == x);
        assert(col_sum(rows, one.drop_last(), f) == 0);
        assert(sq_sum(rows, one.drop_last(), f) == 0);
        assert(col_sum(rows, one, f) == coord(rows, x, f));
        assert(sq_sum(rows, one, f) == coord(rows, x, f) * coord(rows, x, f));
        assert(col_sum(rows, s1, f) == col_sum(rows, s1d, f) + coord(rows, x, f));
        assert(sq_sum(rows, s1, f) == sq_sum(rows, s1d, f) + coord(rows, x, f) * coord(rows, x, f));
    }
}

/// `sse_times_n` depends only on the members of the cluster and how often each is listed.
proof fn lemma_sse_times_n_permutation(rows: Seq<Seq<i32>>, s1: Seq<usize>, s2: Seq<usize>, nf: int)
    requires
        s1.to_multiset() == s2.to_multiset(),
    ensures
        sse_times_n(rows, s1, nf) == sse_times_n(rows, s2, nf),
    decreases nf,
{
    s1.to_multiset_ensures();
    s2.to_multiset_ensures();
    if nf > 0 {
        lemma_sse_times_n_permutation(rows, s1, s2, nf - 1);
        lemma_sums_permutation(rows, s1, s2, nf - 1);
    }
}

/// The variance of a cluster depends only on its members and how often each is listed,
/// not on the order in which they are listed.
pub proof fn lemma_variance_permutation(rows: Seq<Seq<i32>>, s1: Seq<usize>, s2: Seq<usize>, nf: int)
    requires
        s1.to_multiset() == s2.to_multiset(),
    ensures
        variance_num(rows, s1, nf) == variance_num(rows, s2, nf),
        variance_den(s1) == variance_den(s2),
{
    s1.to_multiset_ensures();
    s2.to_multiset_ensures();
    lemma_sse_times_n_permutation(rows, s1, s2, nf);
    lemma_scaled_sse_factor(rows, s1, nf);
    lemma_scaled_sse_factor(rows, s2, nf);
}

/// What `compute_cluster_variance` returns for the lists `(a, b)`, whatever the data: the
/// same as for `(a ++ b, [])` and for `(b, a)`, as a fraction with a positive denominator
/// and a non-negative numerator.
pub proof fn lemma_cluster_variance_order_free(
    rows: Seq<Seq<i32>>,
    a: Seq<usize>,
    b: Seq<usize>,
    nf: int,
)
    ensures
        variance_num(rows, (a + b) + Seq::<usize>::empty(), nf) == variance_num(rows, a + b, nf),
        variance_den((a + b) + Seq::<usize>::empty()) == variance_den(a + b),
        variance_num(rows, b + a, nf) == variance_num(rows, a + b, nf),
        variance_den(b + a) == variance_den(a + b),
        variance_num(rows, a + b, nf) >= 0,
        variance_den(a + b) > 0,
{
    assert((a + b) + Seq::<usize>::empty() =~= a + b);
    vstd::seq_lib::lemma_seq_union_to_multiset_commutative(a, b);
    lemma_variance_permutation(rows, a + b, b + a, nf);
    lemma_scaled_sse_factor(rows, a + b, nf);
    let n = (a + b).len() as int;
    if n > 0 {
        assert(n * n > 0) by (nonlinear_arith)
            requires
                n > 0,
        ;
    }
}

/// `dev_sum` expanded: `n^2 * sq_sum - 2 n c * col_sum + |s| c^2`.
proof fn lemma_dev_sum_expand(rows: Seq<Seq<i32>>, s: Seq<usize>, f: int, n: int, c: int)
    ensures
        dev_sum(rows, s, f, n, c) == n * n * sq_sum(rows, s, f) - 2 * n * c * col_sum(rows, s, f)
            + s.len() * c * c,
    decreases s.len(),
{
    if s.len() > 0 {
        let s0 = s.drop_last();
        lemma_dev_sum_expand(rows, s0, f, n, c);
        let x = coord(rows, s.last(), f);
        let q0 = sq_sum(rows, s0, f);
        let c0 = col_sum(rows, s0, f);
        let m0 = s0.len() as int;
        assert((n * x - c) * (n * x - c) == n * n * (x * x) - 2 * n * c * x + c * c)
            by (nonlinear_arith);
        assert(n * n * (q0 + x * x) == n * n * q0 + n * n * (x * x)) by (nonlinear_arith);
        assert(2 * n * c * (c0 + x) == 2 * n * c * c0 + 2 * n * c * x) by (nonlinear_arith);
        assert((m0 + 1) * c * c == m0 * c * c + c * c) by (nonlinear_arith);
    }
}

/// The squared deviations of one feature, scaled by `n^2`, equal `n * (n * sq_sum - col_sum^2)`.
proof fn lemma_feature_scaled_sse(rows: Seq<Seq<i32>>, s: Seq<usize>, f: int)
    ensures
        feature_scaled_sse(rows, s, f) == s.len() * (s.len() * sq_sum(rows, s, f) - col_sum(
            rows,
            s,
            f,
        ) * col_sum(rows, s, f)),
{
    let n = s.len() as int;
    let c = col_sum(rows, s, f);
    let q = sq_sum(rows, s, f);
    lemma_dev_sum_expand(rows, s, f, n, c);
    assert(n * n * q - 2 * n * c * c + n * c * c == n * (n * q - c * c)) by (nonlinear_arith);
}

/// `|s|^2 * variance == |s| * (|s| * variance)`, and both are non-negative.
pub proof fn lemma_scaled_sse_factor(rows: Seq<Seq<i32>>, s: Seq<usize>, nf: int)
    ensures
        scaled_sse(rows, s, nf) == s.len() * sse_times_n(rows, s, nf),
        scaled_sse(rows, s, nf) >= 0,
        s.len() > 0 ==> sse_times_n(rows, s, nf) >= 0,
    decreases nf,
{
    if nf > 0 {
        lemma_scaled_sse_factor(rows, s, nf - 1);
        lemma_feature_scaled_sse(rows, s, nf - 1);
        lemma_dev_sum_nonneg(rows, s, nf - 1, s.len() as int, col_sum(rows, s, nf - 1));
        let n = s.len() as int;
        let a = sse_times_n(rows, s, nf - 1);
        let c = col_sum(rows, s, nf - 1);
        let b = n * sq_sum(rows, s, nf - 1) - c * c;
        assert(n * a + n * b == n * (a + b)) by (nonlinear_arith);
        if n > 0 {
            assert(n * (a + b) >= 0);
            assert(a + b >= 0) by (nonlinear_arith)
                requires
                    n > 0,
                    n * (a + b) >= 0,
            ;
        }
    }
}

/// A sum of squares is non-negative.
proof fn lemma_dev_sum_nonneg(rows: Seq<Seq<i32>>, s: Seq<usize>, f: int, n: int, c: int)
    ensures
        dev_sum(rows, s, f, n, c) >= 0,
    decreases s.len(),
{
    if s.len() > 0 {
        lemma_dev_sum_nonneg(rows, s.drop_last(), f, n, c);
        let d = n * coord(rows, s.last(), f) - c;
        assert(d * d >= 0) by (nonlinear_arith);
    }
}

/// Ward's numerator is non-negative.
pub proof fn lemma_ward_num_nonneg(rows: Seq<Seq<i32>>, a: Seq<usize>, b: Seq<usize>, nf: int)
    ensures
        ward_num(rows, a, b, nf) >= 0,
    decreases nf,
{
    if nf > 0 {
        lemma_ward_num_nonneg(rows, a, b, nf - 1);
        let d = b.len() * col_sum(rows, a, nf - 1) - a.len() * col_sum(rows, b, nf - 1);
        assert(d * d >= 0) by (nonlinear_arith);
    }
}

/// One feature of the merge identity.
proof fn lemma_merge_identity_one(
    na: int,
    nb: int,
    ca: int,
    cb: int,
    qa: int,
    qb: int,
)
    ensures
        na * nb * ((na + nb) * (qa + qb) - (ca + cb) * (ca + cb)) - (na + nb) * nb * (na * qa - ca
            * ca) - (na + nb) * na * (nb * qb - cb * cb) == (nb * ca - na * cb) * (nb * ca - na
            * cb),
{
    assert(na * nb * ((na + nb) * (qa + qb)) == (na + nb) * nb * (na * qa) + (na + nb) * na * (nb
        * qb)) by (nonlinear_arith);
    assert(na * nb * ((ca + cb) * (ca + cb)) == na * nb * (ca * ca) + 2 * (na * nb * (ca * cb))
        + na * nb * (cb * cb)) by (nonlinear_arith);
    assert((na + nb) * nb * (ca * ca) == na * nb * (ca * ca) + nb * nb * (ca * ca))
        by (nonlinear_arith);
    assert((na + nb) * na * (cb * cb) == na * nb * (cb * cb) + na * na * (cb * cb))
        by (nonlinear_arith);
    let u = nb * ca;
    let v = na * cb;
    assert((u - v) * (u - v) == u * u - 2 * (u * v) + v * v) by (nonlinear_arith);
    assert(u * u == nb * nb * (ca * ca)) by (nonlinear_arith)
        requires
            u == nb * ca,
            v == na * cb,
    ;
    assert(u * v == na * nb * (ca * cb)) by (nonlinear_arith)
        requires
            u == nb * ca,
            v == na * cb,
    ;
    assert(v * v == na * na * (cb * cb)) by (nonlinear_arith)
        requires
            u == nb * ca,
            v == na * cb,
    ;
    assert((na + nb) * nb * (na * qa - ca * ca) == (na + nb) * nb * (na * qa) - (na + nb) * nb * (
    ca * ca)) by (nonlinear_arith);
    assert((na + nb) * na * (nb * qb - cb * cb) == (na + nb) * na * (nb * qb) - (na + nb) * na * (
    cb * cb)) by (nonlinear_arith);
    assert(na * nb * ((na + nb) * (qa + qb) - (ca + cb) * (ca + cb)) == na * nb * ((na + nb) * (qa
        + qb)) - na * nb * ((ca + cb) * (ca + cb))) by (nonlinear_arith);
}

/// Ward's numerator as the combination of the three variances (times the cluster sizes):
/// `|a||b| * V(a+b) - |a+b||b| * V(a) - |a+b||a| * V(b)`, each `V` being `sse_times_n`.
pub proof fn lemma_ward_num_from_variances(rows: Seq<Seq<i32>>, a: Seq<usize>, b: Seq<usize>, nf: int)
    ensures
        a.len() * b.len() * sse_times_n(rows, a + b, nf) - (a.len() + b.len()) * b.len()
            * sse_times_n(rows, a, nf) - (a.len() + b.len()) * a.len() * sse_times_n(rows, b, nf)
            == ward_num(rows, a, b, nf),
    decreases nf,
{
    if nf > 0 {
        lemma_ward_num_from_variances(rows, a, b, nf - 1);
        let f = nf - 1;
        lemma_sums_concat(rows, a, b, f);
        let na = a.len() as int;
        let nb = b.len() as int;
        assert((a + b).len() == na + nb);
        let ca = col_sum(rows, a, f);
        let cb = col_sum(rows, b, f);
        let qa = sq_sum(rows, a, f);
        let qb = sq_sum(rows, b, f);
        lemma_merge_identity_one(na, nb, ca, cb, qa, qb);
        let vab = sse_times_n(rows, a + b, f);
        let va = sse_times_n(rows, a, f);
        let vb = sse_times_n(rows, b, f);
        let eab = (na + nb) * (qa + qb) - (ca + cb) * (ca + cb);
        let ea = na * qa - ca * ca;
        let eb = nb * qb - cb * cb;
        assert(na * nb * (vab + eab) == na * nb * vab + na * nb * eab) by (nonlinear_arith);
        assert((na + nb) * nb * (va + ea) == (na + nb) * nb * va + (na + nb) * nb * ea)
            by (nonlinear_arith);
        assert((na + nb) * na * (vb + eb) == (na + nb) * na * vb + (na + nb) * na * eb)
            by (nonlinear_arith);
    }
}


/// Ward's distance is the increase of the variance caused by the merge:
/// `ward_num / ward_den == V(a ++ b) - V(a) - V(b)`, where `V(s)` is
/// `variance_num(s) / variance_den(s)`, the sum over the members of `s` of the squared
/// distance to the mean of `s` (both sides multiplied here by all the denominators).
pub proof fn lemma_ward_distance_is_variance_increase(
    rows: Seq<Seq<i32>>,
    a: Seq<usize>,
    b: Seq<usize>,
    nf: int,
)
    requires
        a.len() > 0,
        b.len() > 0,
    ensures
        ward_num(rows, a, b, nf) * (variance_den(a) * variance_den(b) * variance_den(a + b))
            == ward_den(a, b) * (variance_num(rows, a + b, nf) * variance_den(a) * variance_den(b)
            - variance_num(rows, a, nf) * variance_den(a + b) * variance_den(b) - variance_num(
            rows,
            b,
            nf,
        ) * variance_den(a + b) * variance_den(a)),
{
    let na = a.len() as int;
    let nb = b.len() as int;
    let n = na + nb;
    assert((a + b).len() == n);
    lemma_scaled_sse_factor(rows, a, nf);
    lemma_scaled_sse_factor(rows, b, nf);
    lemma_scaled_sse_factor(rows, a + b, nf);
    lemma_ward_num_from_variances(rows, a, b, nf);
    let ka = sse_times_n(rows, a, nf);
    let kb = sse_times_n(rows, b, nf);
    let kab = sse_times_n(rows, a + b, nf);
    let w = ward_num(rows, a, b, nf);
    let d = na * nb * n;
    assert(ward_den(a, b) == d);
    assert(n * kab * (na * na) * (nb * nb) == d * (na * nb * kab)) by (nonlinear_arith)
        requires
            d == na * nb * n,
    ;
    assert(na * ka * (n * n) * (nb * nb) == d * (n * nb * ka)) by (nonlinear_arith)
        requires
            d == na * nb * n,
    ;
    assert(nb * kb * (n * n) * (na * na) == d * (n * na * kb)) by (nonlinear_arith)
        requires
            d == na * nb * n,
    ;
    assert((na * na) * (nb * nb) * (n * n) == d * d) by (nonlinear_arith)
        requires
            d == na * nb * n,
    ;
    assert(d * (na * nb * kab) - d * (n * nb * ka) - d * (n * na * kb) == d * (na * nb * kab - n
        * nb * ka - n * na * kb)) by (nonlinear_arith);
    assert(w * (d * d) == d * (d * w)) by (nonlinear_arith);
}

/// `rows2` is `rows` with every coordinate multiplied by `c`.
pub open spec fn rows_scaled(rows: Seq<Seq<i32>>, rows2: Seq<Seq<i32>>, c: int) -> bool {
    &&& rows2.len() == rows.len()
    &&& forall|p: int| 0 <= p < rows.len() ==> #[trigger] rows2[p].len() == rows[p].len()
    &&& forall|p: int, f: int|
        0 <= p < rows.len() && 0 <= f < rows[p].len() ==> #[trigger] rows2[p][f] == c * rows[p][f]
}

/// Scaling the coordinates by `c` scales the sums of a cluster by `c`.
proof fn lemma_col_sum_scale(
    rows: Seq<Seq<i32>>,
    rows2: Seq<Seq<i32>>,
    c: int,
    s: Seq<usize>,
    f: int,
    nf: int,
)
    requires
        rows_scaled(rows, rows2, c),
        rows_have_width(rows, nf),
        members_in_range(rows, s),
        0 <= f < nf,
    ensures
        col_sum(rows2, s, f) == c * col_sum(rows, s, f),
    decreases s.len(),
{
    if s.len() > 0 {
        let s0 = s.drop_last();
        assert(members_in_range(rows, s0)) by {
            assert forall|t: int| 0 <= t < s0.len() implies #[trigger] s0[t] < rows.len() by {
                assert(s0[t] == s[t]);
            }
        }
        lemma_col_sum_scale(rows, rows2, c, s0, f, nf);
        let p = s.last();
        assert(p < rows.len());
        assert(rows[p as int].len() == nf);
        assert(rows2[p as int][f] == c * rows[p as int][f]);
        let x = coord(rows, p, f);
        let a = col_sum(rows, s0, f);
        assert(c * a + c * x == c * (a + x)) by (nonlinear_arith);
    }
}

/// Scaling the coordinates by `c` multiplies Ward's numerator by `c^2` and leaves its
/// denominator unchanged.
pub proof fn lemma_ward_num_scale(
    rows: Seq<Seq<i32>>,
    rows2: Seq<Seq<i32>>,
    c: int,
    a: Seq<usize>,
    b: Seq<usize>,
    nf: int,
    width: int,
)
    requires
        rows_scaled(rows, rows2, c),
        rows_have_width(rows, width),
        members_in_range(rows, a),
        members_in_range(rows, b),
        nf <= width,
    ensures
        ward_num(rows2, a, b, nf) == c * c * ward_num(rows, a, b, nf),
    decreases nf,
{
    if nf > 0 {
        lemma_ward_num_scale(rows, rows2, c, a, b, nf - 1, width);
        lemma_col_sum_scale(rows, rows2, c, a, nf - 1, width);
        lemma_col_sum_scale(rows, rows2, c, b, nf - 1, width);
        let ca = col_sum(rows, a, nf - 1);
        let cb = col_sum(rows, b, nf - 1);
        let na = b.len() as int;
        let nb = a.len() as int;
        let d = na * ca - nb * cb;
        let d2 = na * (c * ca) - nb * (c * cb);
        assert(d2 == c * d) by (nonlinear_arith)
            requires
                d2 == na * (c * ca) - nb * (c * cb),
                d == na * ca - nb * cb,
        ;
        let w = ward_num(rows, a, b, nf - 1);
        assert(c * c * w + (c * d) * (c * d) == c * c * (w + d * d)) by (nonlinear_arith);
    }
}

// ---------------------------------------------------------------------------------------
// Bounds that keep the exact arithmetic inside 128 bits
// ---------------------------------------------------------------------------------------

/// The coordinates of the members of `s` on feature `f` stay within the `i32` range.
proof fn lemma_coord_range(rows: Seq<Seq<i32>>, p: usize, f: int)
    ensures
        -0x8000_0000 <= coord(rows, p, f) < 0x8000_0000,
        0 <= coord(rows, p, f) * coord(rows, p, f) <= 0x4000_0000_0000_0000,
{
    let x = coord(rows, p, f);
    assert(0 <= x * x <= 0x4000_0000_0000_0000) by (nonlinear_arith)
        requires
            -0x8000_0000 <= x < 0x8000_0000,
    ;
}

/// `|col_sum| <= |s| * 2^31` and `0 <= sq_sum <= |s| * 2^62`.
pub proof fn lemma_sums_bound(rows: Seq<Seq<i32>>, s: Seq<usize>, f: int)
    ensures
        -(s.len() * 0x8000_0000) <= col_sum(rows, s, f) <= s.len() * 0x8000_0000,
        0 <= sq_sum(rows, s, f) <= s.len() * 0x4000_0000_0000_0000,
    decreases s.len(),
{
    if s.len() > 0 {
        lemma_sums_bound(rows, s.drop_last(), f);
        lemma_coord_range(rows, s.last(), f);
    }
}

/// `0 <= sse_times_n(s) <= nf * |s|^2 * 2^62` for a non-empty cluster.
pub proof fn lemma_sse_times_n_bound(rows: Seq<Seq<i32>>, s: Seq<usize>, nf: int)
    requires
        s.len() > 0,
        nf >= 0,
    ensures
        0 <= sse_times_n(rows, s, nf) <= nf * (s.len() * s.len() * 0x4000_0000_0000_0000),
    decreases nf,
{
    lemma_scaled_sse_factor(rows, s, nf);
    if nf > 0 {
        lemma_sse_times_n_bound(rows, s, nf - 1);
        lemma_sums_bound(rows, s, nf - 1);
        let n = s.len() as int;
        let q = sq_sum(rows, s, nf - 1);
        let c = col_sum(rows, s, nf - 1);
        let k = n * n * 0x4000_0000_0000_0000;
        assert(n * q <= k) by (nonlinear_arith)
            requires
                n > 0,
                0 <= q <= n * 0x4000_0000_0000_0000,
                k == n * n * 0x4000_0000_0000_0000,
        ;
        assert(c * c >= 0) by (nonlinear_arith);
        assert((nf - 1) * k + k == nf * k) by (nonlinear_arith);
    }
}

/// Fewer samples fit whenever more do.
pub proof fn lemma_sizes_fit_smaller(m: int, n: int, nf: int)
    requires
        sizes_fit(n, nf),
        0 <= m <= n,
    ensures
        sizes_fit(m, nf),
{
    assert(m * m <= n * n) by (nonlinear_arith)
        requires
            0 <= m <= n,
    ;
    assert(m * m * m <= n * n * n) by (nonlinear_arith)
        requires
            0 <= m <= n,
            m * m <= n * n,
    ;
    assert(m * m * m * m <= n * n * n * n) by (nonlinear_arith)
        requires
            0 <= m <= n,
            m * m * m <= n * n * n,
    ;
    assert(nf * (m * m * m * m) <= nf * (n * n * n * n)) by (nonlinear_arith)
        requires
            0 <= nf,
            m * m * m * m <= n * n * n * n,
    ;
}

/// The bounds that the arithmetic draws from `sizes_fit`.
pub proof fn lemma_sizes_fit_bounds(n: int, nf: int)
    requires
        sizes_fit(n, nf),
        n > 0,
    ensures
        n <= 0x20_0000,
        n * n <= 0x400_0000_0000,
        n * n * n <= 0x4000_0000_0000_0000,
        nf * (n * n * n) <= 0x4000_0000_0000_0000,
{
    if n > 0x20_0000 {
        assert(n * n * n > 0x4000_0000_0000_0000) by (nonlinear_arith)
            requires
                n > 0x20_0000,
        ;
    }
    assert(n * n <= 0x400_0000_0000) by (nonlinear_arith)
        requires
            0 < n <= 0x20_0000,
    ;
    assert(nf * (n * n * n) <= nf * (n * n * n * n)) by (nonlinear_arith)
        requires
            n > 0,
            nf >= 0,
    ;
}

/// Whether `sizes_fit(n, nf)` holds.
pub fn fits_exact_arithmetic(n: usize, nf: usize) -> (r: bool)
    ensures
        r == sizes_fit(n as int, nf as int),
{
    if n > 0x20_0000 {
        proof {
            let ni = n as int;
            assert(ni * ni * ni > 0x4000_0000_0000_0000) by (nonlinear_arith)
                requires
                    ni > 0x20_0000,
            ;
        }
        return false;
    }
    let m = n as u128;
    proof {
        let ni = n as int;
        assert(ni * ni <= 0x400_0000_0000) by (nonlinear_arith)
            requires
                0 <= ni <= 0x20_0000,
        ;
        assert(ni * ni * ni <= 0x8000_0000_0000_0000) by (nonlinear_arith)
            requires
                0 <= ni <= 0x20_0000,
                ni * ni <= 0x400_0000_0000,
        ;
        assert(ni * ni * ni * ni <= 0x100_0000_0000_0000_0000_0000) by (nonlinear_arith)
            requires
                0 <= ni <= 0x20_0000,
                ni * ni * ni <= 0x8000_0000_0000_0000,
        ;
    }
    let cube = m * m * m;
    if cube > 0x4000_0000_0000_0000 {
        return false;
    }
    let fourth = cube * m;
    match (nf as u128).checked_mul(fourth) {
        Some(p) => p <= 0x4000_0000_0000_0000,
        None => false,
    }
}

/// Products of cluster sizes: `4 * |a| * |b| <= (|a| + |b|)^2`.
pub proof fn lemma_size_product(na: int, nb: int)
    requires
        na >= 0,
        nb >= 0,
    ensures
        4 * (na * nb) <= (na + nb) * (na + nb),
{
    assert((na - nb) * (na - nb) >= 0) by (nonlinear_arith);
    assert((na + nb) * (na + nb) == (na - nb) * (na - nb) + 4 * (na * nb)) by (nonlinear_arith);
}

/// Ward's numerator is 0 when either cluster is empty.
pub proof fn lemma_ward_num_empty(rows: Seq<Seq<i32>>, a: Seq<usize>, b: Seq<usize>, nf: int)
    requires
        a.len() == 0 || b.len() == 0,
    ensures
        ward_num(rows, a, b, nf) == 0,
    decreases nf,
{
    if nf > 0 {
        lemma_ward_num_empty(rows, a, b, nf - 1);
        let ca = col_sum(rows, a, nf - 1);
        let cb = col_sum(rows, b, nf - 1);
        let d = b.len() * ca - a.len() * cb;
        if a.len() == 0 {
            assert(ca == 0);
        } else {
            assert(cb == 0);
        }
        assert(d == 0) by (nonlinear_arith)
            requires
                d == b.len() * ca - a.len() * cb,
                a.len() == 0 || b.len() == 0,
                a.len() == 0 ==> ca == 0,
                b.len() == 0 ==> cb == 0,
        ;
        assert(d * d == 0) by (nonlinear_arith)
            requires
                d == 0,
        ;
    }
}

/// Ward's distance does not depend on the order of the two clusters, whatever the clusters
/// and the data: `compute_distance` returns the same fraction for `(c1, c2)` as for
/// `(c2, c1)`.
pub proof fn lemma_ward_symmetric(rows: Seq<Seq<i32>>, a: Seq<usize>, b: Seq<usize>, nf: int)
    ensures
        ward_num(rows, a, b, nf) == ward_num(rows, b, a, nf),
        ward_den(a, b) == ward_den(b, a),
    decreases nf,
{
    if nf > 0 {
        lemma_ward_symmetric(rows, a, b, nf - 1);
        let x = b.len() * col_sum(rows, a, nf - 1) - a.len() * col_sum(rows, b, nf - 1);
        assert(x * x == (-x) * (-x)) by (nonlinear_arith);
    }
    let (na, nb) = (a.len() as int, b.len() as int);
    assert(na * nb * (na + nb) == nb * na * (nb + na)) by (nonlinear_arith);
}

/// When the sizes fit, `|a| |b| V(a + b)` (where `V(a + b) <= nf (|a| + |b|)^2 2^62`) stays
/// below `2^126`.
pub proof fn lemma_merge_term_bound(na: int, nb: int, kab: int, nf: int)
    requires
        0 < na,
        0 < nb,
        sizes_fit(na + nb, nf),
        0 <= kab <= nf * ((na + nb) * (na + nb) * 0x4000_0000_0000_0000),
    ensures
        0 <= na * nb * kab <= 0x4000_0000_0000_0000_0000_0000_0000_0000,
{
    let n = na + nb;
    lemma_size_product(na, nb);
    let m = n * n;
    assert(m * kab <= nf * (n * n * n * n) * 0x4000_0000_0000_0000) by (nonlinear_arith)
        requires
            m == n * n,
            m >= 0,
            0 <= kab <= nf * (m * 0x4000_0000_0000_0000),
    ;
    assert(4 * (na * nb * kab) <= m * kab) by (nonlinear_arith)
        requires
            4 * (na * nb) <= m,
            kab >= 0,
    ;
    assert(0 <= na * nb * kab) by (nonlinear_arith)
        requires
            0 < na,
            0 < nb,
            0 <= kab,
    ;
}

// ---------------------------------------------------------------------------------------
// Non-negative fractions
// ---------------------------------------------------------------------------------------

/// A non-negative fraction `num / den`.
#[derive(Clone, Copy, Debug, PartialEq, Eq, Structural)]
pub struct Fraction {
    pub num: u128,
    pub den: u128,
}

/// `a < b` as rational numbers (both denominators being positive).
pub open spec fn frac_lt(a: Fraction, b: Fraction) -> bool {
    a.num * b.den < b.num * a.den
}

/// The denominator is positive and below `2^64`.
pub open spec fn frac_ok(a: Fraction) -> bool {
    0 < a.den < 0x1_0000_0000_0000_0000
}

/// Transitivity of `frac_lt` through a non-strict step: `a < b` and `!(c < b)` give `a < c`.
pub proof fn lemma_frac_lt_le(a: Fraction, b: Fraction, c: Fraction)
    requires
        a.den > 0,
        b.den > 0,
        c.den > 0,
        frac_lt(a, b),
        !frac_lt(c, b),
    ensures
        frac_lt(a, c),
{
    let (an, ad, bn, bd, cn, cd) = (
        a.num as int,
        a.den as int,
        b.num as int,
        b.den as int,
        c.num as int,
        c.den as int,
    );
    assert(an * cd < cn * ad) by (nonlinear_arith)
        requires
            ad > 0,
            bd > 0,
            cd > 0,
            an * bd < bn * ad,
            cn * bd >= bn * cd,
    {
        assert(an * bd * cd < bn * ad * cd) by (nonlinear_arith)
            requires
                an * bd < bn * ad,
                cd > 0,
        ;
        assert(bn * cd * ad <= cn * bd * ad) by (nonlinear_arith)
            requires
                cn * bd >= bn * cd,
                ad > 0,
        ;
        assert(an * cd * bd < cn * ad * bd);
    }
}

/// Compares two non-negative fractions exactly: `a < b`.
/// The integer parts are compared first; on a tie, the remainders (each below its
/// denominator) are cross-multiplied.
pub fn frac_less(a: &Fraction, b: &Fraction) -> (r: bool)
    requires
        frac_ok(*a),
        frac_ok(*b),
    ensures
        r == frac_lt(*a, *b),
{
    let qa = a.num / a.den;
    let ra = a.num % a.den;
    let qb = b.num / b.den;
    let rb = b.num % b.den;
    proof {
        let (an, ad, bn, bd) = (a.num as int, a.den as int, b.num as int, b.den as int);
        assert(an == qa * ad + ra && 0 <= ra < ad) by (nonlinear_arith)
            requires
                ad > 0,
                qa == an / ad,
                ra == an % ad,
        ;
        assert(bn == qb * bd + rb && 0 <= rb < bd) by (nonlinear_arith)
            requires
                bd > 0,
                qb == bn / bd,
                rb == bn % bd,
        ;
        assert(an * bd == qa * (ad * bd) + ra * bd) by (nonlinear_arith)
            requires
                an == qa * ad + ra,
        ;
        assert(bn * ad == qb * (ad * bd) + rb * ad) by (nonlinear_arith)
            requires
                bn == qb * bd + rb,
        ;
        assert(0 <= ra * bd < ad * bd) by (nonlinear_arith)
            requires
                0 <= ra < ad,
                bd > 0,
        ;
        assert(0 <= rb * ad < ad * bd) by (nonlinear_arith)
            requires
                0 <= rb < bd,
                ad > 0,
        ;
        if qa < qb {
            assert(qa * (ad * bd) + ad * bd <= qb * (ad * bd)) by (nonlinear_arith)
                requires
                    qa < qb,
                    ad * bd > 0,
            ;
        } else if qa > qb {
            assert(qb * (ad * bd) + ad * bd <= qa * (ad * bd)) by (nonlinear_arith)
                requires
                    qb < qa,
                    ad * bd > 0,
            ;
        }
        assert(ra * bd < 0x1_0000_0000_0000_0000_0000_0000_0000_0000) by (nonlinear_arith)
            requires
                0 <= ra < 0x1_0000_0000_0000_0000,
                0 < bd < 0x1_0000_0000_0000_0000,
        ;
        assert(rb * ad < 0x1_0000_0000_0000_0000_0000_0000_0000_0000) by (nonlinear_arith)
            requires
                0 <= rb < 0x1_0000_0000_0000_0000,
                0 < ad < 0x1_0000_0000_0000_0000,
        ;
    }
    if qa != qb {
        qa < qb
    } else {
        ra * b.den < rb * a.den
    }
}

// ---------------------------------------------------------------------------------------
// A memo of cluster variances
// ---------------------------------------------------------------------------------------

/// Whether two index lists are equal, element by element.
pub fn same_indices(a: &Vec<usize>, b: &Vec<usize>) -> (r: bool)
    ensures
        r == (a@ == b@),
{
    if a.len() != b.len() {
        return false;
    }
    let mut i: usize = 0;
    while i < a.len()
        invariant
            a.len() == b.len(),
            i <= a.len(),
            forall|t: int| 0 <= t < i ==> a@[t] == b@[t],
        decreases a.len() - i,
    {
        if a[i] != b[i] {
            return false;
        }
        i = i + 1;
    }
    assert(a@ =~= b@);
    true
}

/// Variances of clusters, each keyed by the exact list of its members.
pub struct VarianceCache {
    entries: Vec<(Vec<usize>, Fraction)>,
}

impl VarianceCache {
    /// No key occurs twice.
    pub closed spec fn well_formed(&self) -> bool {
        forall|i: int, j: int|
            0 <= i < j < self.entries@.len() ==> #[trigger] self.entries@[i].0@
                != #[trigger] self.entries@[j].0@
    }

    /// The member lists whose variance the memo holds.
    pub closed spec fn contains(&self, key: Seq<usize>) -> bool {
        exists|i: int| 0 <= i < self.entries@.len() && #[trigger] self.entries@[i].0@ == key
    }

    /// Every variance held is the variance of its key over `rows` (features `0..nf`).
    pub closed spec fn holds_variances_of(&self, rows: Seq<Seq<i32>>, nf: int) -> bool {
        forall|i: int|
            0 <= i < self.entries@.len() ==> (#[trigger] self.entries@[i]).1.num == variance_num(
                rows,
                self.entries@[i].0@,
                nf,
            ) && self.entries@[i].1.den == variance_den(self.entries@[i].0@)
    }

    /// An empty memo.
    pub fn new() -> (r: VarianceCache)
        ensures
            r.well_formed(),
            forall|k: Seq<usize>| !r.contains(k),
            forall|rows: Seq<Seq<i32>>, nf: int| r.holds_variances_of(rows, nf),
    {
        VarianceCache { entries: Vec::new() }
    }

    /// Whether the memo holds the variance of the cluster `key`.
    pub fn contains_key(&self, key: &Vec<usize>) -> (r: bool)
        ensures
            r == self.contains(key@),
    {
        match self.find(key) {
            Some(_) => true,
            None => false,
        }
    }

    /// The member lists whose variance the memo holds, as a set.
    pub closed spec fn key_set(&self) -> Set<Seq<usize>> {
        Set::new(|k: Seq<usize>| self.contains(k))
    }

    /// The number of variances held.
    pub fn len(&self) -> (r: usize)
        requires
            self.well_formed(),
        ensures
            self.key_set().finite(),
            r == self.key_set().len(),
    {
        let ghost ks = self.entries@.map_values(|e: (Vec<usize>, Fraction)| e.0@);
        proof {
            assert(ks.no_duplicates()) by {
                assert forall|i: int, j: int| 0 <= i < ks.len() && 0 <= j < ks.len() && i != j
                    implies ks[i] != ks[j] by {
                    if i < j {
                        assert(self.entries@[i].0@ != self.entries@[j].0@);
                    } else {
                        assert(self.entries@[j].0@ != self.entries@[i].0@);
                    }
                }
            }
            ks.unique_seq_to_set();
            assert forall|k: Seq<usize>| ks.to_set().contains(k) <==> self.key_set().contains(k) by {
                if ks.contains(k) {
                    let i = choose|i: int| 0 <= i < ks.len() && ks[i] == k;
                    assert(self.entries@[i].0@ == k);
                }
                if self.contains(k) {
                    let i = choose|i: int|
                        0 <= i < self.entries@.len() && #[trigger] self.entries@[i].0@ == k;
                    assert(ks[i] == k);
                }
            }
            assert(ks.to_set() =~= self.key_set());
        }
        self.entries.len()
    }

    fn find(&self, key: &Vec<usize>) -> (r: Option<usize>)
        ensures
            match r {
                Some(i) => i < self.entries@.len() && self.entries@[i as int].0@ == key@,
                None => !self.contains(key@),
            },
    {
        let mut i: usize = 0;
        while i < self.entries.len()
            invariant
                i <= self.entries@.len(),
                forall|t: int| 0 <= t < i ==> #[trigger] self.entries@[t].0@ != key@,
            decreases self.entries@.len() - i,
        {
            if same_indices(&self.entries[i].0, key) {
                return Some(i);
            }
            i = i + 1;
        }
        None
    }

    /// The variance held for `key`, if any.
    pub(crate) fn get(&self, key: &Vec<usize>) -> (r: Option<Fraction>)
        ensures
            r is Some <==> self.contains(key@),
            forall|rows: Seq<Seq<i32>>, nf: int|
                #![trigger self.holds_variances_of(rows, nf)]
                self.holds_variances_of(rows, nf) ==> (r matches Some(v) ==> v.num == variance_num(
                    rows,
                    key@,
                    nf,
                ) && v.den == variance_den(key@)),
    {
        match self.find(key) {
            Some(i) => Some(self.entries[i].1),
            None => None,
        }
    }

    /// Records the variance `value` of the cluster `key`, which the memo does not hold yet.
    pub(crate) fn insert(&mut self, key: Vec<usize>, value: Fraction)
        requires
            old(self).well_formed(),
            !old(self).contains(key@),
        ensures
            final(self).well_formed(),
            forall|k: Seq<usize>| #[trigger]
                final(self).contains(k) <==> (old(self).contains(k) || k == key@),
            forall|rows: Seq<Seq<i32>>, nf: int|
                #![trigger final(self).holds_variances_of(rows, nf)]
                old(self).holds_variances_of(rows, nf) && value.num == variance_num(rows, key@, nf)
                    && value.den == variance_den(key@) ==> final(self).holds_variances_of(rows, nf),
    {
        let ghost k0 = key@;
        let ghost before = self.entries@;
        self.entries.push((key, value));
        proof {
            assert(self.entries@ == before.push((self.entries@.last().0, value)));
            assert forall|i: int, j: int|
                0 <= i < j < self.entries@.len() implies #[trigger] self.entries@[i].0@
                    != #[trigger] self.entries@[j].0@ by {
                if j == before.len() {
                    assert(before[i].0@ == self.entries@[i].0@);
                    assert(old(self).contains(before[i].0@));
                }
            }
            assert forall|k: Seq<usize>|
                #[trigger] self.contains(k) <==> (old(self).contains(k) || k == k0) by {
                if self.contains(k) {
                    let i = choose|i: int|
                        0 <= i < self.entries@.len() && #[trigger] self.entries@[i].0@ == k;
                    if i < before.len() {
                        assert(before[i].0@ == k);
                    }
                }
                if old(self).contains(k) {
                    let i = choose|i: int| 0 <= i < before.len() && #[trigger] before[i].0@ == k;
                    assert(self.entries@[i].0@ == k);
                }
                if k == k0 {
                    assert(self.entries@[before.len() as int].0@ == k);
                }
            }
        }
    }

    /// Forgets the variance of the cluster `key`, if held.
    pub(crate) fn remove(&mut self, key: &Vec<usize>)
        requires
            old(self).well_formed(),
        ensures
            final(self).well_formed(),
            forall|k: Seq<usize>| #[trigger]
                final(self).contains(k) <==> (old(self).contains(k) && k != key@),
            forall|rows: Seq<Seq<i32>>, nf: int|
                #![trigger final(self).holds_variances_of(rows, nf)]
                old(self).holds_variances_of(rows, nf) ==> final(self).holds_variances_of(rows, nf),
    {
        match self.find(key) {
            Some(i) => {
                let ghost before = self.entries@;
                let _ = self.entries.remove(i);
                proof {
                    assert(self.entries@ == before.remove(i as int));
                    assert forall|a: int, b: int|
                        0 <= a < b < self.entries@.len() implies #[trigger] self.entries@[a].0@
                            != #[trigger] self.entries@[b].0@ by {
                        let a0 = if a < i { a } else { a + 1 };
                        let b0 = if b < i { b } else { b + 1 };
                        assert(self.entries@[a] == before[a0]);
                        assert(self.entries@[b] == before[b0]);
                    }
                    assert forall|k: Seq<usize>|
                        #[trigger] self.contains(k) <==> (old(self).contains(k) && k != key@) by {
                        if self.contains(k) {
                            let t = choose|t: int|
                                0 <= t < self.entries@.len() && #[trigger] self.entries@[t].0@ == k;
                            if t < i {
                                assert(before[t].0@ == k);
                            } else {
                                assert(before[t + 1].0@ == k);
                            }
                        }
                        if old(self).contains(k) && k != key@ {
                            let t = choose|t: int|
                                0 <= t < before.len() && #[trigger] before[t].0@ == k;
                            if t < i {
                                assert(self.entries@[t].0@ == k);
                            } else {
                                assert(t != i);
                                assert(self.entries@[t - 1].0@ == k);
                            }
                        }
                    }
                }
            },
            None => {},
        }
    }
}

} // verus!
