//! Clusterings as maps from a cluster id to the list of its members, and the facts about
//! them that the clustering algorithms rely on.

use std::collections::HashMap;
use vstd::prelude::*;

verus! {

broadcast use {
    vstd::set::group_set_axioms,
    vstd::map::group_map_axioms,
    vstd::std_specs::hash::group_hash_axioms,
};

/// The clusters held by a map from cluster id to the vector of its members.
pub open spec fn member_lists(m: Map<usize, Vec<usize>>) -> Map<usize, Seq<usize>> {
    Map::new(|k: usize| m.dom().contains(k), |k: usize| m[k]@)
}

/// Clusters `i` and `j` are both present, with `i < j`: a pair that may be merged.
pub open spec fn is_candidate(st: Map<usize, Seq<usize>>, i: usize, j: usize) -> bool {
    i < j && st.contains_key(i) && st.contains_key(j)
}

/// The pair `(a, b)` comes before `(i, j)` in row-major order.
pub open spec fn lex_before(a: int, b: int, i: int, j: int) -> bool {
    a < i || (a == i && b < j)
}

/// A map with at least two ids has a pair of ids `a < b`.
pub proof fn lemma_has_candidate(st: Map<usize, Seq<usize>>)
    requires
        st.dom().finite(),
        st.dom().len() >= 2,
    ensures
        exists|a: usize, b: usize| #[trigger] is_candidate(st, a, b),
{
    let x = st.dom().choose();
    assert(st.dom().contains(x));
    let rest = st.dom().remove(x);
    assert(rest.len() >= 1);
    let y = rest.choose();
    assert(rest.contains(y));
    if x < y {
        assert(is_candidate(st, x, y));
    } else {
        assert(is_candidate(st, y, x));
    }
}

/// The pairs of ids below `n`.
pub open spec fn pairs_below(n: nat) -> Set<(usize, usize)> {
    Set::new(|p: (usize, usize)| p.0 < n && p.1 < n)
}

/// There are finitely many pairs of ids below `n`.
pub proof fn lemma_pairs_below_finite(n: nat)
    requires
        n <= usize::MAX + 1,
    ensures
        pairs_below(n).finite(),
    decreases n,
{
    if n == 0 {
        assert(pairs_below(0) =~= Set::empty());
    } else {
        let m = (n - 1) as nat;
        let top = m as usize;
        lemma_pairs_below_finite(m);
        lemma_ids_below(n);
        lemma_ids_below(m);
        let row = ids_below(n).map(|b: usize| (top, b));
        let col = ids_below(m).map(|a: usize| (a, top));
        ids_below(n).lemma_map_finite(|b: usize| (top, b));
        ids_below(m).lemma_map_finite(|a: usize| (a, top));
        assert forall|p: (usize, usize)| #[trigger] pairs_below(n).contains(p) implies pairs_below(m).union(
            row,
        ).union(col).contains(p) by {
            if p.0 == top {
                assert(ids_below(n).contains(p.1));
                assert(row.contains(p));
            } else if p.1 == top {
                assert(ids_below(m).contains(p.0));
                assert(col.contains(p));
            }
        }
        assert(pairs_below(n).subset_of(pairs_below(m).union(row).union(col)));
        vstd::set_lib::lemma_set_subset_finite(pairs_below(m).union(row).union(col), pairs_below(n));
    }
}

/// The ids `0..n`.
pub open spec fn ids_below(n: nat) -> Set<usize> {
    Set::new(|k: usize| k < n)
}

/// `n` clusters of one sample each: cluster `k` holds sample `k`.
pub open spec fn singletons(n: nat) -> Map<usize, Seq<usize>> {
    Map::new(|k: usize| k < n, |k: usize| seq![k])
}

/// The clusters of `st` split the samples `0..n`: every cluster is a non-empty list of
/// distinct samples below `n`, no sample is in two clusters, every sample is in one, and
/// cluster ids are below `n`.
pub open spec fn is_partition(st: Map<usize, Seq<usize>>, n: nat) -> bool {
    &&& st.dom().finite()
    &&& forall|k: usize| #[trigger] st.contains_key(k) ==> k < n
    &&& forall|k: usize|
        #[trigger] st.contains_key(k) ==> st[k].len() > 0 && st[k].no_duplicates() && (forall|t: int|
            0 <= t < st[k].len() ==> #[trigger] st[k][t] < n)
    &&& forall|k1: usize, k2: usize, p: usize|
        #![trigger st[k1].contains(p), st[k2].contains(p)]
        st.contains_key(k1) && st.contains_key(k2) && k1 != k2 && st[k1].contains(p) ==> !st[k2].contains(p)
    &&& forall|p: usize|
        p < n ==> st.contains_key(#[trigger] cluster_of(st, p)) && st[cluster_of(st, p)].contains(p)
}

/// Cluster `j` merged into cluster `i`: `i` now lists its members followed by those of `j`,
/// and `j` is gone.
pub open spec fn merge_clusters(st: Map<usize, Seq<usize>>, i: usize, j: usize) -> Map<usize, Seq<usize>> {
    st.remove(j).insert(i, st[i] + st[j])
}

/// The id of the cluster that holds sample `p`.
pub open spec fn cluster_of(st: Map<usize, Seq<usize>>, p: usize) -> usize {
    choose|k: usize| st.contains_key(k) && st[k].contains(p)
}

/// The number of ids in `ids` below `key`.
pub open spec fn rank_below(ids: Set<usize>, key: int) -> nat
    decreases key,
{
    if key <= 0 {
        0
    } else {
        rank_below(ids, key - 1) + if ids.contains((key - 1) as usize) {
            1nat
        } else {
            0nat
        }
    }
}

/// `0..n` has `n` elements.
pub proof fn lemma_ids_below(n: nat)
    requires
        n <= usize::MAX + 1,
    ensures
        ids_below(n).finite(),
        ids_below(n).len() == n,
    decreases n,
{
    if n == 0 {
        assert(ids_below(0) =~= Set::empty());
    } else {
        lemma_ids_below((n - 1) as nat);
        assert(ids_below(n) =~= ids_below((n - 1) as nat).insert((n - 1) as usize));
    }
}

/// The one-sample clusters split `0..n` into `n` clusters.
pub proof fn lemma_singletons(n: nat)
    requires
        n <= usize::MAX + 1,
    ensures
        is_partition(singletons(n), n),
        singletons(n).dom().len() == n,
{
    lemma_ids_below(n);
    assert(singletons(n).dom() =~= ids_below(n));
    assert forall|p: usize| p < n implies singletons(n).contains_key(#[trigger] cluster_of(singletons(n), p))
        && singletons(n)[cluster_of(singletons(n), p)].contains(p) by {
        assert(singletons(n)[p][0] == p);
        assert(singletons(n).contains_key(p) && singletons(n)[p].contains(p));
    }
    assert forall|k1: usize, k2: usize, p: usize|
        #![trigger singletons(n)[k1].contains(p), singletons(n)[k2].contains(p)]
        singletons(n).contains_key(k1) && singletons(n).contains_key(k2) && k1 != k2
            && singletons(n)[k1].contains(p) implies !singletons(n)[k2].contains(p) by {
        assert(singletons(n)[k1] =~= seq![k1]);
        assert(singletons(n)[k2] =~= seq![k2]);
    }
}

/// The id of every cluster is its smallest member.
pub open spec fn ids_are_smallest_members(st: Map<usize, Seq<usize>>) -> bool {
    forall|k: usize|
        #[trigger] st.contains_key(k) ==> st[k].contains(k) && forall|t: int|
            0 <= t < st[k].len() ==> k <= #[trigger] st[k][t]
}

/// One-sample clusters are named after their sample.
pub proof fn lemma_singletons_ids(n: nat)
    ensures
        ids_are_smallest_members(singletons(n)),
{
    assert forall|k: usize| #[trigger] singletons(n).contains_key(k) implies singletons(n)[k].contains(k)
        && forall|t: int| 0 <= t < singletons(n)[k].len() ==> k <= #[trigger] singletons(n)[k][t] by {
        assert(singletons(n)[k][0] == k);
    }
}

/// Merging a cluster into one with a smaller id keeps every id the smallest member.
pub proof fn lemma_merge_ids(st: Map<usize, Seq<usize>>, i: usize, j: usize)
    requires
        ids_are_smallest_members(st),
        st.contains_key(i),
        st.contains_key(j),
        i < j,
    ensures
        ids_are_smallest_members(merge_clusters(st, i, j)),
{
    let m = merge_clusters(st, i, j);
    assert forall|k: usize| #[trigger] m.contains_key(k) implies m[k].contains(k) && forall|t: int|
        0 <= t < m[k].len() ==> k <= #[trigger] m[k][t] by {
        if k == i {
            let t0 = choose|t0: int| 0 <= t0 < st[i].len() && st[i][t0] == i;
            assert(m[i][t0] == i);
            assert forall|t: int| 0 <= t < m[k].len() implies k <= #[trigger] m[k][t] by {
                if t < st[i].len() {
                    assert(m[k][t] == st[i][t]);
                } else {
                    assert(m[k][t] == st[j][t - st[i].len()]);
                }
            }
        } else {
            assert(m[k] == st[k]);
        }
    }
}

/// A list of distinct samples below `n` has at most `n` entries.
pub proof fn lemma_distinct_below_len(s: Seq<usize>, n: nat)
    requires
        s.no_duplicates(),
        forall|t: int| 0 <= t < s.len() ==> #[trigger] s[t] < n,
    ensures
        s.len() <= n,
    decreases n,
{
    if n == 0 {
        if s.len() > 0 {
            assert(s[0] < 0);
        }
    } else {
        let top = (n - 1) as usize;
        if s.contains(top) {
            let i = choose|i: int| 0 <= i < s.len() && s[i] == top;
            let r = s.remove(i);
            assert forall|t: int| 0 <= t < r.len() implies #[trigger] r[t] < n - 1 by {
                if t < i {
                    assert(r[t] == s[t]);
                } else {
                    assert(r[t] == s[t + 1]);
                }
            }
            assert(r.no_duplicates()) by {
                assert forall|a: int, b: int| 0 <= a < b < r.len() implies r[a] != r[b] by {
                    let a0 = if a < i { a } else { a + 1 };
                    let b0 = if b < i { b } else { b + 1 };
                    assert(r[a] == s[a0] && r[b] == s[b0]);
                }
            }
            lemma_distinct_below_len(r, (n - 1) as nat);
        } else {
            assert forall|t: int| 0 <= t < s.len() implies #[trigger] s[t] < n - 1 by {
                assert(s[t] != top);
            }
            lemma_distinct_below_len(s, (n - 1) as nat);
        }
    }
}

/// Two different clusters of a partition hold at most `n` samples together, and their
/// concatenation lists distinct samples below `n`.
pub proof fn lemma_pair_size(st: Map<usize, Seq<usize>>, a: usize, b: usize, n: nat)
    requires
        is_partition(st, n),
        st.contains_key(a),
        st.contains_key(b),
        a != b,
    ensures
        st[a].len() + st[b].len() <= n,
        (st[a] + st[b]).no_duplicates(),
        forall|t: int| 0 <= t < (st[a] + st[b]).len() ==> #[trigger] (st[a] + st[b])[t] < n,
{
    let s = st[a] + st[b];
    assert forall|t: int| 0 <= t < s.len() implies #[trigger] s[t] < n by {
        if t < st[a].len() {
            assert(s[t] == st[a][t]);
        } else {
            assert(s[t] == st[b][t - st[a].len()]);
        }
    }
    assert forall|x: int, y: int| 0 <= x < y < s.len() implies s[x] != s[y] by {
        let la = st[a].len() as int;
        if y < la {
            assert(s[x] == st[a][x] && s[y] == st[a][y]);
        } else if x >= la {
            assert(s[x] == st[b][x - la] && s[y] == st[b][y - la]);
        } else {
            assert(s[x] == st[a][x] && s[y] == st[b][y - la]);
            if s[x] == s[y] {
                assert(st[a].contains(s[x]));
                assert(st[b].contains(s[x]));
            }
        }
    }
    lemma_distinct_below_len(s, n);
}

/// Merging two different clusters of a partition gives a partition with one cluster less.
pub proof fn lemma_merge_partition(st: Map<usize, Seq<usize>>, i: usize, j: usize, n: nat)
    requires
        is_partition(st, n),
        st.contains_key(i),
        st.contains_key(j),
        i != j,
    ensures
        is_partition(merge_clusters(st, i, j), n),
        merge_clusters(st, i, j).dom().len() == st.dom().len() - 1,
        merge_clusters(st, i, j).dom() == st.dom().remove(j),
{
    let m = merge_clusters(st, i, j);
    lemma_pair_size(st, i, j, n);
    assert(m.dom() =~= st.dom().remove(j));
    assert(m[i] == st[i] + st[j]);
    assert forall|k: usize| #[trigger] m.contains_key(k) implies m[k].len() > 0
        && m[k].no_duplicates() && (forall|t: int| 0 <= t < m[k].len() ==> #[trigger] m[k][t] < n) by {
        if k != i {
            assert(m[k] == st[k]);
        }
    }
    assert forall|k1: usize, k2: usize, p: usize|
        #![trigger m[k1].contains(p), m[k2].contains(p)]
        m.contains_key(k1) && m.contains_key(k2) && k1 != k2 && m[k1].contains(p) implies !m[k2].contains(p) by {
        if m[k2].contains(p) {
            let t1 = choose|t: int| 0 <= t < m[k1].len() && m[k1][t] == p;
            let t2 = choose|t: int| 0 <= t < m[k2].len() && m[k2][t] == p;
            let o1: usize = if k1 == i && t1 >= st[i].len() { j } else { k1 };
            let o2: usize = if k2 == i && t2 >= st[i].len() { j } else { k2 };
            if k1 == i {
                if t1 < st[i].len() {
                    assert(st[i][t1] == p);
                } else {
                    assert(st[j][t1 - st[i].len()] == p);
                }
            } else {
                assert(st[k1][t1] == p);
            }
            if k2 == i {
                if t2 < st[i].len() {
                    assert(st[i][t2] == p);
                } else {
                    assert(st[j][t2 - st[i].len()] == p);
                }
            } else {
                assert(st[k2][t2] == p);
            }
            assert(st[o1].contains(p));
            assert(st[o2].contains(p));
            assert(o1 != o2);
        }
    }
    assert forall|p: usize| p < n implies m.contains_key(#[trigger] cluster_of(m, p)) && m[cluster_of(m, p)].contains(p) by {
        let k = cluster_of(st, p);
        let t = choose|t: int| 0 <= t < st[k].len() && st[k][t] == p;
        if k == j {
            assert(m[i][st[i].len() + t] == p);
            assert(m.contains_key(i) && m[i].contains(p));
        } else if k == i {
            assert(m[i][t] == p);
            assert(m.contains_key(i) && m[i].contains(p));
        } else {
            assert(m[k] == st[k]);
            assert(m.contains_key(k) && m[k].contains(p));
        }
    }
}

/// In a partition, the cluster of a sample is the one cluster that lists it.
pub proof fn lemma_cluster_of(st: Map<usize, Seq<usize>>, n: nat, p: usize)
    requires
        is_partition(st, n),
        p < n,
    ensures
        st.contains_key(cluster_of(st, p)),
        st[cluster_of(st, p)].contains(p),
        forall|k: usize| st.contains_key(k) && #[trigger] st[k].contains(p) ==> k == cluster_of(st, p),
{
    let c = cluster_of(st, p);
    assert forall|k: usize| st.contains_key(k) && #[trigger] st[k].contains(p) implies k == c by {
        if k != c {
            assert(st[c].contains(p));
        }
    }
}

/// Among ids below `n`, the ranks below `m` count the ids of `ids` below `m`; all of them
/// when `m == n`.
pub proof fn lemma_rank_all(ids: Set<usize>, n: nat)
    requires
        forall|k: usize| #[trigger] ids.contains(k) ==> k < n,
        n <= usize::MAX + 1,
    ensures
        rank_below(ids, n as int) == ids.len(),
        ids.finite(),
{
    lemma_rank_prefix(ids, n, n);
    assert(ids.filter(|k: usize| k < n) =~= ids);
}

proof fn lemma_rank_prefix(ids: Set<usize>, n: nat, m: nat)
    requires
        m <= n,
        forall|k: usize| #[trigger] ids.contains(k) ==> k < n,
        n <= usize::MAX + 1,
    ensures
        ids.filter(|k: usize| k < m).finite(),
        rank_below(ids, m as int) == ids.filter(|k: usize| k < m).len(),
    decreases m,
{
    let fm = ids.filter(|k: usize| k < m);
    if m == 0 {
        assert(fm =~= Set::empty());
    } else {
        lemma_rank_prefix(ids, n, (m - 1) as nat);
        let fp = ids.filter(|k: usize| k < (m - 1) as nat);
        let top = (m - 1) as usize;
        if ids.contains(top) {
            assert(fm =~= fp.insert(top));
        } else {
            assert(fm =~= fp);
        }
    }
}

/// Ranks grow with the id: an id of `ids` below `m` has a rank below `rank_below(ids, m)`.
pub proof fn lemma_rank_lt(ids: Set<usize>, key: usize, m: int)
    requires
        ids.contains(key),
        key < m,
    ensures
        rank_below(ids, key as int) < rank_below(ids, m),
    decreases m,
{
    if m > key + 1 {
        lemma_rank_lt(ids, key, m - 1);
    }
}

/// Every rank below `rank_below(ids, m)` is the rank of some id of `ids` below `m`.
pub proof fn lemma_rank_onto(ids: Set<usize>, m: int, c: nat)
    requires
        c < rank_below(ids, m),
        m <= usize::MAX + 1,
    ensures
        exists|key: usize| key < m && ids.contains(key) && #[trigger] rank_below(ids, key as int) == c,
    decreases m,
{
    if m > 0 {
        if c < rank_below(ids, m - 1) {
            lemma_rank_onto(ids, m - 1, c);
        } else {
            let key = (m - 1) as usize;
            assert(rank_below(ids, key as int) == c);
        }
    }
}

/// `n` clusters of one sample each, keyed by their sample, as a hash map from cluster id to
/// its members.
pub(crate) fn singleton_clusters(n: usize) -> (m: HashMap<usize, Vec<usize>>)
    ensures
        member_lists(m@) == singletons(n as nat),
{
    let mut m: HashMap<usize, Vec<usize>> = HashMap::new();
    let mut i: usize = 0;
    while i < n
        invariant
            i <= n,
            member_lists(m@) == singletons(i as nat),
        decreases n - i,
    {
        let one: Vec<usize> = vec![i];
        proof {
            assert(one@ == seq![i]);
        }
        let ghost old_m = m@;
        m.insert(i, one);
        proof {
            let nm = member_lists(m@);
            let s1 = singletons((i + 1) as nat);
            assert(nm.dom() =~= s1.dom()) by {
                assert forall|key: usize| nm.dom().contains(key) <==> s1.dom().contains(key) by {
                    if key < i {
                        assert(member_lists(old_m).contains_key(key));
                    }
                    if nm.dom().contains(key) && key != i {
                        assert(member_lists(old_m).contains_key(key));
                    }
                }
            }
            assert forall|key: usize| #[trigger] nm.contains_key(key) implies nm[key] == s1[key] by {
                if key != i {
                    assert(member_lists(old_m).contains_key(key));
                    assert(member_lists(old_m)[key] == singletons(i as nat)[key]);
                }
            }
            assert(nm =~= s1);
        }
        i = i + 1;
    }
    m
}

/// The labels of a partition of `0..n`: the clusters are numbered `0, 1, ...` in the order
/// in which the map's keys are walked, and each sample gets the number of its cluster.
/// The walk order is the one of `HashMap::keys`; what holds for every order is stated.
pub(crate) fn labels_in_key_order(indices_mapping: &HashMap<usize, Vec<usize>>, n: usize) -> (labels:
    Vec<usize>)
    requires
        is_partition(member_lists(indices_mapping@), n as nat),
    ensures
        labels.len() == n,
        exists|order: Seq<usize>|
            #![trigger order.to_set()]
            order.no_duplicates() && order.to_set() == indices_mapping@.dom() && order.len()
                == indices_mapping@.dom().len() && forall|p: int|
                0 <= p < n ==> labels@[p] < order.len() && order[labels@[p] as int] == cluster_of(
                    member_lists(indices_mapping@),
                    p as usize,
                ),
        same_cluster_same_label(member_lists(indices_mapping@), labels@, n as nat),
        forall|p: int| 0 <= p < n ==> #[trigger] labels@[p] < indices_mapping@.dom().len(),
        forall|c: usize| c < indices_mapping@.dom().len() ==> #[trigger] labels@.contains(c),
{
    let ghost st = member_lists(indices_mapping@);
    let ghost dom = indices_mapping@.dom();
    proof {
        assert(st.dom() == dom);
    }
    let total = indices_mapping.len();
    let mut labels: Vec<usize> = vec![0; n];
    let mut c: usize = 0;
    let ghost mut order: Seq<usize> = Seq::empty();
    for key in it: indices_mapping.keys()
        invariant
            st == member_lists(indices_mapping@),
            dom == indices_mapping@.dom(),
            st.dom() == dom,
            is_partition(st, n as nat),
            labels.len() == n,
            c == it.index(),
            total == dom.len(),
            it.seq().len() == dom.len(),
            it.seq().no_duplicates(),
            it.seq().unref().to_set() == dom,
            order == it.seq().unref().take(c as int),
            c <= dom.len(),
            c == dom.len() ==> order.to_set() == dom,
            forall|p: usize|
                p < n && (exists|t: int| 0 <= t < c && #[trigger] order[t] == cluster_of(st, p)) ==> labels@[p as int] < c
                    && order[labels@[p as int] as int] == cluster_of(st, p),
    {
        proof {
            assert(it.seq().unref()[c as int] == *key);
            assert(it.seq().unref().contains(*key));
            order = order.push(*key);
            assert(order =~= it.seq().unref().take(c + 1));
            assert(order.no_duplicates());
            if c + 1 == dom.len() {
                assert(order =~= it.seq().unref());
            }
            assert(order[c as int] == *key);
            assert(order.contains(*key));
            assert(dom.contains(*key));
        }
        let members = indices_mapping.get(key).unwrap();
        let mut t: usize = 0;
        while t < members.len()
            invariant
                st == member_lists(indices_mapping@),
                is_partition(st, n as nat),
                st.contains_key(*key),
                members@ == st[*key],
                order[c as int] == *key,
                order.no_duplicates(),
                c < order.len(),
                labels.len() == n,
                t <= members.len(),
                forall|p: usize|
                    p < n && (exists|t: int| 0 <= t < c && #[trigger] order[t] == cluster_of(st, p)) ==> labels@[p as int] < c
                        && order[labels@[p as int] as int] == cluster_of(st, p),
                forall|x: int| 0 <= x < t ==> labels@[#[trigger] members@[x] as int] == c,
            decreases members.len() - t,
        {
            let p = members[t];
            proof {
                assert(st[*key][t as int] == p);
                assert(p < n);
                lemma_cluster_of(st, n as nat, p);
                assert(st[*key].contains(p));
                assert(cluster_of(st, p) == *key);
            }
            labels.set(p, c);
            proof {
                assert forall|q: usize|
                    q < n && (exists|t: int| 0 <= t < c && #[trigger] order[t] == cluster_of(st, q)) implies labels@[q as int] < c
                        && order[labels@[q as int] as int] == cluster_of(st, q) by {
                    if q == p {
                        let t0 = choose|t0: int| 0 <= t0 < c && #[trigger] order[t0] == cluster_of(st, q);
                        assert(order[t0] == order[c as int]);
                    }
                }
                assert forall|x: int| 0 <= x < t + 1 implies labels@[#[trigger] members@[x] as int] == c by {
                    if members@[x] != p {
                        assert(x < t);
                    }
                }
            }
            t = t + 1;
        }
        proof {
            assert forall|q: usize|
                q < n && (exists|t: int| 0 <= t < c + 1 && #[trigger] order[t] == cluster_of(st, q)) implies labels@[q as int] < c + 1
                    && order[labels@[q as int] as int] == cluster_of(st, q) by {
                let t0 = choose|t0: int| 0 <= t0 < c + 1 && #[trigger] order[t0] == cluster_of(st, q);
                if t0 == c {
                    lemma_cluster_of(st, n as nat, q);
                    assert(st[*key].contains(q));
                    let x = choose|x: int| 0 <= x < st[*key].len() && st[*key][x] == q;
                    assert(labels@[members@[x] as int] == c);
                }
            }
        }
        c = c + 1;
    }
    proof {
        assert(c == dom.len());
        if c == 0 {
            assert(order.to_set() =~= Set::empty());
        }
        assert(order.len() == dom.len());
        assert forall|p: int| 0 <= p < n implies labels@[p] < order.len() && order[labels@[p] as int]
            == cluster_of(st, p as usize) by {
            lemma_cluster_of(st, n as nat, p as usize);
            assert(order.to_set().contains(cluster_of(st, p as usize)));
            let t0 = choose|t0: int| 0 <= t0 < order.len() && order[t0] == cluster_of(st, p as usize);
            assert(order[t0] == cluster_of(st, p as usize));
        }
        assert forall|p: int, q: int|
            0 <= p < n && 0 <= q < n implies (labels@[p] == labels@[q] <==> cluster_of(st, p as usize) == cluster_of(st, q as usize)) by {
            if cluster_of(st, p as usize) == cluster_of(st, q as usize) {
                assert(order[labels@[p] as int] == order[labels@[q] as int]);
            }
        }
        assert forall|x: usize| x < dom.len() implies #[trigger] labels@.contains(x) by {
            let key = order[x as int];
            assert(order.to_set().contains(key));
            assert(st.contains_key(key));
            let p = st[key][0];
            assert(st[key].contains(p));
            assert(p < n);
            lemma_cluster_of(st, n as nat, p);
            assert(order[labels@[p as int] as int] == key);
            assert(labels@[p as int] == x);
        }
    }
    labels
}

/// Samples share a label exactly when they share a cluster.
pub open spec fn same_cluster_same_label(st: Map<usize, Seq<usize>>, labels: Seq<usize>, n: nat) -> bool {
    forall|p: int, q: int|
        0 <= p < n && 0 <= q < n ==> (#[trigger] labels[p] == #[trigger] labels[q] <==> cluster_of(
            st,
            p as usize,
        ) == cluster_of(st, q as usize))
}

} // verus!
