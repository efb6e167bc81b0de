//! Bookkeeping of agglomerative clustering: which clusters are still
//! active, which points they hold, and the merge tree they form.

use vstd::prelude::*;
use crate::metric::{DistanceMetric, Linkage};

verus! {

/// Parameters for Hierarchical Clustering.
pub struct HierarchicalParams {
    /// Number of clusters to find.
    pub n_clusters: usize,
    /// Linkage criterion.
    pub linkage: Linkage,
    /// Distance metric.
    pub metric: DistanceMetric,
}

impl HierarchicalParams {
    /// Create new parameters (Ward linkage, Euclidean metric).
    pub fn new(n_clusters: usize) -> (params: Self)
        ensures
            params.n_clusters == n_clusters,
            params.linkage == Linkage::Ward,
            params.metric == DistanceMetric::Euclidean,
    {
        HierarchicalParams { n_clusters, linkage: Linkage::Ward, metric: DistanceMetric::Euclidean }
    }

    /// Set linkage criterion.
    pub fn with_linkage(self, linkage: Linkage) -> (params: Self)
        ensures
            params.n_clusters == self.n_clusters,
            params.linkage == linkage,
            params.metric == self.metric,
    {
        HierarchicalParams { linkage, ..self }
    }

    /// Set distance metric.
    pub fn with_metric(self, metric: DistanceMetric) -> (params: Self)
        ensures
            params.n_clusters == self.n_clusters,
            params.linkage == self.linkage,
            params.metric == metric,
    {
        HierarchicalParams { metric, ..self }
    }
}

/// The state of agglomerative clustering over `n` samples: slot `i` holds a
/// cluster (initially `{i}`), its node ID in the merge tree, and whether it
/// is still active.
pub struct MergeState {
    /// Points of the cluster in each slot.
    pub clusters: Vec<Vec<usize>>,
    /// Node ID of each slot's cluster in the merge tree (leaves are `0..n`).
    pub cluster_ids: Vec<usize>,
    /// Whether each slot still holds a cluster.
    pub active: Vec<bool>,
    /// The two node IDs joined by each merge, in order; merge `k` creates node `n + k`.
    pub children: Vec<[usize; 2]>,
    /// Node ID the next merge creates.
    pub next_cluster_id: usize,
    /// Number of active slots.
    pub n_active: usize,
}

/// Number of active slots before slot `i`: the label of slot `i`'s cluster.
pub open spec fn active_rank(active: Seq<bool>, i: int) -> nat
    decreases i,
{
    if i <= 0 {
        0
    } else {
        active_rank(active, i - 1) + (if active[i - 1] { 1nat } else { 0nat })
    }
}

/// The last active slot, among the first `k`, whose cluster holds `p`; `-1` if none.
pub open spec fn last_active_with(clusters: Seq<Vec<usize>>, active: Seq<bool>, p: usize, k: int) -> int
    decreases k,
{
    if k <= 0 {
        -1
    } else if active[k - 1] && clusters[k - 1]@.contains(p) {
        k - 1
    } else {
        last_active_with(clusters, active, p, k - 1)
    }
}

/// Label of point `p`: the rank of the last active cluster holding it (`0` if none).
pub open spec fn merged_label(clusters: Seq<Vec<usize>>, active: Seq<bool>, p: usize) -> int {
    let s = last_active_with(clusters, active, p, clusters.len() as int);
    if s >= 0 {
        active_rank(active, s) as int
    } else {
        0
    }
}

/// Point `p` lies in exactly one active cluster.
pub open spec fn in_one_active(clusters: Seq<Vec<usize>>, active: Seq<bool>, p: usize) -> bool {
    &&& exists|i: int| 0 <= i < clusters.len() && active[i] && #[trigger] clusters[i]@.contains(p)
    &&& forall|i: int, j: int|
        0 <= i < clusters.len() && 0 <= j < clusters.len() && active[i] && active[j]
            && #[trigger] clusters[i]@.contains(p) && #[trigger] clusters[j]@.contains(p) ==> i == j
}

proof fn lemma_active_rank_step(active: Seq<bool>, i: int, k: int)
    requires
        0 <= i < k <= active.len(),
    ensures
        active_rank(active, i) + (if active[i] { 1int } else { 0int }) <= active_rank(active, k),
    decreases k,
{
    if k > i + 1 {
        lemma_active_rank_step(active, i, k - 1);
    }
}

proof fn lemma_active_rank_retire(active: Seq<bool>, c: int, k: int)
    requires
        0 <= c < active.len(),
        active[c],
        0 <= k <= active.len(),
    ensures
        active_rank(active.update(c, false), k) == active_rank(active, k) - (if k > c { 1int } else { 0int }),
    decreases k,
{
    if k > 0 {
        lemma_active_rank_retire(active, c, k - 1);
    }
}

proof fn lemma_active_rank_all(active: Seq<bool>, k: int)
    requires
        0 <= k <= active.len(),
        forall|i: int| 0 <= i < k ==> #[trigger] active[i],
    ensures
        active_rank(active, k) == k,
    decreases k,
{
    if k > 0 {
        lemma_active_rank_all(active, k - 1);
    }
}

/// Every value below the number of active slots among the first `k` is the
/// rank of one of them.
proof fn lemma_active_rank_onto(active: Seq<bool>, k: int, c: int)
    requires
        0 <= k <= active.len(),
        0 <= c < active_rank(active, k),
    ensures
        exists|i: int| 0 <= i < k && active[i] && #[trigger] active_rank(active, i) == c,
    decreases k,
{
    if c < active_rank(active, k - 1) {
        lemma_active_rank_onto(active, k - 1, c);
        let i = choose|i: int| 0 <= i < k - 1 && active[i] && #[trigger] active_rank(active, i) == c;
    } else {
        assert(active[k - 1] && active_rank(active, k - 1) == c);
    }
}

proof fn lemma_last_active_is(clusters: Seq<Vec<usize>>, active: Seq<bool>, p: usize, k: int, s: int)
    requires
        0 <= s < k <= clusters.len(),
        active[s],
        clusters[s]@.contains(p),
        forall|i: int| s < i < k && #[trigger] active[i] ==> !clusters[i]@.contains(p),
    ensures
        last_active_with(clusters, active, p, k) == s,
    decreases k,
{
    if k - 1 > s {
        lemma_last_active_is(clusters, active, p, k - 1, s);
    }
}

/// With the active clusters a partition, each point is labelled with the
/// rank of its cluster, and the labels are exactly `0..n_active`.
pub proof fn lemma_partition_labels(state: MergeState, p: usize, s: int)
    requires
        state.wf(),
        state.partitioned(),
        0 <= s < state.clusters.len(),
        state.active@[s],
        state.clusters@[s]@.contains(p),
    ensures
        merged_label(state.clusters@, state.active@, p) == active_rank(state.active@, s),
        active_rank(state.active@, s) < state.n_active,
{
    let n = state.clusters.len() as int;
    assert(p < n) by {
        let k = choose|k: int| 0 <= k < state.clusters@[s]@.len() && state.clusters@[s]@[k] == p;
        assert(state.clusters@[s]@[k] < n);
    }
    assert(in_one_active(state.clusters@, state.active@, (p as int) as usize));
    assert forall|i: int| s < i < n && #[trigger] state.active@[i] implies !state.clusters@[i]@.contains(p) by {
        if state.clusters@[i]@.contains(p) {
            assert(i == s);
        }
    }
    lemma_last_active_is(state.clusters@, state.active@, p, n, s);
    lemma_active_rank_step(state.active@, s, n);
}

/// Some point carries label `c`.
pub open spec fn label_used(labels: Seq<usize>, c: int) -> bool {
    exists|p: int| 0 <= p < labels.len() && labels[p] == c
}

/// Merging the active clusters of two distinct active slots keeps the
/// clusters of the active slots a partition into non-empty parts.
proof fn lemma_merge_partition(
    cl0: Seq<Vec<usize>>,
    act0: Seq<bool>,
    cl1: Seq<Vec<usize>>,
    act1: Seq<bool>,
    c1: int,
    c2: int,
)
    requires
        cl0.len() == act0.len(),
        0 <= c1 < cl0.len(),
        0 <= c2 < cl0.len(),
        c1 != c2,
        act0[c1],
        act0[c2],
        forall|p: int| 0 <= p < cl0.len() ==> #[trigger] in_one_active(cl0, act0, p as usize),
        forall|i: int| 0 <= i < cl0.len() && #[trigger] act0[i] ==> cl0[i].len() > 0,
        cl1.len() == cl0.len(),
        act1 == act0.update(c2, false),
        cl1[c1]@ == cl0[c1]@ + cl0[c2]@,
        forall|i: int| 0 <= i < cl0.len() && i != c1 ==> #[trigger] cl1[i]@ == cl0[i]@,
    ensures
        forall|p: int| 0 <= p < cl1.len() ==> #[trigger] in_one_active(cl1, act1, p as usize),
        forall|i: int| 0 <= i < cl1.len() && #[trigger] act1[i] ==> cl1[i].len() > 0,
{
    let n = cl0.len();
    assert forall|x: usize| #[trigger] cl1[c1]@.contains(x) <==> (cl0[c1]@.contains(x) || cl0[c2]@.contains(x)) by {
        let a = cl0[c1]@;
        let b = cl0[c2]@;
        if (a + b).contains(x) {
            let k = choose|k: int| 0 <= k < (a + b).len() && (a + b)[k] == x;
            if k < a.len() {
                assert(a[k] == x);
            } else {
                assert(b[k - a.len()] == x);
            }
        }
        if a.contains(x) {
            let k = choose|k: int| 0 <= k < a.len() && a[k] == x;
            assert((a + b)[k] == x);
        }
        if b.contains(x) {
            let k = choose|k: int| 0 <= k < b.len() && b[k] == x;
            assert((a + b)[a.len() + k] == x);
        }
    }
    assert forall|p: int| 0 <= p < n implies #[trigger] in_one_active(cl1, act1, p as usize) by {
        let x = p as usize;
        assert(in_one_active(cl0, act0, x));
        let s = choose|i: int| 0 <= i < n && act0[i] && #[trigger] cl0[i]@.contains(x);
        let w = if s == c2 { c1 } else { s };
        assert(act1[w]);
        if s == c2 || s == c1 {
            assert(cl1[c1]@.contains(x));
        } else {
            assert(cl1[s]@ == cl0[s]@);
        }
        assert(0 <= w < n && act1[w] && cl1[w]@.contains(x));
        assert forall|i: int, j: int|
            0 <= i < n && 0 <= j < n && act1[i] && act1[j] && #[trigger] cl1[i]@.contains(x)
                && #[trigger] cl1[j]@.contains(x) implies i == j by {
            // each of `i`, `j` is `c1` or the old slot of `x`
            assert(i == c1 || cl1[i]@ == cl0[i]@);
            assert(j == c1 || cl1[j]@ == cl0[j]@);
            if i == c1 && j != c1 {
                assert(cl0[j]@.contains(x));
                if cl0[c1]@.contains(x) {
                    assert(act0[j] && act0[c1]);
                } else {
                    assert(cl0[c2]@.contains(x));
                    assert(act0[j] && act0[c2]);
                }
            } else if j == c1 && i != c1 {
                assert(cl0[i]@.contains(x));
                if cl0[c1]@.contains(x) {
                    assert(act0[i] && act0[c1]);
                } else {
                    assert(cl0[c2]@.contains(x));
                    assert(act0[i] && act0[c2]);
                }
            } else if i != c1 && j != c1 {
                assert(cl0[i]@.contains(x) && cl0[j]@.contains(x));
                assert(act0[i] && act0[j]);
            }
        }
    }
    assert forall|i: int| 0 <= i < n && #[trigger] act1[i] implies cl1[i].len() > 0 by {
        if i == c1 {
            assert(cl1[c1]@.len() == cl0[c1]@.len() + cl0[c2]@.len());
        } else {
            assert(cl1[i]@ == cl0[i]@);
        }
    }
}

impl MergeState {
    /// The invariant: one slot per sample, and every point is a sample.
    pub open spec fn wf(&self) -> bool {
        let n = self.clusters.len();
        &&& self.cluster_ids.len() == n
        &&& self.active.len() == n
        &&& forall|i: int, k: int|
            0 <= i < n && 0 <= k < self.clusters@[i].len() ==> #[trigger] self.clusters@[i]@[k] < n
    }

    /// The clusters of the active slots partition the samples, none of them
    /// is empty, and `n_active` counts them.
    pub open spec fn partitioned(&self) -> bool {
        &&& forall|p: int| 0 <= p < self.clusters.len() ==> #[trigger] in_one_active(self.clusters@, self.active@, p as usize)
        &&& forall|i: int| 0 <= i < self.clusters.len() && #[trigger] self.active@[i] ==> self.clusters@[i].len() > 0
        &&& self.n_active == active_rank(self.active@, self.clusters.len() as int)
    }

    /// Every sample in a cluster of its own.
    pub fn new(n_samples: usize) -> (state: Self)
        requires
            n_samples > 0,
        ensures
            state.wf(),
            state.clusters.len() == n_samples,
            forall|i: int| 0 <= i < n_samples ==> #[trigger] state.clusters@[i]@ == seq![i as usize],
            forall|i: int| 0 <= i < n_samples ==> #[trigger] state.cluster_ids@[i] == i,
            forall|i: int| 0 <= i < n_samples ==> #[trigger] state.active@[i],
            state.children@ == Seq::<[usize; 2]>::empty(),
            state.next_cluster_id == n_samples,
            state.n_active == n_samples,
            state.partitioned(),
    {
        let mut clusters: Vec<Vec<usize>> = Vec::new();
        let mut cluster_ids: Vec<usize> = Vec::new();
        let mut active: Vec<bool> = Vec::new();
        let mut i: usize = 0;
        while i < n_samples
            invariant
                i <= n_samples,
                clusters.len() == i,
                cluster_ids.len() == i,
                active.len() == i,
                forall|j: int| 0 <= j < i ==> #[trigger] clusters@[j]@ == seq![j as usize],
                forall|j: int| 0 <= j < i ==> #[trigger] cluster_ids@[j] == j,
                forall|j: int| 0 <= j < i ==> #[trigger] active@[j],
            decreases n_samples - i,
        {
            let mut single: Vec<usize> = Vec::new();
            single.push(i);
            clusters.push(single);
            cluster_ids.push(i);
            active.push(true);
            i = i + 1;
        }
        let state = MergeState {
            clusters,
            cluster_ids,
            active,
            children: Vec::new(),
            next_cluster_id: n_samples,
            n_active: n_samples,
        };
        proof {
            assert forall|i: int, k: int|
                0 <= i < n_samples && 0 <= k < state.clusters@[i].len() implies #[trigger] state.clusters@[i]@[k]
                < n_samples by {
                assert(state.clusters@[i]@ == seq![i as usize]);
            }
            assert forall|p: int| 0 <= p < n_samples implies #[trigger] in_one_active(
                state.clusters@,
                state.active@,
                p as usize,
            ) by {
                assert(state.clusters@[p]@ == seq![p as usize]);
                assert(state.clusters@[p]@[0] == p as usize);
                assert(state.clusters@[p]@.contains(p as usize));
                assert(state.active@[p]);
                assert forall|i: int, j: int|
                    0 <= i < n_samples && 0 <= j < n_samples && state.active@[i] && state.active@[j]
                        && #[trigger] state.clusters@[i]@.contains(p as usize) && #[trigger] state.clusters@[j]@.contains(
                        p as usize,
                    ) implies i == j by {
                    let si = state.clusters@[i]@;
                    let sj = state.clusters@[j]@;
                    assert(si == seq![i as usize]);
                    assert(sj == seq![j as usize]);
                    let a = choose|a: int| 0 <= a < si.len() && #[trigger] si[a] == p as usize;
                    let b = choose|b: int| 0 <= b < sj.len() && #[trigger] sj[b] == p as usize;
                    assert(a == 0 && b == 0);
                }
            }
            assert forall|i: int| 0 <= i < n_samples && #[trigger] state.active@[i] implies state.clusters@[i].len() > 0 by {
                assert(state.clusters@[i]@ == seq![i as usize]);
            }
            lemma_active_rank_all(state.active@, n_samples as int);
        }
        state
    }

    /// Merge the cluster of slot `c2` into slot `c1`: record the merge, give
    /// slot `c1` the union and a new node ID, and retire slot `c2`.
    pub fn merge(&mut self, c1: usize, c2: usize)
        requires
            old(self).wf(),
            c1 < old(self).clusters.len(),
            c2 < old(self).clusters.len(),
            old(self).n_active > 0,
            old(self).next_cluster_id < usize::MAX,
            old(self).clusters@[c1 as int].len() + old(self).clusters@[c2 as int].len() <= usize::MAX,
        ensures
            final(self).wf(),
            final(self).clusters.len() == old(self).clusters.len(),
            final(self).children@ == old(self).children@.push(
                [old(self).cluster_ids@[c1 as int], old(self).cluster_ids@[c2 as int]],
            ),
            final(self).clusters@[c1 as int]@ == old(self).clusters@[c1 as int]@ + old(self).clusters@[c2 as int]@,
            forall|i: int|
                0 <= i < old(self).clusters.len() && i != c1 ==> #[trigger] final(self).clusters@[i]@ == old(
                    self).clusters@[i]@,
            final(self).cluster_ids@ == old(self).cluster_ids@.update(c1 as int, old(self).next_cluster_id),
            final(self).active@ == old(self).active@.update(c2 as int, false),
            final(self).next_cluster_id == old(self).next_cluster_id + 1,
            final(self).n_active == old(self).n_active - 1,
            // merging two distinct active clusters keeps the active clusters a partition
            old(self).partitioned() && c1 != c2 && old(self).active@[c1 as int] && old(self).active@[c2 as int]
                ==> final(self).partitioned(),
    {
        let pair: [usize; 2] = [self.cluster_ids[c1], self.cluster_ids[c2]];
        self.children.push(pair);
        let mut joined: Vec<usize> = Vec::new();
        let mut k: usize = 0;
        while k < self.clusters[c1].len()
            invariant
                c1 < self.clusters.len(),
                k <= self.clusters@[c1 as int].len(),
                joined@ == self.clusters@[c1 as int]@.take(k as int),
            decreases self.clusters@[c1 as int].len() - k,
        {
            joined.push(self.clusters[c1][k]);
            proof {
                assert(self.clusters@[c1 as int]@.take(k + 1) =~= self.clusters@[c1 as int]@.take(k as int).push(
                    self.clusters@[c1 as int]@[k as int],
                ));
            }
            k = k + 1;
        }
        let ghost first = joined@;
        assert(first =~= self.clusters@[c1 as int]@);
        let mut k: usize = 0;
        while k < self.clusters[c2].len()
            invariant
                c2 < self.clusters.len(),
                first.len() + self.clusters@[c2 as int].len() <= usize::MAX,
                k <= self.clusters@[c2 as int].len(),
                joined@ == first + self.clusters@[c2 as int]@.take(k as int),
            decreases self.clusters@[c2 as int].len() - k,
        {
            joined.push(self.clusters[c2][k]);
            proof {
                assert(self.clusters@[c2 as int]@.take(k + 1) =~= self.clusters@[c2 as int]@.take(k as int).push(
                    self.clusters@[c2 as int]@[k as int],
                ));
            }
            k = k + 1;
        }
        proof {
            assert(self.clusters@[c2 as int]@.take(self.clusters@[c2 as int].len() as int) =~= self.clusters@[c2 as int]@);
        }
        let ghost before = self.clusters@;
        self.clusters.set(c1, joined);
        self.cluster_ids.set(c1, self.next_cluster_id);
        self.next_cluster_id = self.next_cluster_id + 1;
        self.active.set(c2, false);
        self.n_active = self.n_active - 1;
        proof {
            let n = self.clusters.len();
            assert forall|i: int, k: int|
                0 <= i < n && 0 <= k < self.clusters@[i].len() implies #[trigger] self.clusters@[i]@[k] < n by {
                if i == c1 {
                    let s1 = before[c1 as int]@;
                    let s2 = before[c2 as int]@;
                    assert(self.clusters@[i]@ == s1 + s2);
                    if k < s1.len() {
                        assert(self.clusters@[i]@[k] == s1[k]);
                    } else {
                        assert(self.clusters@[i]@[k] == s2[k - s1.len()]);
                    }
                } else {
                    assert(self.clusters@[i] == before[i]);
                }
            }
            if old(self).partitioned() && c1 != c2 && old(self).active@[c1 as int] && old(self).active@[c2 as int] {
                assert forall|i: int| 0 <= i < n && i != c1 implies #[trigger] self.clusters@[i]@ == before[i]@ by {}
                lemma_merge_partition(before, old(self).active@, self.clusters@, self.active@, c1 as int, c2 as int);
                lemma_active_rank_retire(old(self).active@, c2 as int, n as int);
            }
        }
    }

    /// Label each sample with the rank of its active cluster, active
    /// clusters numbered in slot order.
    pub fn labels(&self) -> (labels: Vec<usize>)
        requires
            self.wf(),
        ensures
            labels.len() == self.clusters.len(),
            forall|p: int| 0 <= p < labels.len() ==> #[trigger] labels@[p] == merged_label(self.clusters@, self.active@, p as usize),
            // with the active clusters a partition, the labels are exactly `0..n_active`
            self.partitioned() ==> forall|p: int| 0 <= p < labels.len() ==> #[trigger] labels@[p] < self.n_active,
            self.partitioned() ==> forall|c: int| 0 <= c < self.n_active ==> #[trigger] label_used(labels@, c),
    {
        let n = self.clusters.len();
        let mut labels: Vec<usize> = Vec::new();
        while labels.len() < n
            invariant
                labels.len() <= n,
                forall|p: int| 0 <= p < labels.len() ==> #[trigger] labels@[p] == 0,
            decreases n - labels.len(),
        {
            labels.push(0);
        }
        let mut label_id: usize = 0;
        let mut i: usize = 0;
        while i < n
            invariant
                self.wf(),
                n == self.clusters.len(),
                i <= n,
                labels.len() == n,
                label_id == active_rank(self.active@, i as int),
                label_id <= i,
                forall|p: int|
                    0 <= p < n ==> #[trigger] labels@[p] == if last_active_with(self.clusters@, self.active@, p as usize, i as int) >= 0 {
                        active_rank(self.active@, last_active_with(self.clusters@, self.active@, p as usize, i as int)) as int
                    } else {
                        0
                    },
            decreases n - i,
        {
            if self.active[i] {
                let members = &self.clusters[i];
                let mut k: usize = 0;
                while k < members.len()
                    invariant
                        self.wf(),
                        n == self.clusters.len(),
                        i < n,
                        self.active@[i as int],
                        *members == self.clusters@[i as int],
                        k <= members.len(),
                        labels.len() == n,
                        label_id == active_rank(self.active@, i as int),
                        forall|p: int|
                            0 <= p < n ==> #[trigger] labels@[p] == if members@.take(k as int).contains(p as usize) {
                                label_id as int
                            } else if last_active_with(self.clusters@, self.active@, p as usize, i as int) >= 0 {
                                active_rank(self.active@, last_active_with(self.clusters@, self.active@, p as usize, i as int)) as int
                            } else {
                                0
                            },
                    decreases members.len() - k,
                {
                    let q = members[k];
                    proof {
                        assert(self.clusters@[i as int]@[k as int] == q);
                    }
                    labels.set(q, label_id);
                    proof {
                        assert(members@.take((k + 1) as int) =~= members@.take(k as int).push(q));
                        assert forall|p: int| 0 <= p < n implies #[trigger] labels@[p] == if members@.take((k + 1) as int).contains(p as usize) {
                            label_id as int
                        } else if last_active_with(self.clusters@, self.active@, p as usize, i as int) >= 0 {
                            active_rank(self.active@, last_active_with(self.clusters@, self.active@, p as usize, i as int)) as int
                        } else {
                            0
                        } by {
                            if p == q {
                                assert(members@.take((k + 1) as int)[k as int] == q);
                            } else {
                                if members@.take((k + 1) as int).contains(p as usize) {
                                    let t = choose|t: int| 0 <= t < k + 1 && #[trigger] members@.take((k + 1) as int)[t] == p as usize;
                                    assert(members@.take(k as int)[t] == p as usize);
                                }
                                if members@.take(k as int).contains(p as usize) {
                                    let t = choose|t: int| 0 <= t < k && #[trigger] members@.take(k as int)[t] == p as usize;
                                    assert(members@.take((k + 1) as int)[t] == p as usize);
                                }
                            }
                        }
                    }
                    k = k + 1;
                }
                proof {
                    assert(members@.take(members.len() as int) =~= members@);
                }
                label_id = label_id + 1;
            }
            i = i + 1;
        }
        proof {
            if self.partitioned() {
                assert forall|p: int| 0 <= p < labels.len() implies #[trigger] labels@[p] < self.n_active by {
                    assert(in_one_active(self.clusters@, self.active@, p as usize));
                    let s = choose|i: int| 0 <= i < n && self.active@[i] && #[trigger] self.clusters@[i]@.contains(p as usize);
                    lemma_partition_labels(*self, p as usize, s);
                }
                assert forall|c: int| 0 <= c < self.n_active implies #[trigger] label_used(labels@, c) by {
                    lemma_active_rank_onto(self.active@, n as int, c);
                    let s = choose|i: int| 0 <= i < n && self.active@[i] && #[trigger] active_rank(self.active@, i) == c;
                    let x = self.clusters@[s]@[0];
                    assert(self.clusters@[s]@.contains(x));
                    assert(x < n);
                    lemma_partition_labels(*self, x, s);
                    assert(labels@[x as int] == c);
                }
            }
        }
        labels
    }
}

} // verus!
