//! Cluster label vectors: label `-1` marks noise, labels `0..k` name clusters.

use vstd::prelude::*;

verus! {

/// Number of entries of `s` equal to `v`.
pub open spec fn count_value(s: Seq<i32>, v: i32) -> nat
    decreases s.len(),
{
    if s.len() == 0 {
        0
    } else {
        count_value(s.drop_last(), v) + (if s.last() == v { 1nat } else { 0nat })
    }
}

/// The largest entry of `s`, or `-1` when every entry is below `0` (or `s` is empty).
pub open spec fn max_label(s: Seq<i32>) -> int
    decreases s.len(),
{
    if s.len() == 0 {
        -1
    } else {
        let m = max_label(s.drop_last());
        if s.last() > m {
            s.last() as int
        } else {
            m
        }
    }
}

/// `max_label` bounds every entry, is at least `-1`, and is attained unless it is `-1`.
pub proof fn lemma_max_label(s: Seq<i32>)
    ensures
        max_label(s) >= -1,
        forall|i: int| 0 <= i < s.len() ==> s[i] <= max_label(s),
        max_label(s) >= 0 ==> exists|i: int| 0 <= i < s.len() && s[i] == max_label(s),
    decreases s.len(),
{
    if s.len() > 0 {
        lemma_max_label(s.drop_last());
        assert forall|i: int| 0 <= i < s.len() implies s[i] <= max_label(s) by {
            if i < s.len() - 1 {
                assert(s.drop_last()[i] == s[i]);
            }
        }
        if max_label(s) >= 0 && max_label(s) != s.last() {
            let j = choose|j: int|
                0 <= j < s.drop_last().len() && s.drop_last()[j] == max_label(s.drop_last());
            assert(s[j] == max_label(s));
        }
    }
}

/// Updating one entry changes the count of `v` only through that entry.
pub proof fn lemma_count_update(s: Seq<i32>, i: int, x: i32, v: i32)
    requires
        0 <= i < s.len(),
    ensures
        count_value(s.update(i, x), v) + (if s[i] == v { 1int } else { 0int })
            == count_value(s, v) + (if x == v { 1int } else { 0int }),
    decreases s.len(),
{
    let t = s.update(i, x);
    if i == s.len() - 1 {
        assert(t.drop_last() =~= s.drop_last());
    } else {
        assert(t.drop_last() =~= s.drop_last().update(i, x));
        lemma_count_update(s.drop_last(), i, x, v);
    }
}

/// A count is positive exactly when the value occurs.
pub proof fn lemma_count_positive(s: Seq<i32>, v: i32)
    ensures
        count_value(s, v) > 0 <==> exists|i: int| 0 <= i < s.len() && s[i] == v,
        count_value(s, v) <= s.len(),
    decreases s.len(),
{
    if s.len() > 0 {
        lemma_count_positive(s.drop_last(), v);
        if count_value(s.drop_last(), v) > 0 {
            let j = choose|j: int| 0 <= j < s.drop_last().len() && s.drop_last()[j] == v;
            assert(s[j] == v);
        }
        if exists|i: int| 0 <= i < s.len() && s[i] == v {
            let j = choose|j: int| 0 <= j < s.len() && s[j] == v;
            if j < s.len() - 1 {
                assert(s.drop_last()[j] == v);
            }
        }
    }
}

/// Number of clusters named by `labels`: the largest label plus one, or zero
/// when no label is `0` or above.
pub fn count_clusters(labels: &Vec<i32>) -> (n: usize)
    requires
        forall|i: int| 0 <= i < labels.len() ==> labels[i] < i32::MAX,
    ensures
        n == max_label(labels@) + 1,
        forall|i: int| 0 <= i < labels.len() ==> labels[i] < n,
        n > 0 ==> exists|i: int| 0 <= i < labels.len() && labels[i] == n - 1,
{
    let mut m: i32 = -1;
    let mut i: usize = 0;
    while i < labels.len()
        invariant
            i <= labels.len(),
            m == max_label(labels@.take(i as int)),
        decreases labels.len() - i,
    {
        assert(labels@.take(i + 1).drop_last() =~= labels@.take(i as int));
        if labels[i] > m {
            m = labels[i];
        }
        i = i + 1;
    }
    assert(labels@.take(labels.len() as int) =~= labels@);
    proof {
        lemma_max_label(labels@);
        if m >= 0 {
            let j = choose|j: int| 0 <= j < labels.len() && labels@[j] == m;
        }
    }
    (m + 1) as usize
}

/// Number of entries labelled as noise (`-1`).
pub fn count_noise(labels: &Vec<i32>) -> (n: usize)
    ensures
        n == count_value(labels@, -1i32),
{
    let mut c: usize = 0;
    let mut i: usize = 0;
    while i < labels.len()
        invariant
            i <= labels.len(),
            c == count_value(labels@.take(i as int), -1i32),
            c <= i,
        decreases labels.len() - i,
    {
        assert(labels@.take(i + 1).drop_last() =~= labels@.take(i as int));
        if labels[i] == -1 {
            c = c + 1;
        }
        i = i + 1;
    }
    assert(labels@.take(labels.len() as int) =~= labels@);
    c
}

/// Result of density-based clustering.
pub struct ClusterResult {
    /// Cluster label of each point (`-1` for noise).
    pub labels: Vec<i32>,
    /// Whether each point is a core point.
    pub core_points: Vec<bool>,
}

impl ClusterResult {
    /// Get the number of clusters (excluding noise).
    pub fn n_clusters(&self) -> (n: usize)
        requires
            forall|i: int| 0 <= i < self.labels.len() ==> self.labels[i] < i32::MAX,
        ensures
            n == max_label(self.labels@) + 1,
    {
        count_clusters(&self.labels)
    }

    /// Get the number of noise points.
    pub fn n_noise(&self) -> (n: usize)
        ensures
            n == count_value(self.labels@, -1i32),
    {
        count_noise(&self.labels)
    }
}

} // verus!
