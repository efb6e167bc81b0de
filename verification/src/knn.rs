//! k-nearest-neighbour classification: majority vote among the neighbours.

use vstd::prelude::*;
use crate::metric::DistanceMetric;

verus! {

/// Parameters for KNN.
pub struct KNNParams {
    /// Number of neighbors to find.
    pub k: usize,
    /// Distance metric to use.
    pub metric: DistanceMetric,
}

impl KNNParams {
    /// Create new KNN parameters (Euclidean metric).
    pub fn new(k: usize) -> (params: Self)
        ensures
            params.k == k,
            params.metric == DistanceMetric::Euclidean,
    {
        KNNParams { k, metric: DistanceMetric::Euclidean }
    }

    /// Set distance metric.
    pub fn with_metric(self, metric: DistanceMetric) -> (params: Self)
        ensures
            params.k == self.k,
            params.metric == metric,
    {
        KNNParams { k: self.k, metric }
    }
}

/// Number of the first `m` neighbours whose label is `label`.
pub open spec fn votes(labels: Seq<i32>, indices: Seq<usize>, label: i32, m: int) -> nat
    decreases m,
{
    if m <= 0 {
        0
    } else {
        votes(labels, indices, label, m - 1) + (if labels[indices[m - 1] as int] == label { 1nat } else { 0nat })
    }
}

/// Positions among the first `m` neighbours whose label is `label`.
pub open spec fn holders(labels: Seq<i32>, indices: Seq<usize>, label: i32, m: int) -> Set<int> {
    Set::new(|j: int| 0 <= j < m && labels[indices[j] as int] == label)
}

/// Law: the votes of a label are exactly the neighbours, among the first
/// `m`, that carry it; every one of them counts.
pub proof fn lemma_votes_count(labels: Seq<i32>, indices: Seq<usize>, label: i32, m: int)
    requires
        0 <= m <= indices.len(),
    ensures
        holders(labels, indices, label, m).finite(),
        votes(labels, indices, label, m) == holders(labels, indices, label, m).len(),
    decreases m,
{
    if m == 0 {
        assert(holders(labels, indices, label, m) =~= Set::empty());
    } else {
        lemma_votes_count(labels, indices, label, m - 1);
        let prev = holders(labels, indices, label, m - 1);
        if labels[indices[m - 1] as int] == label {
            assert(holders(labels, indices, label, m) =~= prev.insert(m - 1));
        } else {
            assert(holders(labels, indices, label, m) =~= prev);
        }
    }
}

/// Majority vote of the neighbours' labels: among the labels that the most
/// neighbours carry, the one of the earliest such neighbour; `0` when there
/// is no neighbour.
pub fn majority_vote(indices: &Vec<usize>, labels: &Vec<i32>) -> (winner: i32)
    requires
        forall|j: int| 0 <= j < indices.len() ==> #[trigger] indices@[j] < labels.len(),
    ensures
        indices.len() == 0 ==> winner == 0,
        indices.len() > 0 ==> exists|j: int|
            0 <= j < indices.len() && #[trigger] labels@[indices@[j] as int] == winner && forall|j2: int|
                0 <= j2 < j ==> votes(labels@, indices@, #[trigger] labels@[indices@[j2] as int], indices.len() as int)
                    < votes(labels@, indices@, winner, indices.len() as int),
        forall|j: int|
            0 <= j < indices.len() ==> votes(labels@, indices@, winner, indices.len() as int) >= votes(
                labels@,
                indices@,
                #[trigger] labels@[indices@[j] as int],
                indices.len() as int,
            ),
        forall|label: i32|
            #[trigger] holders(labels@, indices@, label, indices.len() as int).len() <= holders(
                labels@,
                indices@,
                winner,
                indices.len() as int,
            ).len(),
{
    let m = indices.len();
    let mut winner: i32 = 0;
    let mut best: usize = 0;
    let mut j: usize = 0;
    while j < m
        invariant
            m == indices.len(),
            forall|j2: int| 0 <= j2 < indices.len() ==> #[trigger] indices@[j2] < labels.len(),
            j <= m,
            j == 0 ==> winner == 0 && best == 0,
            j > 0 ==> exists|jw: int|
                0 <= jw < j && #[trigger] labels@[indices@[jw] as int] == winner && forall|j2: int|
                    0 <= j2 < jw ==> votes(labels@, indices@, #[trigger] labels@[indices@[j2] as int], m as int) < best,
            best == votes(labels@, indices@, winner, m as int) || j == 0,
            forall|j2: int|
                0 <= j2 < j ==> best >= votes(labels@, indices@, #[trigger] labels@[indices@[j2] as int], m as int),
        decreases m - j,
    {
        let candidate = labels[indices[j]];
        let mut count: usize = 0;
        let mut t: usize = 0;
        while t < m
            invariant
                m == indices.len(),
                forall|j2: int| 0 <= j2 < indices.len() ==> #[trigger] indices@[j2] < labels.len(),
                t <= m,
                count == votes(labels@, indices@, candidate, t as int),
                count <= t,
            decreases m - t,
        {
            if labels[indices[t]] == candidate {
                count = count + 1;
            }
            t = t + 1;
        }
        if j == 0 || count > best {
            winner = candidate;
            best = count;
        }
        j = j + 1;
    }
    proof {
        let n = indices.len() as int;
        lemma_votes_count(labels@, indices@, winner, n);
        assert forall|label: i32| #[trigger] holders(labels@, indices@, label, n).len() <= holders(
            labels@,
            indices@,
            winner,
            n,
        ).len() by {
            lemma_votes_count(labels@, indices@, label, n);
            if holders(labels@, indices@, label, n).len() > 0 {
                let j = holders(labels@, indices@, label, n).choose();
                assert(holders(labels@, indices@, label, n).contains(j));
                assert(labels@[indices@[j] as int] == label);
            }
        }
    }
    winner
}

} // verus!
