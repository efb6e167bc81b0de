//! Choices that configure the clustering algorithms.

use vstd::prelude::*;

verus! {

/// Distance metric types supported by the clustering algorithms.
#[derive(Debug, Clone, Copy, PartialEq, Eq, Structural)]
pub enum DistanceMetric {
    /// Euclidean distance (L2 norm)
    Euclidean,
    /// Manhattan distance (L1 norm)
    Manhattan,
    /// Cosine distance (1 - cosine similarity)
    Cosine,
}

/// Linkage criterion for hierarchical clustering.
#[derive(Debug, Clone, Copy, PartialEq, Eq, Structural)]
pub enum Linkage {
    /// Minimum distance between points in two clusters.
    Single,
    /// Maximum distance between points in two clusters.
    Complete,
    /// Average distance between points in two clusters.
    Average,
    /// Ward's minimum variance method.
    Ward,
}

/// Covariance type for Gaussian mixtures.
#[derive(Debug, Clone, Copy, PartialEq, Eq, Structural)]
pub enum CovarianceType {
    /// Diagonal covariance matrix (features are independent).
    Diag,
}

/// The metric a lower-case name stands for: `"euclidean"`, `"manhattan"` or `"cosine"`.
pub open spec fn metric_named(name: Seq<char>) -> Option<DistanceMetric> {
    if name == "euclidean"@ {
        Some(DistanceMetric::Euclidean)
    } else if name == "manhattan"@ {
        Some(DistanceMetric::Manhattan)
    } else if name == "cosine"@ {
        Some(DistanceMetric::Cosine)
    } else {
        None
    }
}

/// Parse a metric name; `None` for an unknown name.
pub fn parse_metric(name: &str) -> (metric: Option<DistanceMetric>)
    ensures
        metric == metric_named(name@),
{
    let given = name.to_owned();
    if given == "euclidean".to_owned() {
        Some(DistanceMetric::Euclidean)
    } else if given == "manhattan".to_owned() {
        Some(DistanceMetric::Manhattan)
    } else if given == "cosine".to_owned() {
        Some(DistanceMetric::Cosine)
    } else {
        None
    }
}

} // verus!
