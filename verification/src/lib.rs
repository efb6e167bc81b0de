//! Density-based and hierarchical clustering: the combinatorial core of
//! DBSCAN, HDBSCAN, minimum spanning trees, union-find, cluster hierarchies
//! and k-nearest-neighbour voting, with machine-checked contracts.

pub mod gpu_utils;
pub mod labels;
pub mod dbscan;
pub mod adjacency;
pub mod mst;
pub mod mst_weight;
pub mod union_find;
pub mod tree;
pub mod metric;
pub mod config;
pub mod hdbscan;
pub mod knn;
pub mod agglomerative;
pub mod kmeans;
