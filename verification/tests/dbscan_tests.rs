use ghdbscan::adjacency::cluster_on_cpu;
use ghdbscan::dbscan::{assign_clusters, cluster_neighborhoods, core_points_from_neighbors};
use ghdbscan::labels::{count_clusters, count_noise};
use kiddo::{KdTree, SquaredEuclidean};

/// Neighbourhoods within `eps` (the point itself included), found with a KD-tree.
fn neighborhoods(data: &[[f64; 2]], eps: f64) -> Vec<Vec<usize>> {
    let mut tree: KdTree<f64, 2> = KdTree::new();
    for (idx, p) in data.iter().enumerate() {
        tree.add(p, idx as u64);
    }
    data.iter()
        .map(|p| {
            tree.within::<SquaredEuclidean>(p, eps * eps)
                .iter()
                .map(|n| n.item as usize)
                .collect()
        })
        .collect()
}

#[test]
fn test_dbscan_simple_clusters() {
    let data = [[0.0, 0.0], [1.0, 0.0], [0.0, 1.0], [10.0, 10.0], [11.0, 10.0], [10.0, 11.0]];
    let result = cluster_neighborhoods(&neighborhoods(&data, 2.0), 2);
    assert_eq!(result.n_clusters(), 2);
    assert_eq!(result.n_noise(), 0);
}

#[test]
fn test_dbscan_with_noise() {
    let data = [[0.0, 0.0], [1.0, 0.0], [0.0, 1.0], [100.0, 100.0]];
    let result = cluster_neighborhoods(&neighborhoods(&data, 2.0), 2);
    assert_eq!(result.n_clusters(), 1);
    assert_eq!(result.n_noise(), 1);
    assert_eq!(result.labels[3], -1);
}

#[test]
fn test_dbscan_all_noise() {
    let data = [[0.0, 0.0], [10.0, 10.0], [20.0, 20.0]];
    let result = cluster_neighborhoods(&neighborhoods(&data, 2.0), 2);
    assert_eq!(result.n_clusters(), 0);
    assert_eq!(result.n_noise(), 3);
}

#[test]
fn test_integration_dbscan() {
    let data = [
        [0.0, 0.0],
        [1.0, 0.0],
        [0.0, 1.0],
        [1.0, 1.0],
        [10.0, 10.0],
        [11.0, 10.0],
        [10.0, 11.0],
    ];
    let result = cluster_neighborhoods(&neighborhoods(&data, 2.0), 2);
    assert_eq!(result.n_clusters(), 2);
}

#[test]
fn clusters_are_numbered_by_first_core_point() {
    // 0-1 form a cluster, 2 is noise, 3-4 form a cluster
    let nb = vec![vec![0, 1], vec![1, 0], vec![2], vec![3, 4], vec![4, 3]];
    let result = cluster_neighborhoods(&nb, 2);
    assert_eq!(result.labels, vec![0, 0, -1, 1, 1]);
    assert_eq!(result.core_points, vec![true, true, false, true, true]);
}

#[test]
fn border_point_joins_the_cluster_that_reaches_it() {
    // point 1 is a border point of core point 0; point 2 is noise until 3 reaches it
    let nb = vec![vec![0, 1, 4], vec![1, 0], vec![2, 3], vec![3, 2, 5], vec![4, 0], vec![5, 3]];
    let core = core_points_from_neighbors(&nb, 3);
    assert_eq!(core, vec![true, false, false, true, false, false]);
    let labels = assign_clusters(&nb, &core);
    assert_eq!(labels, vec![0, 0, 1, 1, 0, 1]);
    assert_eq!(count_clusters(&labels), 2);
    assert_eq!(count_noise(&labels), 0);
}

#[test]
fn empty_input_has_no_cluster() {
    let nb: Vec<Vec<usize>> = Vec::new();
    let result = cluster_neighborhoods(&nb, 1);
    assert!(result.labels.is_empty());
    assert_eq!(result.n_clusters(), 0);
    assert_eq!(result.n_noise(), 0);
}

#[test]
fn chain_of_core_points_forms_one_cluster() {
    let nb = vec![vec![0, 1], vec![0, 1, 2], vec![1, 2, 3], vec![2, 3]];
    let result = cluster_neighborhoods(&nb, 2);
    assert_eq!(result.labels, vec![0, 0, 0, 0]);
}

/// Bit-packed adjacency of `n` points with the given undirected links
/// (each point is linked to itself).
fn adjacency(n: usize, links: &[(usize, usize)]) -> Vec<u32> {
    let blocks = (n + 31) / 32;
    let mut adj = vec![0u32; n * blocks];
    for i in 0..n {
        adj[i * blocks + i / 32] |= 1 << (i % 32);
    }
    for &(a, b) in links {
        adj[a * blocks + b / 32] |= 1 << (b % 32);
        adj[b * blocks + a / 32] |= 1 << (a % 32);
    }
    adj
}

#[test]
fn adjacency_clustering_matches_neighbour_lists() {
    let adj = adjacency(5, &[(0, 1), (3, 4)]);
    let result = cluster_on_cpu(&adj, 5, 2);
    assert_eq!(result.labels, vec![0, 0, -1, 1, 1]);
    assert_eq!(result.core_points, vec![true, true, false, true, true]);
}

#[test]
fn adjacency_clustering_across_word_boundary() {
    // 40 points: 0..=33 linked in a chain, the rest isolated
    let links: Vec<(usize, usize)> = (0..33).map(|i| (i, i + 1)).collect();
    let adj = adjacency(40, &links);
    let result = cluster_on_cpu(&adj, 40, 3);
    for i in 0..=33 {
        assert_eq!(result.labels[i], 0, "point {}", i);
    }
    for i in 34..40 {
        assert_eq!(result.labels[i], -1);
    }
    assert!(result.core_points[1]);
    assert!(!result.core_points[0]);
}

#[test]
fn padding_bits_count_towards_core_points() {
    // one point, but a padding bit is set in its row
    let adj = vec![0b11u32];
    let result = cluster_on_cpu(&adj, 1, 2);
    assert_eq!(result.core_points, vec![true]);
    assert_eq!(result.labels, vec![0]);
}

#[test]
fn matrix_and_list_clustering_agree() {
    let links: Vec<(usize, usize)> = vec![(0, 1), (1, 2), (2, 35), (10, 11), (11, 12), (12, 13), (20, 21)];
    let n = 40;
    let adj = adjacency(n, &links);
    let mut nb: Vec<Vec<usize>> = (0..n).map(|i| vec![i]).collect();
    for &(a, b) in &links {
        nb[a].push(b);
        nb[b].push(a);
    }
    for row in nb.iter_mut() {
        row.sort();
    }
    for min_samples in 1..5 {
        let from_matrix = cluster_on_cpu(&adj, n, min_samples);
        let from_lists = cluster_neighborhoods(&nb, min_samples);
        assert_eq!(from_matrix.labels, from_lists.labels, "min_samples {}", min_samples);
        assert_eq!(from_matrix.core_points, from_lists.core_points);
    }
}
