use ghdbscan::hdbscan::{build_tree, extract_clusters};
use ghdbscan::mst::{from_key_matrix, prim_tree, sort_by_weight, TreeEdge};
use ghdbscan::tree::ClusterTree;
use ghdbscan::union_find::UnionFind;

/// Order-preserving integer key of a distance; `None` for an edge that does
/// not exist (infinite or undefined distance).
fn key(d: f64) -> Option<u64> {
    if !(d < f64::INFINITY) {
        return None;
    }
    let d = if d == 0.0 { 0.0 } else { d };
    let bits = d.to_bits();
    Some(if bits >> 63 == 1 { !bits } else { bits | (1 << 63) })
}

fn keys_of(distances: &[Vec<f64>]) -> Vec<Vec<Option<u64>>> {
    distances.iter().map(|row| row.iter().map(|&d| key(d)).collect()).collect()
}

/// Number of vertices the tree spans: vertex `0` (when there is one) and
/// every endpoint of an edge.
fn spanned_vertices(edges: &[TreeEdge], n: usize) -> usize {
    let mut seen = vec![false; n];
    if n > 0 {
        seen[0] = true;
    }
    for e in edges {
        seen[e.from] = true;
        seen[e.to] = true;
    }
    seen.iter().filter(|&&b| b).count()
}

#[test]
fn test_mst_simple() {
    let distances = vec![vec![0.0, 1.0, 3.0], vec![1.0, 0.0, 2.0], vec![3.0, 2.0, 0.0]];
    let edges = from_key_matrix(&keys_of(&distances));
    assert_eq!(edges.len(), 2);
    assert_eq!(spanned_vertices(&edges, distances.len()), 3);
    let total_weight: f64 = edges.iter().map(|e| distances[e.from][e.to]).sum();
    assert!((total_weight - 3.0).abs() < 1e-10);
}

#[test]
fn test_mst_empty() {
    let distances: Vec<Vec<f64>> = vec![];
    let edges = from_key_matrix(&keys_of(&distances));
    assert_eq!(edges.len(), 0);
    assert_eq!(spanned_vertices(&edges, distances.len()), 0);
}

#[test]
fn prim_adds_lightest_crossing_edge_first() {
    let distances = vec![
        vec![0.0, 4.0, 1.0, 9.0],
        vec![4.0, 0.0, 2.0, 3.0],
        vec![1.0, 2.0, 0.0, 8.0],
        vec![9.0, 3.0, 8.0, 0.0],
    ];
    let keys = keys_of(&distances);
    let order = prim_tree(&keys);
    assert_eq!(
        order,
        vec![TreeEdge { from: 0, to: 2 }, TreeEdge { from: 2, to: 1 }, TreeEdge { from: 1, to: 3 }]
    );
    let sorted = from_key_matrix(&keys);
    assert_eq!(
        sorted,
        vec![TreeEdge { from: 0, to: 2 }, TreeEdge { from: 2, to: 1 }, TreeEdge { from: 1, to: 3 }]
    );
}

#[test]
fn prim_breaks_ties_by_source_then_target() {
    // all edges weigh the same
    let distances = vec![vec![0.0, 1.0, 1.0], vec![1.0, 0.0, 1.0], vec![1.0, 1.0, 0.0]];
    let order = prim_tree(&keys_of(&distances));
    assert_eq!(order, vec![TreeEdge { from: 0, to: 1 }, TreeEdge { from: 0, to: 2 }]);
}

#[test]
fn infinite_edges_leave_vertices_out() {
    let inf = f64::INFINITY;
    let distances = vec![vec![0.0, 1.0, inf], vec![1.0, 0.0, inf], vec![inf, inf, 0.0]];
    let order = prim_tree(&keys_of(&distances));
    assert_eq!(order, vec![TreeEdge { from: 0, to: 1 }]);
    let nan = f64::NAN;
    let distances = vec![vec![0.0, nan], vec![nan, 0.0]];
    assert!(prim_tree(&keys_of(&distances)).is_empty());
}

#[test]
fn sort_by_weight_is_stable() {
    let edges = vec![
        TreeEdge { from: 0, to: 1 },
        TreeEdge { from: 1, to: 2 },
        TreeEdge { from: 2, to: 3 },
        TreeEdge { from: 3, to: 4 },
    ];
    let sorted = sort_by_weight(&edges, &vec![5, 2, 5, 1]);
    assert_eq!(
        sorted,
        vec![
            TreeEdge { from: 3, to: 4 },
            TreeEdge { from: 1, to: 2 },
            TreeEdge { from: 0, to: 1 },
            TreeEdge { from: 2, to: 3 },
        ]
    );
}

#[test]
fn test_hierarchy_creation() {
    let mut tree = ClusterTree::new();
    let leaf1 = tree.add_leaf(0);
    let leaf2 = tree.add_leaf(1);
    let parent = tree.add_internal();
    tree.merge(leaf1, leaf2, parent);
    tree.set_root(parent);
    assert_eq!(tree.nodes.len(), 3);
    assert_eq!(tree.root, Some(parent));
}

#[test]
fn hierarchy_merge_links_both_ways() {
    let mut tree = ClusterTree::new();
    let a = tree.add_leaf(7);
    let b = tree.add_leaf(9);
    let p = tree.add_internal();
    tree.merge(a, b, p);
    assert_eq!(tree.nodes[a].parent, Some(p));
    assert_eq!(tree.nodes[b].parent, Some(p));
    assert_eq!(tree.nodes[p].children, vec![a, b]);
    assert!(tree.nodes[a].is_leaf());
    assert!(!tree.nodes[p].is_leaf());
    assert_eq!(tree.count_descendant_points(p), 2);
    assert_eq!(tree.get_cluster_points(p), vec![7, 9]);
    assert_eq!(tree.count_descendant_points(42), 0);
    assert!(tree.get_cluster_points(42).is_empty());
}

#[test]
fn union_find_merges_sets() {
    let mut uf = UnionFind::new(5);
    assert_eq!(uf.find(3), 3);
    let r = uf.union(0, 1);
    assert!(r == 0 || r == 1);
    assert_eq!(uf.find(0), uf.find(1));
    assert_ne!(uf.find(0), uf.find(2));
    uf.union(2, 3);
    uf.union(1, 3);
    let root = uf.find(0);
    for x in 0..4 {
        assert_eq!(uf.find(x), root);
    }
    assert_eq!(uf.find(4), 4);
    // a repeated union changes nothing
    let again = uf.union(0, 3);
    assert_eq!(again, root);
}

#[test]
fn union_by_rank_keeps_the_higher_root() {
    let mut uf = UnionFind::new(4);
    // tie: the first root wins
    assert_eq!(uf.union(0, 1), 0);
    // rank(0) = 1 > rank(2) = 0: root 0 stays on top either way round
    assert_eq!(uf.union(2, 0), 0);
    assert_eq!(uf.find(2), 0);
}

#[test]
fn build_tree_merges_along_edges() {
    // 4 points, spanning tree edges lightest first
    let edges = vec![TreeEdge { from: 0, to: 1 }, TreeEdge { from: 2, to: 3 }, TreeEdge { from: 1, to: 2 }];
    let (tree, merges) = build_tree(&edges, 4);
    assert_eq!(merges, vec![0, 1, 2]);
    assert_eq!(tree.nodes.len(), 7);
    assert_eq!(tree.nodes[4].children, vec![0, 1]);
    assert_eq!(tree.nodes[5].children, vec![2, 3]);
    assert_eq!(tree.nodes[6].children, vec![4, 5]);
    assert_eq!(tree.nodes[0].parent, Some(4));
    assert_eq!(tree.nodes[3].parent, Some(5));
    assert_eq!(tree.nodes[5].parent, Some(6));
    assert_eq!(tree.nodes[6].parent, None);
    assert_eq!(tree.root, Some(6));
    let mut all = tree.get_cluster_points(6);
    all.sort();
    assert_eq!(all, vec![0, 1, 2, 3]);
}

#[test]
fn build_tree_skips_edges_inside_a_cluster() {
    let edges = vec![TreeEdge { from: 0, to: 1 }, TreeEdge { from: 1, to: 0 }, TreeEdge { from: 1, to: 2 }];
    let (tree, merges) = build_tree(&edges, 3);
    assert_eq!(merges, vec![0, 2]);
    assert_eq!(tree.nodes.len(), 5);
    assert_eq!(tree.nodes[3].children, vec![0, 1]);
    assert_eq!(tree.nodes[4].children, vec![3, 2]);
    assert_eq!(tree.root, Some(4));
}

#[test]
fn build_tree_root_of_a_partial_forest_is_the_cluster_of_point_zero() {
    let edges = vec![TreeEdge { from: 1, to: 2 }];
    let (tree, merges) = build_tree(&edges, 3);
    assert_eq!(merges, vec![0]);
    assert_eq!(tree.root, Some(0));
}

#[test]
fn extract_clusters_labels_selected_subtrees() {
    let edges = vec![TreeEdge { from: 0, to: 1 }, TreeEdge { from: 2, to: 3 }, TreeEdge { from: 1, to: 2 }];
    let (tree, _) = build_tree(&edges, 5);
    // select the two pair clusters
    let labels = extract_clusters(&tree, &vec![5, 6], 5);
    assert_eq!(labels, vec![0, 0, 1, 1, -1]);
    // a later selection overrides an earlier one
    let labels = extract_clusters(&tree, &vec![7, 5], 5);
    assert_eq!(labels, vec![1, 1, 0, 0, -1]);
    let none = extract_clusters(&tree, &vec![], 5);
    assert_eq!(none, vec![-1; 5]);
}

#[test]
fn walks_accept_a_parent_added_before_its_children() {
    let mut tree = ClusterTree::new();
    let parent = tree.add_internal();
    let a = tree.add_leaf(7);
    let b = tree.add_leaf(9);
    tree.merge(a, b, parent);
    tree.set_root(parent);
    assert_eq!(tree.count_descendant_points(parent), 2);
    assert_eq!(tree.get_cluster_points(parent), vec![7, 9]);
    assert_eq!(tree.nodes[a].parent, Some(parent));
}

#[test]
fn hierarchy_well_formedness_check() {
    let mut tree = ClusterTree::new();
    assert!(tree.is_well_formed());
    let a = tree.add_leaf(0);
    let b = tree.add_leaf(1);
    let p = tree.add_internal();
    tree.merge(a, b, p);
    assert!(tree.is_well_formed());

    // A child pointing past the end is ignored by the walks.
    tree.nodes[b].children.push(99);
    assert!(tree.is_well_formed());

    // A parent with a smaller ID than its children is still a hierarchy.
    let mut upside = ClusterTree::new();
    let top = upside.add_internal();
    let x = upside.add_leaf(3);
    let y = upside.add_leaf(4);
    upside.merge(x, y, top);
    assert!(upside.is_well_formed());

    // A node below itself.
    let mut cyclic = tree;
    cyclic.nodes[a].children.push(p);
    assert!(!cyclic.is_well_formed());

    let mut self_loop = ClusterTree::new();
    let s = self_loop.add_internal();
    self_loop.nodes[s].children.push(s);
    assert!(!self_loop.is_well_formed());

    // Node IDs must match positions.
    let mut renumbered = ClusterTree::new();
    renumbered.add_leaf(0);
    renumbered.nodes[0].id = 5;
    assert!(!renumbered.is_well_formed());
}

/// Every spanning tree over `n` vertices, each listed as it grows from vertex `0`.
fn grown_trees(n: usize, reached: &mut Vec<bool>, edges: &mut Vec<TreeEdge>, out: &mut Vec<Vec<TreeEdge>>) {
    if edges.len() + 1 == n {
        out.push(edges.clone());
        return;
    }
    for from in 0..n {
        for to in 0..n {
            if reached[from] && !reached[to] {
                reached[to] = true;
                edges.push(TreeEdge { from, to });
                grown_trees(n, reached, edges, out);
                edges.pop();
                reached[to] = false;
            }
        }
    }
}

#[test]
fn prim_tree_is_a_minimum_and_bottleneck_spanning_tree() {
    let distances = vec![
        vec![0.0, 4.0, 1.0, 9.0],
        vec![4.0, 0.0, 2.0, 3.0],
        vec![1.0, 2.0, 0.0, 8.0],
        vec![9.0, 3.0, 8.0, 0.0],
    ];
    let keys = keys_of(&distances);
    let prim = prim_tree(&keys);
    let weight = |e: &TreeEdge| distances[e.from][e.to];
    let heaviest = |es: &[TreeEdge]| es.iter().map(weight).fold(0.0, f64::max);
    let total = |es: &[TreeEdge]| es.iter().map(weight).sum::<f64>();
    assert_eq!(heaviest(&prim), 3.0);
    assert_eq!(total(&prim), 6.0);
    let mut reached = vec![true, false, false, false];
    let mut out = Vec::new();
    grown_trees(4, &mut reached, &mut Vec::new(), &mut out);
    assert!(out.len() > 16);
    for other in &out {
        assert!(heaviest(&prim) <= heaviest(other));
        assert!(total(&prim) <= total(other));
    }
}
