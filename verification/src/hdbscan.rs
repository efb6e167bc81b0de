//! The combinatorial steps of HDBSCAN: growing the cluster hierarchy from the
//! minimum spanning tree, and labelling points from the selected clusters.

use vstd::prelude::*;
use crate::metric::DistanceMetric;
use crate::tree::{ClusterTree, TreeNode, tree_wf, ordered, subtree_points, lemma_ordered_is_wf, lemma_subtree_frame, lemma_two_children};
use crate::union_find::{UnionFind, lemma_root_is_representative, lemma_single_set};
use crate::mst::TreeEdge;

verus! {

/// Parameters for HDBSCAN clustering.
pub struct HDBSCANParams {
    /// Minimum cluster size.
    pub min_cluster_size: usize,
    /// Minimum number of samples (for core distance calculation).
    pub min_samples: usize,
    /// Distance metric to use.
    pub metric: DistanceMetric,
}

impl HDBSCANParams {
    /// Create new HDBSCAN parameters; `min_samples` defaults to
    /// `min_cluster_size`, the metric to Euclidean.
    pub fn new(min_cluster_size: usize, min_samples: Option<usize>) -> (params: Self)
        ensures
            params.min_cluster_size == min_cluster_size,
            params.min_samples == match min_samples {
                Some(m) => m,
                None => min_cluster_size,
            },
            params.metric == DistanceMetric::Euclidean,
    {
        let m = match min_samples {
            Some(m) => m,
            None => min_cluster_size,
        };
        HDBSCANParams { min_cluster_size, min_samples: m, metric: DistanceMetric::Euclidean }
    }

    /// Set the distance metric.
    pub fn with_metric(self, metric: DistanceMetric) -> (params: Self)
        ensures
            params.min_cluster_size == self.min_cluster_size,
            params.min_samples == self.min_samples,
            params.metric == metric,
    {
        HDBSCANParams { metric, ..self }
    }
}

/// Index of the last selected cluster, among the first `k`, whose points
/// include `p`; `-1` when there is none.
pub open spec fn last_selected(nodes: Seq<TreeNode>, selected: Seq<usize>, p: usize, k: int) -> int
    decreases k,
{
    if k <= 0 {
        -1
    } else if subtree_points(nodes, selected[k - 1] as int).contains(p) {
        k - 1
    } else {
        last_selected(nodes, selected, p, k - 1)
    }
}

/// Label every point with the position of its cluster in `selected`
/// (a later cluster wins), or `-1` for a point in no selected cluster;
/// positions past `i32::MAX` wrap around as `as i32` does.
pub fn extract_clusters(tree: &ClusterTree, selected: &Vec<usize>, n_points: usize) -> (labels: Vec<i32>)
    requires
        tree_wf(tree.nodes@),
        forall|c: int, j: int|
            0 <= c < selected.len() && 0 <= j < subtree_points(tree.nodes@, selected@[c] as int).len()
                ==> #[trigger] subtree_points(tree.nodes@, selected@[c] as int)[j] < n_points,
    ensures
        labels.len() == n_points,
        forall|p: int| 0 <= p < n_points ==> #[trigger] labels@[p] == last_selected(tree.nodes@, selected@, p as usize, selected.len() as int) as i32,
{
    let mut labels: Vec<i32> = Vec::new();
    while labels.len() < n_points
        invariant
            labels.len() <= n_points,
            forall|p: int| 0 <= p < labels.len() ==> #[trigger] labels@[p] == -1,
        decreases n_points - labels.len(),
    {
        labels.push(-1);
    }
    let mut c: usize = 0;
    while c < selected.len()
        invariant
            tree_wf(tree.nodes@),
            forall|c2: int, j: int|
                0 <= c2 < selected.len() && 0 <= j < subtree_points(tree.nodes@, selected@[c2] as int).len()
                    ==> #[trigger] subtree_points(tree.nodes@, selected@[c2] as int)[j] < n_points,
            c <= selected.len(),
            labels.len() == n_points,
            forall|p: int| 0 <= p < n_points ==> #[trigger] labels@[p] == last_selected(tree.nodes@, selected@, p as usize, c as int) as i32,
        decreases selected.len() - c,
    {
        let points = tree.get_cluster_points(selected[c]);
        let mut j: usize = 0;
        while j < points.len()
            invariant
                points@ == subtree_points(tree.nodes@, selected@[c as int] as int),
                forall|j2: int| 0 <= j2 < points.len() ==> #[trigger] points@[j2] < n_points,
                c < selected.len(),
                j <= points.len(),
                labels.len() == n_points,
                forall|p: int|
                    0 <= p < n_points ==> #[trigger] labels@[p] == if points@.take(j as int).contains(p as usize) {
                        c as i32
                    } else {
                        last_selected(tree.nodes@, selected@, p as usize, c as int) as i32
                    },
            decreases points.len() - j,
        {
            let q = points[j];
            #[verifier::truncate]
            let label = c as i32;
            labels.set(q, label);
            proof {
                assert forall|p: int| 0 <= p < n_points implies #[trigger] labels@[p] == if points@.take(
                    (j + 1) as int,
                ).contains(p as usize) {
                    c as i32
                } else {
                    last_selected(tree.nodes@, selected@, p as usize, c as int) as i32
                } by {
                    assert(points@.take((j + 1) as int) =~= points@.take(j as int).push(q));
                    if p == q {
                        assert(points@.take((j + 1) as int)[j as int] == q);
                    } else {
                        if points@.take((j + 1) as int).contains(p as usize) {
                            let i = choose|i: int| 0 <= i < j + 1 && #[trigger] points@.take((j + 1) as int)[i] == p as usize;
                            assert(points@.take(j as int)[i] == p as usize);
                        }
                        if points@.take(j as int).contains(p as usize) {
                            let i = choose|i: int| 0 <= i < j && #[trigger] points@.take(j as int)[i] == p as usize;
                            assert(points@.take((j + 1) as int)[i] == p as usize);
                        }
                    }
                }
            }
            j = j + 1;
        }
        proof {
            assert(points@.take(points.len() as int) =~= points@);
        }
        c = c + 1;
    }
    labels
}

/// The newest node, among the first `m`, whose points include `p`: the
/// cluster that holds `p` once those nodes exist; `-1` if none does.
pub open spec fn newest_holding(nodes: Seq<TreeNode>, p: usize, m: int) -> int
    decreases m,
{
    if m <= 0 {
        -1
    } else if subtree_points(nodes, m - 1).contains(p) {
        m - 1
    } else {
        newest_holding(nodes, p, m - 1)
    }
}

/// Edge `f` comes after the first `k` merges and before the next one.
pub open spec fn in_gap(merges: Seq<usize>, k: int, f: int) -> bool {
    &&& k == 0 || merges[k - 1] < f
    &&& k == merges.len() || f < merges[k]
}

/// `newest_holding` reads only the nodes below `m`.
proof fn lemma_newest_frame(n1: Seq<TreeNode>, n2: Seq<TreeNode>, p: usize, m: int)
    requires
        0 <= m <= n1.len(),
        m <= n2.len(),
        forall|id: int| 0 <= id < m ==> #[trigger] subtree_points(n2, id) == subtree_points(n1, id),
    ensures
        newest_holding(n2, p, m) == newest_holding(n1, p, m),
    decreases m,
{
    if m > 0 {
        assert(subtree_points(n2, m - 1) == subtree_points(n1, m - 1));
        lemma_newest_frame(n1, n2, p, m - 1);
    }
}

/// `newest_holding` is `c` when node `c` holds `p` and no later node below `m` does.
proof fn lemma_newest_is(nodes: Seq<TreeNode>, p: usize, m: int, c: int)
    requires
        0 <= c < m,
        subtree_points(nodes, c).contains(p),
        forall|id: int| c < id < m ==> !(#[trigger] subtree_points(nodes, id)).contains(p),
    ensures
        newest_holding(nodes, p, m) == c,
    decreases m,
{
    if m - 1 > c {
        assert(!subtree_points(nodes, m - 1).contains(p));
        lemma_newest_is(nodes, p, m - 1, c);
    }
}

/// A node found by `newest_holding` holds `p`, and no later node below `m` does.
proof fn lemma_newest_facts(nodes: Seq<TreeNode>, p: usize, m: int)
    requires
        m >= 0,
    ensures
        -1 <= newest_holding(nodes, p, m) < m || (m == 0 && newest_holding(nodes, p, m) == -1),
        newest_holding(nodes, p, m) >= 0 ==> subtree_points(nodes, newest_holding(nodes, p, m)).contains(p),
        forall|id: int| newest_holding(nodes, p, m) < id < m ==> !(#[trigger] subtree_points(nodes, id)).contains(p),
    decreases m,
{
    if m > 0 && !subtree_points(nodes, m - 1).contains(p) {
        lemma_newest_facts(nodes, p, m - 1);
    }
}

/// The facts the hierarchy builder keeps while it walks the tree edges.
pub open spec fn building(
    nodes: Seq<TreeNode>,
    uf: UnionFind,
    node_map: Seq<usize>,
    merges: Seq<usize>,
    edges: Seq<TreeEdge>,
    n: int,
    e: int,
) -> bool {
    &&& ordered(nodes)
    &&& uf.wf()
    &&& uf.size() == n
    &&& uf.n_sets() + merges.len() == n
    &&& nodes.len() == n + merges.len()
    &&& node_map.len() == n
    &&& forall|r: int| 0 <= r < n ==> #[trigger] node_map[r] < nodes.len()
    &&& forall|i: int|
        0 <= i < n ==> (#[trigger] nodes[i]).children@ == Seq::<usize>::empty() && nodes[i].points@ == seq![
            i as usize,
        ]
    &&& forall|z: int| 0 <= z < n ==> subtree_points(nodes, node_map[#[trigger] uf.root(z)] as int).contains(z as usize)
    &&& forall|k: int| 0 <= k < merges.len() ==> #[trigger] merges[k] < e
    &&& merges.len() <= e
    &&& forall|k1: int, k2: int| 0 <= k1 < k2 < merges.len() ==> #[trigger] merges[k1] < #[trigger] merges[k2]
    &&& forall|k: int|
        0 <= k < merges.len() ==> (#[trigger] nodes[n + k]).children.len() == 2 && nodes[n + k].points@
            == Seq::<usize>::empty() && subtree_points(nodes, n + k).contains(edges[merges[k] as int].from)
            && subtree_points(nodes, n + k).contains(edges[merges[k] as int].to)
}

/// Node `m` joins the two distinct clusters that held the edge's endpoints
/// just before it was made, in that order.
pub open spec fn joins(nodes: Seq<TreeNode>, edge: TreeEdge, m: int) -> bool {
    let a = newest_holding(nodes, edge.from, m);
    let b = newest_holding(nodes, edge.to, m);
    &&& 0 <= a
    &&& 0 <= b
    &&& a != b
    &&& nodes[m].children@ == seq![a as usize, b as usize]
}

/// Each parent link names a later internal node that lists the child.
pub open spec fn parents_mirror_children(nodes: Seq<TreeNode>, n: int) -> bool {
    forall|i: int|
        0 <= i < nodes.len() && (#[trigger] nodes[i]).parent is Some ==> n <= nodes[i].parent->0 < nodes.len()
            && nodes[nodes[i].parent->0 as int].children@.contains(i as usize)
}

/// The set representative of each point.
pub open spec fn roots_of(uf: UnionFind, n: int) -> Seq<int> {
    Seq::new(n as nat, |z: int| uf.root(z))
}

/// What the builder keeps beyond `building`, over the representatives `r`:
/// each current cluster is the newest node holding its points and has no
/// parent yet, holds only points of its own set, each parent joins the
/// clusters of its edge's endpoints, each skipped edge lay inside one
/// cluster, and parent links mirror child lists.
pub open spec fn building_exact(
    nodes: Seq<TreeNode>,
    r: Seq<int>,
    node_map: Seq<usize>,
    merges: Seq<usize>,
    edges: Seq<TreeEdge>,
    n: int,
    e: int,
) -> bool {
    &&& r.len() == n
    &&& forall|z: int| 0 <= z < n ==> #[trigger] node_map[r[z]] as int == newest_holding(nodes, z as usize, nodes.len() as int)
    &&& forall|z: int, j: usize|
        0 <= z < n && #[trigger] subtree_points(nodes, node_map[r[z]] as int).contains(j) ==> j < n && r[j as int]
            == r[z]
    &&& forall|z: int| 0 <= z < n ==> (#[trigger] nodes[node_map[r[z]] as int]).parent is None
    &&& forall|k: int| 0 <= k < merges.len() ==> #[trigger] joins(nodes, edges[merges[k] as int], n + k)
    &&& forall|k: int, f: int|
        0 <= k <= merges.len() && 0 <= f < e && #[trigger] in_gap(merges, k, f) ==> newest_holding(
            nodes,
            edges[f].from,
            n + k,
        ) == newest_holding(nodes, edges[f].to, n + k)
    &&& forall|k: int, j: int|
        0 <= k < merges.len() && 0 <= j < 2 ==> nodes[#[trigger] nodes[n + k].children@[j] as int].parent == Some(
            (n + k) as usize,
        )
    &&& parents_mirror_children(nodes, n)
}

proof fn lemma_exact_init(nodes: Seq<TreeNode>, r: Seq<int>, node_map: Seq<usize>, edges: Seq<TreeEdge>, n: int)
    requires
        nodes.len() == n,
        n <= usize::MAX,
        r.len() == n,
        node_map.len() == n,
        forall|z: int| 0 <= z < n ==> #[trigger] r[z] == z,
        forall|z: int| 0 <= z < n ==> #[trigger] node_map[z] == z,
        forall|i: int|
            0 <= i < n ==> (#[trigger] nodes[i]).children@ == Seq::<usize>::empty() && nodes[i].points@ == seq![
                i as usize,
            ] && nodes[i].parent is None,
    ensures
        building_exact(nodes, r, node_map, Seq::<usize>::empty(), edges, n, 0),
{
    assert forall|i: int| 0 <= i < n implies #[trigger] subtree_points(nodes, i) == seq![i as usize] by {
        assert(nodes[i].children.len() == 0);
    }
    assert forall|z: int| 0 <= z < n implies #[trigger] node_map[r[z]] as int == newest_holding(
        nodes,
        z as usize,
        n,
    ) by {
        assert(subtree_points(nodes, z) == seq![z as usize]);
        assert(seq![z as usize][0] == z as usize);
        assert forall|id: int| z < id < n implies !(#[trigger] subtree_points(nodes, id)).contains(z as usize) by {
            let s1 = seq![id as usize];
            assert(subtree_points(nodes, id) == s1);
            assert(s1.len() == 1 && s1[0] != z as usize);
            if s1.contains(z as usize) {
                let k = choose|k: int| 0 <= k < s1.len() && s1[k] == z as usize;
                assert(k == 0);
            }
        }
        lemma_newest_is(nodes, z as usize, n, z);
    }
    assert forall|z: int, j: usize|
        0 <= z < n && #[trigger] subtree_points(nodes, node_map[r[z]] as int).contains(j) implies j < n && r[j as int]
        == r[z] by {
        assert(subtree_points(nodes, z) == seq![z as usize]);
    }
}

proof fn lemma_exact_skip(
    nodes: Seq<TreeNode>,
    r: Seq<int>,
    node_map: Seq<usize>,
    merges: Seq<usize>,
    edges: Seq<TreeEdge>,
    n: int,
    e: int,
)
    requires
        building_exact(nodes, r, node_map, merges, edges, n, e),
        nodes.len() == n + merges.len(),
        forall|k: int| 0 <= k < merges.len() ==> #[trigger] merges[k] < e,
        0 <= e < edges.len(),
        edges[e].from < n,
        edges[e].to < n,
        r[edges[e].from as int] == r[edges[e].to as int],
    ensures
        building_exact(nodes, r, node_map, merges, edges, n, e + 1),
{
    let f = edges[e].from as int;
    let t = edges[e].to as int;
    assert(node_map[r[f]] as int == newest_holding(nodes, f as usize, nodes.len() as int));
    assert(node_map[r[t]] as int == newest_holding(nodes, t as usize, nodes.len() as int));
    assert forall|k: int, g: int|
        0 <= k <= merges.len() && 0 <= g < e + 1 && #[trigger] in_gap(merges, k, g) implies newest_holding(
        nodes,
        edges[g].from,
        n + k,
    ) == newest_holding(nodes, edges[g].to, n + k) by {
        if g == e {
            if k < merges.len() {
                assert(merges[k] < e);
            }
        }
    }
}

#[verifier::rlimit(60)]
proof fn lemma_exact_merge(
    nodes0: Seq<TreeNode>,
    nodes2: Seq<TreeNode>,
    r1: Seq<int>,
    r2: Seq<int>,
    node_map0: Seq<usize>,
    merges0: Seq<usize>,
    edges: Seq<TreeEdge>,
    n: int,
    e: int,
    new_root: int,
)
    requires
        building_exact(nodes0, r1, node_map0, merges0, edges, n, e),
        nodes0.len() == n + merges0.len(),
        nodes0.len() < usize::MAX,
        node_map0.len() == n,
        forall|q: int| 0 <= q < n ==> #[trigger] node_map0[q] < nodes0.len(),
        forall|z: int| 0 <= z < n ==> subtree_points(nodes0, node_map0[#[trigger] r1[z]] as int).contains(z as usize),
        forall|k: int| 0 <= k < merges0.len() ==> #[trigger] merges0[k] < e,
        0 <= e < edges.len(),
        e < usize::MAX,
        edges[e].from < n,
        edges[e].to < n,
        r2.len() == n,
        forall|z: int| 0 <= z < n ==> 0 <= #[trigger] r1[z] < n,
        r1[edges[e].from as int] != r1[edges[e].to as int],
        new_root == r1[edges[e].from as int] || new_root == r1[edges[e].to as int],
        forall|z: int|
            0 <= z < n ==> #[trigger] r2[z] == if r1[z] == r1[edges[e].from as int] || r1[z] == r1[edges[e].to as int] {
                new_root
            } else {
                r1[z]
            },
        nodes2.len() == nodes0.len() + 1,
        forall|id: int| 0 <= id < nodes0.len() ==> #[trigger] subtree_points(nodes2, id) == subtree_points(nodes0, id),
        forall|i: int| 0 <= i < nodes0.len() ==> (#[trigger] nodes2[i]).children == nodes0[i].children,
        nodes2[nodes0.len() as int].children@ == seq![
            node_map0[r1[edges[e].from as int]],
            node_map0[r1[edges[e].to as int]],
        ],
        subtree_points(nodes2, nodes0.len() as int) == subtree_points(
            nodes0,
            node_map0[r1[edges[e].from as int]] as int,
        ) + subtree_points(nodes0, node_map0[r1[edges[e].to as int]] as int),
        forall|i: int|
            0 <= i < nodes0.len() && i != node_map0[r1[edges[e].from as int]] && i
                != node_map0[r1[edges[e].to as int]] ==> (#[trigger] nodes2[i]).parent == nodes0[i].parent,
        nodes2[node_map0[r1[edges[e].from as int]] as int].parent == Some(nodes0.len() as usize),
        nodes2[node_map0[r1[edges[e].to as int]] as int].parent == Some(nodes0.len() as usize),
        nodes2[nodes0.len() as int].parent is None,
    ensures
        building_exact(
            nodes2,
            r2,
            node_map0.update(new_root, nodes0.len() as usize),
            merges0.push(e as usize),
            edges,
            n,
            e + 1,
        ),
{
    let p = nodes0.len() as int;
    let f = edges[e].from as int;
    let t = edges[e].to as int;
    let root1 = r1[f];
    let root2 = r1[t];
    let a = node_map0[root1] as int;
    let b = node_map0[root2] as int;
    let nm = node_map0.update(new_root, p as usize);
    let m2 = merges0.push(e as usize);
    let sa = subtree_points(nodes0, a);
    let sb = subtree_points(nodes0, b);
    assert(subtree_points(nodes2, p) == sa + sb);
    // the points of `a` and `b` lie in the sets of `root1` and `root2`
    assert forall|j: usize| #[trigger] sa.contains(j) implies j < n && r1[j as int] == root1 by {
        assert(subtree_points(nodes0, node_map0[r1[f]] as int).contains(j));
    }
    assert forall|j: usize| #[trigger] sb.contains(j) implies j < n && r1[j as int] == root2 by {
        assert(subtree_points(nodes0, node_map0[r1[t]] as int).contains(j));
    }
    assert forall|j: usize| #[trigger] (sa + sb).contains(j) implies j < n && (r1[j as int] == root1
        || r1[j as int] == root2) by {
        let k = choose|k: int| 0 <= k < (sa + sb).len() && (sa + sb)[k] == j;
        if k < sa.len() {
            assert(sa[k] == j);
            assert(sa.contains(j));
        } else {
            assert(sb[k - sa.len()] == j);
            assert(sb.contains(j));
        }
    }
    assert(sa.contains(f as usize));
    assert(sb.contains(t as usize));
    assert(a != b) by {
        if a == b {
            assert(sb.contains(f as usize));
        }
    }
    lemma_newest_frame(nodes0, nodes2, f as usize, p);
    lemma_newest_frame(nodes0, nodes2, t as usize, p);
    // each point's cluster is the newest node holding it
    assert forall|z: int| 0 <= z < n implies #[trigger] nm[r2[z]] as int == newest_holding(
        nodes2,
        z as usize,
        nodes2.len() as int,
    ) by {
        let c = node_map0[r1[z]] as int;
        assert(subtree_points(nodes0, c).contains(z as usize));
        if r1[z] == root1 || r1[z] == root2 {
            assert(nm[r2[z]] == p);
            if r1[z] == root1 {
                let k = choose|k: int| 0 <= k < sa.len() && sa[k] == z as usize;
                assert((sa + sb)[k] == z as usize);
            } else {
                let k = choose|k: int| 0 <= k < sb.len() && sb[k] == z as usize;
                assert((sa + sb)[sa.len() + k] == z as usize);
            }
            assert(subtree_points(nodes2, p).contains(z as usize));
        } else {
            assert(r2[z] == r1[z]);
            assert(nm[r2[z]] == node_map0[r1[z]]);
            assert(!subtree_points(nodes2, p).contains(z as usize));
            lemma_newest_frame(nodes0, nodes2, z as usize, p);
            assert(newest_holding(nodes0, z as usize, p) == c);
        }
    }
    // clusters hold only points of their own set
    assert forall|z: int, j: usize|
        0 <= z < n && #[trigger] subtree_points(nodes2, nm[r2[z]] as int).contains(j) implies j < n && r2[j as int]
        == r2[z] by {
        if r1[z] == root1 || r1[z] == root2 {
            assert(nm[r2[z]] == p);
            assert((sa + sb).contains(j));
        } else {
            let c = node_map0[r1[z]] as int;
            assert(nm[r2[z]] == c);
            assert(subtree_points(nodes2, c) == subtree_points(nodes0, c));
            assert(subtree_points(nodes0, node_map0[r1[z]] as int).contains(j));
        }
    }
    // current clusters have no parent
    assert forall|z: int| 0 <= z < n implies (#[trigger] nodes2[nm[r2[z]] as int]).parent is None by {
        if r1[z] == root1 || r1[z] == root2 {
            assert(nm[r2[z]] == p);
        } else {
            let c = node_map0[r1[z]] as int;
            assert(nm[r2[z]] == c);
            assert(nodes0[node_map0[r1[z]] as int].parent is None);
            assert(c != a) by {
                if c == a {
                    assert(sa.contains(z as usize));
                }
            }
            assert(c != b) by {
                if c == b {
                    assert(sb.contains(z as usize));
                }
            }
        }
    }
    // every parent joins the clusters of its edge
    assert forall|k: int| 0 <= k < m2.len() implies #[trigger] joins(nodes2, edges[m2[k] as int], n + k) by {
        if k < merges0.len() {
            assert(m2[k] == merges0[k]);
            assert(joins(nodes0, edges[merges0[k] as int], n + k));
            let g = edges[merges0[k] as int];
            lemma_newest_frame(nodes0, nodes2, g.from, n + k);
            lemma_newest_frame(nodes0, nodes2, g.to, n + k);
        } else {
            assert(m2[k] == e);
            assert(n + k == p);
            assert(node_map0[r1[f]] as int == newest_holding(nodes0, f as usize, p));
            assert(node_map0[r1[t]] as int == newest_holding(nodes0, t as usize, p));
        }
    }
    // skipped edges lay inside one cluster
    assert forall|k: int, g: int|
        0 <= k <= m2.len() && 0 <= g < e + 1 && #[trigger] in_gap(m2, k, g) implies newest_holding(
        nodes2,
        edges[g].from,
        n + k,
    ) == newest_holding(nodes2, edges[g].to, n + k) by {
        if k == m2.len() {
            assert(m2[k - 1] == e);
        } else {
            if k < merges0.len() {
                assert(m2[k] == merges0[k]);
            } else {
                assert(m2[k] == e);
            }
            if k > 0 {
                assert(m2[k - 1] == merges0[k - 1]);
            }
            if g == e {
                if k < merges0.len() {
                    assert(merges0[k] < e);
                }
            } else {
                assert(in_gap(merges0, k, g));
                lemma_newest_frame(nodes0, nodes2, edges[g].from, n + k);
                lemma_newest_frame(nodes0, nodes2, edges[g].to, n + k);
            }
        }
    }
    // children point back to their parent
    assert forall|k: int, j: int| 0 <= k < m2.len() && 0 <= j < 2 implies nodes2[#[trigger] nodes2[n
        + k].children@[j] as int].parent == Some((n + k) as usize) by {
        if k < merges0.len() {
            let c = nodes0[n + k].children@[j] as int;
            assert(nodes2[n + k].children == nodes0[n + k].children);
            assert(nodes0[c].parent == Some((n + k) as usize));
            assert(nodes0[a].parent is None) by {
                assert(nodes0[node_map0[r1[f]] as int].parent is None);
            }
            assert(nodes0[b].parent is None) by {
                assert(nodes0[node_map0[r1[t]] as int].parent is None);
            }
            assert(joins(nodes0, edges[merges0[k] as int], n + k));
            assert(c < nodes0.len()) by {
                let g = edges[merges0[k] as int];
                lemma_newest_facts(nodes0, g.from, n + k);
                lemma_newest_facts(nodes0, g.to, n + k);
            }
        } else {
            assert(n + k == p);
        }
    }
    // parent links name a later node listing the child
    assert forall|i: int|
        0 <= i < nodes2.len() && (#[trigger] nodes2[i]).parent is Some implies n <= nodes2[i].parent->0
        < nodes2.len() && nodes2[nodes2[i].parent->0 as int].children@.contains(i as usize) by {
        if i == a {
            assert(nodes2[p].children@[0] == a as usize);
        } else if i == b {
            assert(nodes2[p].children@[1] == b as usize);
        } else if i < p {
            assert(nodes0[i].parent is Some);
            let q = nodes0[i].parent->0 as int;
            assert(nodes2[q].children == nodes0[q].children);
        }
    }
}

/// Build the cluster hierarchy from the spanning-tree edges (lightest
/// first): each point starts as a leaf, and every edge that joins two
/// different clusters creates a parent node over them.  Also returns, for
/// each parent node in creation order, the index of the edge that made it.
pub fn build_tree(edges: &Vec<TreeEdge>, n_points: usize) -> (result: (ClusterTree, Vec<usize>))
    requires
        n_points > 0,
        n_points + edges.len() < usize::MAX,
        forall|k: int| 0 <= k < edges.len() ==> #[trigger] edges@[k].from < n_points && edges@[k].to < n_points,
    ensures
        ({
            let (tree, merges) = result;
            let nodes = tree.nodes@;
            &&& tree_wf(nodes)
            &&& ordered(nodes)
            &&& nodes.len() == n_points + merges.len()
            &&& merges.len() < n_points
            &&& forall|i: int|
                0 <= i < n_points ==> (#[trigger] nodes[i]).children@ == Seq::<usize>::empty() && nodes[i].points@
                    == seq![i as usize]
            &&& forall|k: int| 0 <= k < merges.len() ==> #[trigger] merges@[k] < edges.len()
            &&& forall|k1: int, k2: int| 0 <= k1 < k2 < merges.len() ==> #[trigger] merges@[k1] < #[trigger] merges@[k2]
            &&& forall|k: int|
                0 <= k < merges.len() ==> (#[trigger] nodes[n_points + k]).children.len() == 2
                    && nodes[n_points + k].points@ == Seq::<usize>::empty() && subtree_points(nodes, n_points + k).contains(
                    edges@[merges@[k] as int].from,
                ) && subtree_points(nodes, n_points + k).contains(edges@[merges@[k] as int].to)
            &&& tree.root matches Some(r) && r < nodes.len() && subtree_points(nodes, r as int).contains(0usize)
            &&& merges.len() == n_points - 1 ==> forall|p: int|
                0 <= p < n_points ==> #[trigger] subtree_points(nodes, tree.root->0 as int).contains(p as usize)
            // parent `n_points + k` joins the clusters that held the ends of its edge
            &&& forall|k: int| 0 <= k < merges.len() ==> #[trigger] joins(nodes, edges@[merges@[k] as int], n_points + k)
            // an edge between two merges lay inside one cluster
            &&& forall|k: int, f: int|
                0 <= k <= merges.len() && 0 <= f < edges.len() && #[trigger] in_gap(merges@, k, f) ==> newest_holding(
                    nodes,
                    edges@[f].from,
                    n_points + k,
                ) == newest_holding(nodes, edges@[f].to, n_points + k)
            &&& forall|k: int, j: int|
                0 <= k < merges.len() && 0 <= j < 2 ==> nodes[#[trigger] nodes[n_points + k].children@[j] as int].parent
                    == Some((n_points + k) as usize)
            &&& parents_mirror_children(nodes, n_points as int)
            // the root is the final cluster of point 0; final clusters have no parent
            &&& tree.root == Some(newest_holding(nodes, 0, nodes.len() as int) as usize)
            &&& forall|z: int| 0 <= z < n_points ==> 0 <= #[trigger] newest_holding(nodes, z as usize, nodes.len() as int)
                && nodes[newest_holding(nodes, z as usize, nodes.len() as int)].parent is None
        }),
{
    let mut tree = ClusterTree::new();
    let mut uf = UnionFind::new(n_points);
    let mut node_map: Vec<usize> = Vec::new();
    let mut i: usize = 0;
    while i < n_points
        invariant
            i <= n_points,
            n_points + edges.len() < usize::MAX,
            ordered(tree.nodes@),
            tree.nodes.len() == i,
            node_map.len() == i,
            forall|r: int| 0 <= r < i ==> #[trigger] node_map@[r] == r,
            forall|k: int|
                0 <= k < i ==> (#[trigger] tree.nodes@[k]).children@ == Seq::<usize>::empty()
                    && tree.nodes@[k].points@ == seq![k as usize] && tree.nodes@[k].parent is None,
        decreases n_points - i,
    {
        let id = tree.add_leaf(i);
        node_map.push(id);
        i = i + 1;
    }
    let mut merges: Vec<usize> = Vec::new();
    proof {
        assert forall|z: int| 0 <= z < n_points implies subtree_points(
            tree.nodes@,
            node_map@[#[trigger] uf.root(z)] as int,
        ).contains(z as usize) by {
            assert(uf.root(z) == z);
            assert(tree.nodes@[z].points@ == seq![z as usize]);
            assert(seq![z as usize][0] == z as usize);
        }
        lemma_exact_init(tree.nodes@, roots_of(uf, n_points as int), node_map@, edges@, n_points as int);
    }
    let mut e: usize = 0;
    while e < edges.len()
        invariant
            e <= edges.len(),
            n_points > 0,
            n_points + edges.len() < usize::MAX,
            forall|k: int| 0 <= k < edges.len() ==> #[trigger] edges@[k].from < n_points && edges@[k].to < n_points,
            building(tree.nodes@, uf, node_map@, merges@, edges@, n_points as int, e as int),
            building_exact(tree.nodes@, roots_of(uf, n_points as int), node_map@, merges@, edges@, n_points as int, e as int),
        decreases edges.len() - e,
    {
        let edge = edges[e];
        let ghost uf0 = uf;
        let root1 = uf.find(edge.from);
        let ghost ufm = uf;
        let root2 = uf.find(edge.to);
        let ghost uf1 = uf;
        proof {
            assert forall|y: int| #[trigger] uf1.root(y) == uf0.root(y) by {
                assert(ufm.root(y) == uf0.root(y));
            }
            lemma_root_is_representative(uf0, edge.from as int);
            lemma_root_is_representative(uf0, edge.to as int);
            lemma_building_same_roots(tree.nodes@, uf0, uf, node_map@, merges@, edges@, n_points as int, e as int);
            assert(roots_of(uf1, n_points as int) =~= roots_of(uf0, n_points as int));
        }
        if root1 != root2 {
            let ghost nodes0 = tree.nodes@;
            let ghost nm0 = node_map@;
            let ghost mg0 = merges@;
            let a = node_map[root1];
            let b = node_map[root2];
            proof {
                lemma_single_set(uf1, edge.from as int, edge.to as int);
            }
            let parent = tree.add_internal();
            let ghost nodes1 = tree.nodes@;
            tree.merge(a, b, parent);
            let ghost nodes2 = tree.nodes@;
            merges.push(e);
            let new_root = uf.union(root1, root2);
            node_map.set(new_root, parent);
            proof {
                assert forall|id: int| 0 <= id < nodes0.len() implies #[trigger] subtree_points(nodes2, id)
                    == subtree_points(nodes0, id) by {
                    lemma_subtree_frame(nodes0, nodes2, id);
                }
                assert(nodes2[parent as int].children@ =~= seq![a, b]);
                lemma_ordered_is_wf(nodes2);
                lemma_two_children(nodes2, parent as int);
                lemma_root_is_representative(uf1, edge.from as int);
                lemma_root_is_representative(uf1, edge.to as int);
                assert(uf1.root(root1 as int) == root1 as int);
                assert(uf1.root(root2 as int) == root2 as int);
                lemma_build_step(
                    nodes0,
                    nodes2,
                    uf1,
                    uf,
                    nm0,
                    mg0,
                    edges@,
                    n_points as int,
                    e as int,
                    root1 as int,
                    root2 as int,
                    new_root as int,
                );
                let r1 = roots_of(uf1, n_points as int);
                let r2 = roots_of(uf, n_points as int);
                assert forall|z: int| 0 <= z < n_points implies 0 <= #[trigger] r1[z] < n_points by {
                    lemma_root_is_representative(uf1, z);
                }
                assert forall|z: int| 0 <= z < n_points implies subtree_points(nodes0, nm0[#[trigger] r1[z]] as int).contains(
                    z as usize,
                ) by {
                    assert(r1[z] == uf1.root(z));
                }
                lemma_exact_merge(nodes0, nodes2, r1, r2, nm0, mg0, edges@, n_points as int, e as int, new_root as int);
            }
        } else {
            proof {
                lemma_exact_skip(tree.nodes@, roots_of(uf, n_points as int), node_map@, merges@, edges@, n_points as int, e as int);
            }
        }
        e = e + 1;
    }
    let ghost ufe = uf;
    let root = uf.find(0);
    let top = node_map[root];
    proof {
        lemma_root_is_representative(ufe, 0);
        lemma_single_set(ufe, 0, 0);
        assert(uf.root(0) == ufe.root(0));
        assert(subtree_points(tree.nodes@, node_map@[uf.root(0)] as int).contains(0usize));
        let r = roots_of(ufe, n_points as int);
        assert(r[0] == uf.root(0));
        assert(node_map@[r[0]] as int == newest_holding(tree.nodes@, 0, tree.nodes.len() as int));
        assert forall|z: int| 0 <= z < n_points implies 0 <= #[trigger] newest_holding(
            tree.nodes@,
            z as usize,
            tree.nodes.len() as int,
        ) && tree.nodes@[newest_holding(tree.nodes@, z as usize, tree.nodes.len() as int)].parent is None by {
            assert(node_map@[r[z]] as int == newest_holding(tree.nodes@, z as usize, tree.nodes.len() as int));
            assert(tree.nodes@[node_map@[r[z]] as int].parent is None);
        }
        if merges.len() == n_points - 1 {
            assert forall|p: int| 0 <= p < n_points implies #[trigger] subtree_points(tree.nodes@, top as int).contains(
                p as usize,
            ) by {
                lemma_single_set(uf, p, 0);
                assert(subtree_points(tree.nodes@, node_map@[uf.root(p)] as int).contains(p as usize));
            }
        }
    }
    tree.set_root(top);
    proof {
        lemma_ordered_is_wf(tree.nodes@);
    }
    (tree, merges)
}

proof fn lemma_build_step(
    nodes0: Seq<TreeNode>,
    nodes2: Seq<TreeNode>,
    uf1: UnionFind,
    uf2: UnionFind,
    node_map0: Seq<usize>,
    merges0: Seq<usize>,
    edges: Seq<TreeEdge>,
    n: int,
    e: int,
    root1: int,
    root2: int,
    new_root: int,
)
    requires
        building(nodes0, uf1, node_map0, merges0, edges, n, e),
        0 <= e < edges.len(),
        e < usize::MAX,
        edges[e].from < n && edges[e].to < n,
        root1 == uf1.root(edges[e].from as int),
        root2 == uf1.root(edges[e].to as int),
        0 <= root1 < n && 0 <= root2 < n,
        uf1.root(root1) == root1 && uf1.root(root2) == root2,
        root1 != root2,
        uf2.wf(),
        uf2.size() == n,
        uf2.n_sets() + 1 == uf1.n_sets(),
        new_root == root1 || new_root == root2,
        forall|z: int|
            0 <= z < n ==> #[trigger] uf2.root(z) == if uf1.root(z) == root1 || uf1.root(z) == root2 {
                new_root
            } else {
                uf1.root(z)
            },
        ordered(nodes2),
        nodes2.len() == nodes0.len() + 1,
        forall|id: int| 0 <= id < nodes0.len() ==> #[trigger] subtree_points(nodes2, id) == subtree_points(nodes0, id),
        forall|i: int|
            0 <= i < nodes0.len() ==> (#[trigger] nodes2[i]).points == nodes0[i].points,
        forall|i: int|
            0 <= i < nodes0.len() ==> (#[trigger] nodes2[i]).children == nodes0[i].children,
        nodes2[nodes0.len() as int].children@ == seq![node_map0[root1], node_map0[root2]],
        nodes2[nodes0.len() as int].points@ == Seq::<usize>::empty(),
        subtree_points(nodes2, nodes0.len() as int) == subtree_points(nodes0, node_map0[root1] as int)
            + subtree_points(nodes0, node_map0[root2] as int),
    ensures
        building(
            nodes2,
            uf2,
            node_map0.update(new_root, nodes0.len() as usize),
            merges0.push(e as usize),
            edges,
            n,
            e + 1,
        ),
{
    let p = nodes0.len() as int;
    let nm = node_map0.update(new_root, p as usize);
    let m2 = merges0.push(e as usize);
    assert(node_map0[root1] < nodes0.len());
    assert(node_map0[root2] < nodes0.len());
    assert forall|z: int| 0 <= z < n implies subtree_points(nodes2, nm[#[trigger] uf2.root(z)] as int).contains(
        z as usize,
    ) by {
        assert(subtree_points(nodes0, node_map0[uf1.root(z)] as int).contains(z as usize));
        if uf1.root(z) == root1 || uf1.root(z) == root2 {
            assert(nm[new_root] == p);
            let s1 = subtree_points(nodes0, node_map0[root1] as int);
            let s2 = subtree_points(nodes0, node_map0[root2] as int);
            if uf1.root(z) == root1 {
                let j = choose|j: int| 0 <= j < s1.len() && s1[j] == z as usize;
                assert((s1 + s2)[j] == z as usize);
            } else {
                let j = choose|j: int| 0 <= j < s2.len() && s2[j] == z as usize;
                assert((s1 + s2)[s1.len() + j] == z as usize);
            }
        } else {
            lemma_root_is_representative(uf1, z);
            assert(uf2.root(z) == uf1.root(z));
            assert(nm[uf1.root(z)] == node_map0[uf1.root(z)]);
        }
    }
    assert forall|r: int| 0 <= r < n implies #[trigger] nm[r] < nodes2.len() by {}
    assert forall|i: int|
        0 <= i < n implies (#[trigger] nodes2[i]).children@ == Seq::<usize>::empty() && nodes2[i].points@ == seq![
            i as usize,
        ] by {
        assert(nodes0[i].children@ == Seq::<usize>::empty());
    }
    assert forall|k: int| 0 <= k < m2.len() implies #[trigger] m2[k] < e + 1 by {
        if k < merges0.len() {
            assert(m2[k] == merges0[k]);
        }
    }
    assert forall|k1: int, k2: int| 0 <= k1 < k2 < m2.len() implies #[trigger] m2[k1] < #[trigger] m2[k2] by {
        assert(m2[k1] == merges0[k1]);
        if k2 < merges0.len() {
            assert(m2[k2] == merges0[k2]);
        } else {
            assert(m2[k2] == e);
            assert(merges0[k1] < e);
        }
    }
    assert forall|k: int|
        0 <= k < m2.len() implies (#[trigger] nodes2[n + k]).children.len() == 2 && nodes2[n + k].points@
            == Seq::<usize>::empty() && subtree_points(nodes2, n + k).contains(edges[m2[k] as int].from)
            && subtree_points(nodes2, n + k).contains(edges[m2[k] as int].to) by {
        if k < merges0.len() {
            assert(m2[k] == merges0[k]);
            assert(nodes0[n + k].children.len() == 2);
            assert(subtree_points(nodes2, n + k) == subtree_points(nodes0, n + k));
        } else {
            assert(n + k == p);
            let s1 = subtree_points(nodes0, node_map0[root1] as int);
            let s2 = subtree_points(nodes0, node_map0[root2] as int);
            let f = edges[e].from as int;
            let t = edges[e].to as int;
            assert(s1.contains(f as usize)) by {
                assert(subtree_points(nodes0, node_map0[uf1.root(f)] as int).contains(f as usize));
            }
            assert(s2.contains(t as usize)) by {
                assert(subtree_points(nodes0, node_map0[uf1.root(t)] as int).contains(t as usize));
            }
            let j1 = choose|j: int| 0 <= j < s1.len() && s1[j] == f as usize;
            assert((s1 + s2)[j1] == f as usize);
            let j2 = choose|j: int| 0 <= j < s2.len() && s2[j] == t as usize;
            assert((s1 + s2)[s1.len() + j2] == t as usize);
        }
    }
}

proof fn lemma_building_same_roots(
    nodes: Seq<TreeNode>,
    uf0: UnionFind,
    uf1: UnionFind,
    node_map: Seq<usize>,
    merges: Seq<usize>,
    edges: Seq<TreeEdge>,
    n: int,
    e: int,
)
    requires
        building(nodes, uf0, node_map, merges, edges, n, e),
        uf1.wf(),
        uf1.size() == uf0.size(),
        uf1.n_sets() == uf0.n_sets(),
        forall|y: int| #[trigger] uf1.root(y) == uf0.root(y),
    ensures
        building(nodes, uf1, node_map, merges, edges, n, e),
{
    assert forall|z: int| 0 <= z < n implies subtree_points(nodes, node_map[#[trigger] uf1.root(z)] as int).contains(
        z as usize,
    ) by {
        assert(uf1.root(z) == uf0.root(z));
    }
}

} // verus!
