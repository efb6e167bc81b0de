//! The shape of a cluster hierarchy (dendrogram): leaves hold points,
//! internal nodes join the clusters of their children.

use vstd::prelude::*;
use crate::mst::{count_true, lemma_count_true_le, lemma_count_true_update};

verus! {

/// A node of the cluster hierarchy.
pub struct TreeNode {
    /// Node identifier (its index in the hierarchy).
    pub id: usize,
    /// Parent node ID (`None` until the node is merged into a parent).
    pub parent: Option<usize>,
    /// Child node IDs.
    pub children: Vec<usize>,
    /// Points in this cluster (leaf nodes only).
    pub points: Vec<usize>,
}

impl TreeNode {
    /// Create a new leaf node holding one point.
    pub fn new_leaf(id: usize, point: usize) -> (node: Self)
        ensures
            node.id == id,
            node.parent is None,
            node.children@ == Seq::<usize>::empty(),
            node.points@ == seq![point],
    {
        let mut points: Vec<usize> = Vec::new();
        points.push(point);
        TreeNode { id, parent: None, children: Vec::new(), points }
    }

    /// Create a new internal node, with no point and no child yet.
    pub fn new_internal(id: usize) -> (node: Self)
        ensures
            node.id == id,
            node.parent is None,
            node.children@ == Seq::<usize>::empty(),
            node.points@ == Seq::<usize>::empty(),
    {
        TreeNode { id, parent: None, children: Vec::new(), points: Vec::new() }
    }

    /// Check if this is a leaf node.
    pub fn is_leaf(&self) -> (leaf: bool)
        ensures
            leaf == (self.children.len() == 0),
    {
        self.children.len() == 0
    }
}

/// `rank` gives every node a larger value than each of its children that exists.
pub open spec fn ranked(nodes: Seq<TreeNode>, rank: Seq<nat>) -> bool {
    &&& rank.len() == nodes.len()
    &&& forall|i: int, k: int|
        0 <= i < nodes.len() && 0 <= k < nodes[i].children.len() && #[trigger] nodes[i].children@[k] < nodes.len()
            ==> rank[nodes[i].children@[k] as int] < rank[i]
}

/// No node lies below itself: some ranking puts every parent above its children.
pub open spec fn acyclic(nodes: Seq<TreeNode>) -> bool {
    exists|rank: Seq<nat>| ranked(nodes, rank)
}

/// Height of node `id` under one fixed ranking (`0` when there is a cycle).
pub open spec fn node_height(nodes: Seq<TreeNode>, id: int) -> nat {
    if acyclic(nodes) {
        (choose|rank: Seq<nat>| ranked(nodes, rank))[id]
    } else {
        0
    }
}

/// A well-formed hierarchy: node `i` has ID `i`, and no node lies below itself.
pub open spec fn tree_wf(nodes: Seq<TreeNode>) -> bool {
    &&& nodes.len() <= usize::MAX
    &&& forall|i: int| 0 <= i < nodes.len() ==> #[trigger] nodes[i].id == i
    &&& acyclic(nodes)
}

/// A hierarchy built bottom-up: node `i` has ID `i`, and every child has a
/// smaller ID than its parent.
pub open spec fn ordered(nodes: Seq<TreeNode>) -> bool {
    &&& nodes.len() <= usize::MAX
    &&& forall|i: int| 0 <= i < nodes.len() ==> #[trigger] nodes[i].id == i
    &&& forall|i: int, k: int|
        0 <= i < nodes.len() && 0 <= k < nodes[i].children.len() ==> #[trigger] nodes[i].children@[k] < i
}

/// A hierarchy built bottom-up is well formed.
pub proof fn lemma_ordered_is_wf(nodes: Seq<TreeNode>)
    requires
        ordered(nodes),
    ensures
        tree_wf(nodes),
{
    let rank = Seq::new(nodes.len(), |i: int| i as nat);
    assert(ranked(nodes, rank));
}

/// In a well-formed hierarchy every existing child is lower than its parent.
pub proof fn lemma_child_lower(nodes: Seq<TreeNode>, id: int, k: int)
    requires
        tree_wf(nodes),
        0 <= id < nodes.len(),
        0 <= k < nodes[id].children.len(),
        nodes[id].children@[k] < nodes.len(),
    ensures
        node_height(nodes, nodes[id].children@[k] as int) < node_height(nodes, id),
{
    let rank = choose|rank: Seq<nat>| ranked(nodes, rank);
    assert(ranked(nodes, rank));
}

/// Measure for the walk over a subtree.
pub open spec fn subtree_measure(nodes: Seq<TreeNode>, id: int) -> int {
    if 0 <= id < nodes.len() {
        nodes[id].children.len() + 1
    } else {
        0
    }
}

/// The points of the subtree rooted at `id`, leaves visited in child order;
/// an unknown ID has none.
pub open spec fn subtree_points(nodes: Seq<TreeNode>, id: int) -> Seq<usize>
    decreases node_height(nodes, id), subtree_measure(nodes, id),
{
    if 0 <= id < nodes.len() {
        if nodes[id].children.len() == 0 {
            nodes[id].points@
        } else {
            children_points(nodes, id, nodes[id].children.len() as int)
        }
    } else {
        seq![]
    }
}

/// The points of the subtrees of the first `k` children of node `id`
/// (children that are not nodes contribute none).
pub open spec fn children_points(nodes: Seq<TreeNode>, id: int, k: int) -> Seq<usize>
    decreases node_height(nodes, id), k,
{
    if k <= 0 || !(0 <= id < nodes.len()) || k > nodes[id].children.len() {
        seq![]
    } else {
        let c = nodes[id].children@[k - 1] as int;
        children_points(nodes, id, k - 1) + (if c < nodes.len() && node_height(nodes, c) < node_height(nodes, id) {
            subtree_points(nodes, c)
        } else {
            seq![]
        })
    }
}

/// Progress of peeling a hierarchy: a node is removed only after all its
/// existing children, and is ranked above them.
spec fn peeled(nodes: Seq<TreeNode>, removed: Seq<bool>, rank: Seq<nat>) -> bool {
    &&& removed.len() == nodes.len()
    &&& rank.len() == nodes.len()
    &&& forall|i: int, k: int|
        0 <= i < nodes.len() && removed[i] && 0 <= k < nodes[i].children.len()
            && #[trigger] nodes[i].children@[k] < nodes.len()
            ==> removed[nodes[i].children@[k] as int] && rank[nodes[i].children@[k] as int] < rank[i]
}

/// Node `i` still has an existing child that is not removed.
spec fn has_live_child(nodes: Seq<TreeNode>, removed: Seq<bool>, i: int) -> bool {
    exists|k: int|
        0 <= k < nodes[i].children.len() && #[trigger] nodes[i].children@[k] < nodes.len()
            && !removed[nodes[i].children@[k] as int]
}

/// Following live children downwards never ends, which no ranking allows.
proof fn lemma_descend(nodes: Seq<TreeNode>, removed: Seq<bool>, rank: Seq<nat>, i: int)
    requires
        removed.len() == nodes.len(),
        0 <= i < nodes.len(),
        !removed[i],
        forall|j: int| 0 <= j < nodes.len() && !#[trigger] removed[j] ==> has_live_child(nodes, removed, j),
    ensures
        !ranked(nodes, rank),
    decreases rank[i],
{
    if ranked(nodes, rank) {
        assert(has_live_child(nodes, removed, i));
        let k = choose|k: int|
            0 <= k < nodes[i].children.len() && #[trigger] nodes[i].children@[k] < nodes.len()
                && !removed[nodes[i].children@[k] as int];
        let c = nodes[i].children@[k] as int;
        assert(rank[c] < rank[i]);
        lemma_descend(nodes, removed, rank, c);
    }
}

/// When peeling is stuck with a node left, some node lies below itself.
proof fn lemma_stuck_cyclic(nodes: Seq<TreeNode>, removed: Seq<bool>, i: int)
    requires
        removed.len() == nodes.len(),
        0 <= i < nodes.len(),
        !removed[i],
        forall|j: int| 0 <= j < nodes.len() && !#[trigger] removed[j] ==> has_live_child(nodes, removed, j),
    ensures
        !acyclic(nodes),
{
    assert forall|rank: Seq<nat>| !ranked(nodes, rank) by {
        lemma_descend(nodes, removed, rank, i);
    }
}

/// Cluster hierarchy: nodes indexed by ID, and the root once known.
pub struct ClusterTree {
    /// All nodes, node `i` at index `i`.
    pub nodes: Vec<TreeNode>,
    /// Root node ID.
    pub root: Option<usize>,
}

impl ClusterTree {
    /// Create a new empty hierarchy.
    pub fn new() -> (tree: Self)
        ensures
            tree.nodes@ == Seq::<TreeNode>::empty(),
            tree.root is None,
            tree_wf(tree.nodes@),
            ordered(tree.nodes@),
    {
        let tree = ClusterTree { nodes: Vec::new(), root: None };
        proof {
            assert(ranked(tree.nodes@, Seq::<nat>::empty()));
        }
        tree
    }

    /// Add a leaf node holding `point`; returns its ID.
    pub fn add_leaf(&mut self, point: usize) -> (id: usize)
        requires
            old(self).nodes.len() < usize::MAX,
        ensures
            id == old(self).nodes.len(),
            final(self).nodes.len() == old(self).nodes.len() + 1,
            forall|i: int| 0 <= i < id ==> #[trigger] final(self).nodes@[i] == old(self).nodes@[i],
            final(self).nodes@[id as int].id == id,
            final(self).nodes@[id as int].parent is None,
            final(self).nodes@[id as int].children@ == Seq::<usize>::empty(),
            final(self).nodes@[id as int].points@ == seq![point],
            final(self).root == old(self).root,
            tree_wf(old(self).nodes@) ==> tree_wf(final(self).nodes@),
            ordered(old(self).nodes@) ==> ordered(final(self).nodes@),
    {
        let ghost n0 = self.nodes@;
        let id = self.nodes.len();
        let node = TreeNode::new_leaf(id, point);
        self.nodes.push(node);
        proof {
            lemma_push_childless(n0, self.nodes@);
        }
        id
    }

    /// Add an internal node with no child yet; returns its ID.
    pub fn add_internal(&mut self) -> (id: usize)
        requires
            old(self).nodes.len() < usize::MAX,
        ensures
            id == old(self).nodes.len(),
            final(self).nodes.len() == old(self).nodes.len() + 1,
            forall|i: int| 0 <= i < id ==> #[trigger] final(self).nodes@[i] == old(self).nodes@[i],
            final(self).nodes@[id as int].id == id,
            final(self).nodes@[id as int].parent is None,
            final(self).nodes@[id as int].children@ == Seq::<usize>::empty(),
            final(self).nodes@[id as int].points@ == Seq::<usize>::empty(),
            final(self).root == old(self).root,
            tree_wf(old(self).nodes@) ==> tree_wf(final(self).nodes@),
            ordered(old(self).nodes@) ==> ordered(final(self).nodes@),
    {
        let ghost n0 = self.nodes@;
        let id = self.nodes.len();
        let node = TreeNode::new_internal(id);
        self.nodes.push(node);
        proof {
            lemma_push_childless(n0, self.nodes@);
        }
        id
    }

    /// Make `parent` the parent of `child1` and `child2` (children keep
    /// their order); IDs with no node are left alone.  A ranking of the
    /// hierarchy that puts `parent` above both children still ranks it
    /// afterwards, so the hierarchy stays acyclic; it stays built bottom-up
    /// when both children were added before the parent.
    pub fn merge(&mut self, child1: usize, child2: usize, parent: usize)
        ensures
            final(self).nodes.len() == old(self).nodes.len(),
            final(self).root == old(self).root,
            ordered(old(self).nodes@) && child1 < parent && child2 < parent ==> ordered(final(self).nodes@),
            forall|rank: Seq<nat>|
                #[trigger] ranked(old(self).nodes@, rank) && (parent < old(self).nodes.len() && child1 < old(
                    self,
                ).nodes.len() ==> rank[child1 as int] < rank[parent as int]) && (parent < old(self).nodes.len()
                    && child2 < old(self).nodes.len() ==> rank[child2 as int] < rank[parent as int]) ==> ranked(
                    final(self).nodes@,
                    rank,
                ),
            forall|i: int|
                0 <= i < old(self).nodes.len() ==> (#[trigger] final(self).nodes@[i]).points == old(self).nodes@[i].points && final(self).nodes@[i].id == old(self).nodes@[i].id,
            forall|i: int|
                0 <= i < old(self).nodes.len() && i != parent ==> (#[trigger] final(self).nodes@[i]).children
                    == old(self).nodes@[i].children,
            forall|i: int|
                0 <= i < old(self).nodes.len() && i != child1 && i != child2 ==> (#[trigger] final(self).nodes@[i]).parent == old(self).nodes@[i].parent,
            child1 < old(self).nodes.len() ==> final(self).nodes@[child1 as int].parent == Some(parent),
            child2 < old(self).nodes.len() ==> final(self).nodes@[child2 as int].parent == Some(parent),
            parent < old(self).nodes.len() ==> final(self).nodes@[parent as int].children@ == old(self).nodes@[parent as int].children@.push(child1).push(child2),
    {
        let ghost n0 = self.nodes@;
        if child1 < self.nodes.len() {
            self.nodes[child1].parent = Some(parent);
        }
        if child2 < self.nodes.len() {
            self.nodes[child2].parent = Some(parent);
        }
        if parent < self.nodes.len() {
            self.nodes[parent].children.push(child1);
            self.nodes[parent].children.push(child2);
        }
        proof {
            let n1 = self.nodes@;
            assert forall|rank: Seq<nat>|
                #[trigger] ranked(n0, rank) && (parent < n0.len() && child1 < n0.len() ==> rank[child1 as int]
                    < rank[parent as int]) && (parent < n0.len() && child2 < n0.len() ==> rank[child2 as int]
                    < rank[parent as int]) implies ranked(n1, rank) by {
                assert forall|i: int, k: int|
                    0 <= i < n1.len() && 0 <= k < n1[i].children.len() && #[trigger] n1[i].children@[k] < n1.len()
                        implies rank[n1[i].children@[k] as int] < rank[i] by {
                    if i != parent {
                        assert(n1[i].children == n0[i].children);
                    } else if k >= n0[i].children.len() {
                    } else {
                        assert(n1[i].children@[k] == n0[i].children@[k]);
                    }
                }
            }
            if ordered(n0) && child1 < parent && child2 < parent {
                assert forall|i: int, k: int|
                    0 <= i < n1.len() && 0 <= k < n1[i].children.len() implies #[trigger] n1[i].children@[k] < i by {
                    if i != parent {
                        assert(n1[i].children == n0[i].children);
                    } else if k >= n0[i].children.len() {
                    } else {
                        assert(n1[i].children@[k] == n0[i].children@[k]);
                    }
                }
            }
        }
    }

    /// Set the root of the hierarchy.
    pub fn set_root(&mut self, root: usize)
        ensures
            final(self).root == Some(root),
            final(self).nodes == old(self).nodes,
    {
        self.root = Some(root);
    }

    /// Whether the hierarchy is well formed: node `i` has ID `i` and no node
    /// lies below itself.  Nodes are peeled off once all their children are
    /// gone; the hierarchy is well formed exactly when every node comes off.
    pub fn is_well_formed(&self) -> (wf: bool)
        ensures
            wf == tree_wf(self.nodes@),
    {
        let n = self.nodes.len();
        let mut i: usize = 0;
        while i < n
            invariant
                i <= n,
                n == self.nodes@.len(),
                forall|j: int| 0 <= j < i ==> #[trigger] self.nodes@[j].id == j,
            decreases n - i,
        {
            if self.nodes[i].id != i {
                return false;
            }
            i = i + 1;
        }
        let mut removed: Vec<bool> = Vec::new();
        while removed.len() < n
            invariant
                removed.len() <= n,
                forall|j: int| 0 <= j < removed.len() ==> !#[trigger] removed@[j],
                count_true(removed@) == 0,
            decreases n - removed.len(),
        {
            let ghost before = removed@;
            removed.push(false);
            assert(removed@.drop_last() =~= before);
        }
        let ghost mut rank: Seq<nat> = Seq::new(n as nat, |j: int| 0nat);
        let ghost mut t: nat = 0;
        let mut n_removed: usize = 0;
        loop
            invariant
                n == self.nodes@.len(),
                forall|j: int| 0 <= j < n ==> #[trigger] self.nodes@[j].id == j,
                peeled(self.nodes@, removed@, rank),
                forall|j: int| 0 <= j < n && #[trigger] removed@[j] ==> rank[j] < t,
                n_removed == count_true(removed@),
            decreases n - count_true(removed@),
        {
            proof {
                lemma_count_true_le(removed@);
            }
            let mut progress = false;
            let ghost start: nat = count_true(removed@);
            let mut i: usize = 0;
            while i < n
                invariant
                    i <= n,
                    n == self.nodes@.len(),
                    peeled(self.nodes@, removed@, rank),
                    forall|j: int| 0 <= j < n && #[trigger] removed@[j] ==> rank[j] < t,
                    n_removed == count_true(removed@),
                    n_removed <= n,
                    progress ==> n_removed > start,
                    !progress ==> n_removed == start,
                    !progress ==> forall|j: int|
                        0 <= j < i && !#[trigger] removed@[j] ==> has_live_child(self.nodes@, removed@, j),
                decreases n - i,
            {
                if !removed[i] {
                    let mut all_done = true;
                    let mut k: usize = 0;
                    while k < self.nodes[i].children.len()
                        invariant
                            i < n,
                            n == self.nodes@.len(),
                            removed.len() == n,
                            k <= self.nodes@[i as int].children.len(),
                            all_done == forall|k2: int| 0 <= k2 < k
                                ==> (#[trigger] self.nodes@[i as int].children@[k2] < n
                                    ==> removed@[self.nodes@[i as int].children@[k2] as int]),
                        decreases self.nodes@[i as int].children.len() - k,
                    {
                        let c = self.nodes[i].children[k];
                        if c < n && !removed[c] {
                            all_done = false;
                        }
                        k = k + 1;
                    }
                    if all_done {
                        proof {
                            lemma_count_true_update(removed@, i as int);
                            lemma_count_true_le(removed@.update(i as int, true));
                        }
                        removed.set(i, true);
                        proof {
                            rank = rank.update(i as int, t);
                            t = t + 1;
                        }
                        n_removed = n_removed + 1;
                        progress = true;
                    }
                }
                i = i + 1;
            }
            if !progress {
                let mut j: usize = 0;
                while j < n
                    invariant
                        j <= n,
                        n == removed@.len(),
                        n == self.nodes@.len(),
                        forall|j2: int| 0 <= j2 < j ==> #[trigger] removed@[j2],
                        forall|j2: int|
                            0 <= j2 < n && !#[trigger] removed@[j2] ==> has_live_child(self.nodes@, removed@, j2),
                    decreases n - j,
                {
                    if !removed[j] {
                        proof {
                            lemma_stuck_cyclic(self.nodes@, removed@, j as int);
                        }
                        return false;
                    }
                    j = j + 1;
                }
                assert(ranked(self.nodes@, rank));
                return true;
            }
        }
    }

    /// Number of points under node `node_id` (zero for an unknown ID).
    pub fn count_descendant_points(&self, node_id: usize) -> (count: usize)
        requires
            tree_wf(self.nodes@),
            subtree_points(self.nodes@, node_id as int).len() <= usize::MAX,
        ensures
            count == subtree_points(self.nodes@, node_id as int).len(),
        decreases node_height(self.nodes@, node_id as int),
    {
        if node_id >= self.nodes.len() {
            return 0;
        }
        let node = &self.nodes[node_id];
        if node.is_leaf() {
            return node.points.len();
        }
        let mut total: usize = 0;
        let mut k: usize = 0;
        while k < node.children.len()
            invariant
                tree_wf(self.nodes@),
                node_id < self.nodes.len(),
                *node == self.nodes@[node_id as int],
                node.children.len() > 0,
                k <= node.children.len(),
                total == children_points(self.nodes@, node_id as int, k as int).len(),
                subtree_points(self.nodes@, node_id as int).len() <= usize::MAX,
            decreases node.children.len() - k,
        {
            let c = node.children[k];
            proof {
                assert(self.nodes@[node_id as int].children@[k as int] == c);
                lemma_children_points_prefix(self.nodes@, node_id as int, (k + 1) as int);
            }
            let sub = if c < self.nodes.len() {
                proof {
                    lemma_child_lower(self.nodes@, node_id as int, k as int);
                }
                self.count_descendant_points(c)
            } else {
                0
            };
            total = total + sub;
            k = k + 1;
        }
        total
    }

    /// Append the points of the subtree rooted at `node_id` to `points`.
    pub fn collect_points_recursive(&self, node_id: usize, points: &mut Vec<usize>)
        requires
            tree_wf(self.nodes@),
        ensures
            final(points)@ == old(points)@ + subtree_points(self.nodes@, node_id as int),
        decreases node_height(self.nodes@, node_id as int),
    {
        if node_id >= self.nodes.len() {
            assert(old(points)@ + subtree_points(self.nodes@, node_id as int) =~= old(points)@);
            return;
        }
        let node = &self.nodes[node_id];
        if node.is_leaf() {
            let mut j: usize = 0;
            let ghost p0 = points@;
            while j < node.points.len()
                invariant
                    *node == self.nodes@[node_id as int],
                    j <= node.points.len(),
                    points@ == p0 + node.points@.take(j as int),
                decreases node.points.len() - j,
            {
                points.push(node.points[j]);
                proof {
                    assert(node.points@.take(j + 1) =~= node.points@.take(j as int).push(node.points@[j as int]));
                }
                j = j + 1;
            }
            assert(node.points@.take(node.points.len() as int) =~= node.points@);
            return;
        }
        let ghost p0 = points@;
        let mut k: usize = 0;
        assert(p0 + children_points(self.nodes@, node_id as int, 0) =~= p0);
        while k < node.children.len()
            invariant
                tree_wf(self.nodes@),
                node_id < self.nodes.len(),
                *node == self.nodes@[node_id as int],
                node.children.len() > 0,
                k <= node.children.len(),
                points@ == p0 + children_points(self.nodes@, node_id as int, k as int),
            decreases node.children.len() - k,
        {
            let c = node.children[k];
            proof {
                assert(self.nodes@[node_id as int].children@[k as int] == c);
            }
            if c < self.nodes.len() {
                proof {
                    lemma_child_lower(self.nodes@, node_id as int, k as int);
                }
                self.collect_points_recursive(c, points);
            } else {
                assert(points@ =~= points@ + subtree_points(self.nodes@, c as int));
            }
            proof {
                assert(p0 + children_points(self.nodes@, node_id as int, (k + 1) as int) =~= p0
                    + children_points(self.nodes@, node_id as int, k as int) + subtree_points(self.nodes@, c as int));
            }
            k = k + 1;
        }
    }

    /// All points belonging to the cluster of node `node_id`.
    pub fn get_cluster_points(&self, node_id: usize) -> (points: Vec<usize>)
        requires
            tree_wf(self.nodes@),
        ensures
            points@ == subtree_points(self.nodes@, node_id as int),
    {
        let mut points: Vec<usize> = Vec::new();
        self.collect_points_recursive(node_id, &mut points);
        assert(Seq::<usize>::empty() + subtree_points(self.nodes@, node_id as int) =~= subtree_points(
            self.nodes@,
            node_id as int,
        ));
        points
    }
}

proof fn lemma_children_points_prefix(nodes: Seq<TreeNode>, id: int, k: int)
    requires
        tree_wf(nodes),
        0 <= id < nodes.len(),
        0 < k <= nodes[id].children.len(),
    ensures
        children_points(nodes, id, k).len() <= subtree_points(nodes, id).len(),
        children_points(nodes, id, k).len() == children_points(nodes, id, k - 1).len() + subtree_points(
            nodes,
            nodes[id].children@[k - 1] as int,
        ).len(),
    decreases nodes[id].children.len() - k,
{
    if nodes[id].children@[k - 1] < nodes.len() {
        lemma_child_lower(nodes, id, k - 1);
    }
    if k < nodes[id].children.len() {
        lemma_children_points_prefix(nodes, id, k + 1);
    }
}

/// In hierarchies built bottom-up, the points under node `id` depend only
/// on the nodes up to `id`.
pub proof fn lemma_subtree_frame(n1: Seq<TreeNode>, n2: Seq<TreeNode>, id: int)
    requires
        ordered(n1),
        ordered(n2),
        0 <= id < n1.len() <= n2.len(),
        forall|i: int|
            0 <= i <= id ==> (#[trigger] n2[i]).children@ == n1[i].children@ && n2[i].points@ == n1[i].points@,
    ensures
        subtree_points(n2, id) == subtree_points(n1, id),
    decreases id, subtree_measure(n1, id),
{
    assert(n2[id].children@ == n1[id].children@);
    if n1[id].children.len() != 0 {
        lemma_children_frame(n1, n2, id, n1[id].children.len() as int);
    }
}

proof fn lemma_children_frame(n1: Seq<TreeNode>, n2: Seq<TreeNode>, id: int, k: int)
    requires
        ordered(n1),
        ordered(n2),
        0 <= id < n1.len() <= n2.len(),
        0 <= k <= n1[id].children.len(),
        forall|i: int|
            0 <= i <= id ==> (#[trigger] n2[i]).children@ == n1[i].children@ && n2[i].points@ == n1[i].points@,
    ensures
        children_points(n2, id, k) == children_points(n1, id, k),
    decreases id, k,
{
    assert(n2[id].children@ == n1[id].children@);
    if k > 0 {
        lemma_children_frame(n1, n2, id, k - 1);
        let c = n1[id].children@[k - 1] as int;
        assert(c < id);
        lemma_ordered_is_wf(n1);
        lemma_ordered_is_wf(n2);
        lemma_child_lower(n1, id, k - 1);
        lemma_child_lower(n2, id, k - 1);
        lemma_subtree_frame(n1, n2, c);
    }
}

/// Adding a node with no child keeps a hierarchy well formed and built bottom-up.
proof fn lemma_push_childless(n0: Seq<TreeNode>, n1: Seq<TreeNode>)
    requires
        n1.len() == n0.len() + 1,
        n1.len() <= usize::MAX,
        forall|i: int| 0 <= i < n0.len() ==> #[trigger] n1[i] == n0[i],
        n1[n0.len() as int].id == n0.len(),
        n1[n0.len() as int].children@ == Seq::<usize>::empty(),
    ensures
        tree_wf(n0) ==> tree_wf(n1),
        ordered(n0) ==> ordered(n1),
{
    if tree_wf(n0) {
        let rank = choose|rank: Seq<nat>| ranked(n0, rank);
        let r1 = Seq::new(n1.len(), |i: int| if i < n0.len() { rank[i] + 1 } else { 0nat });
        assert forall|i: int, k: int|
            0 <= i < n1.len() && 0 <= k < n1[i].children.len() && #[trigger] n1[i].children@[k] < n1.len()
                implies r1[n1[i].children@[k] as int] < r1[i] by {
            assert(i < n0.len());
            assert(n1[i] == n0[i]);
            let c = n0[i].children@[k] as int;
            if c < n0.len() {
                assert(rank[c] < rank[i]);
            }
        }
        assert(ranked(n1, r1));
    }
    if ordered(n0) {
        assert forall|i: int, k: int|
            0 <= i < n1.len() && 0 <= k < n1[i].children.len() implies #[trigger] n1[i].children@[k] < i by {
            assert(i < n0.len());
            assert(n1[i] == n0[i]);
        }
    }
}

/// The points under a node with children `a` then `b` are those under `a`
/// followed by those under `b`.
pub proof fn lemma_two_children(nodes: Seq<TreeNode>, id: int)
    requires
        tree_wf(nodes),
        0 <= id < nodes.len(),
        nodes[id].children.len() == 2,
    ensures
        subtree_points(nodes, id) == subtree_points(nodes, nodes[id].children@[0] as int) + subtree_points(
            nodes,
            nodes[id].children@[1] as int,
        ),
{
    if nodes[id].children@[0] < nodes.len() {
        lemma_child_lower(nodes, id, 0);
    }
    if nodes[id].children@[1] < nodes.len() {
        lemma_child_lower(nodes, id, 1);
    }
    assert(children_points(nodes, id, 0) =~= seq![]);
    assert(children_points(nodes, id, 1) =~= subtree_points(nodes, nodes[id].children@[0] as int));
}

} // verus!
