//! Cluster formation of DBSCAN: given each point's neighbourhood (the points
//! within `eps`, the point itself included) and which points are core points,
//! grow clusters from core points and mark the rest as noise.

use vstd::prelude::*;
use crate::labels::{count_value, lemma_count_update, lemma_count_positive, max_label, lemma_max_label, ClusterResult};

verus! {

/// Every neighbour index names a point, and there is one core flag per point.
pub open spec fn well_formed_graph(nb: Seq<Vec<usize>>, core: Seq<bool>) -> bool {
    &&& core.len() == nb.len()
    &&& nb.len() <= usize::MAX
    &&& forall|j: int, k: int|
        0 <= j < nb.len() && 0 <= k < nb[j].len() ==> (#[trigger] nb[j]@[k]) < nb.len()
}

/// `p` is in the neighbourhood list of point `j`.
pub open spec fn is_neighbor(nb: Seq<Vec<usize>>, j: int, p: int) -> bool {
    0 <= j < nb.len() && nb[j]@.contains(p as usize)
}

/// Some core point has `p` in its neighbourhood.
pub open spec fn covered(nb: Seq<Vec<usize>>, core: Seq<bool>, p: int) -> bool {
    exists|j: int| 0 <= j < nb.len() && core[j] && #[trigger] is_neighbor(nb, j, p)
}

/// `path` is a chain in which each point but the last is a core point that
/// has the next point in its neighbourhood.
pub open spec fn is_chain(nb: Seq<Vec<usize>>, core: Seq<bool>, path: Seq<int>) -> bool {
    &&& path.len() > 0
    &&& forall|i: int|
        0 <= i < path.len() - 1 ==> 0 <= #[trigger] path[i] < nb.len() && core[path[i]]
            && is_neighbor(nb, path[i], path[i + 1])
}

/// `p` is density-reachable from `s`: some chain leads from `s` to `p`.
pub open spec fn density_reachable(nb: Seq<Vec<usize>>, core: Seq<bool>, s: int, p: int) -> bool {
    exists|path: Seq<int>| #[trigger] is_chain(nb, core, path) && path[0] == s && path.last() == p
}

/// Every neighbour of core point `j` is in a cluster: `j`'s cluster or an
/// earlier one.
pub open spec fn expanded(nb: Seq<Vec<usize>>, core: Seq<bool>, labels: Seq<i32>, j: int) -> bool {
    forall|k: int|
        0 <= k < nb[j].len() ==> 0 <= labels[#[trigger] nb[j]@[k] as int] <= labels[j]
}

/// The cluster of `p` holds a core point that is `p` or has `p` as a neighbour.
pub open spec fn attached(nb: Seq<Vec<usize>>, core: Seq<bool>, labels: Seq<i32>, p: int) -> bool {
    exists|j: int|
        0 <= j < nb.len() && core[j] && #[trigger] labels[j] == labels[p] && (j == p || is_neighbor(
            nb,
            j,
            p,
        ))
}

/// The state of the cluster loop once the points before `done` are processed
/// and clusters `0..cid` are complete, cluster `c` grown from `seeds[c]`.
#[verifier::opaque]
pub open spec fn clustering_state(
    nb: Seq<Vec<usize>>,
    core: Seq<bool>,
    labels: Seq<i32>,
    cid: int,
    seeds: Seq<int>,
    done: int,
) -> bool {
    &&& well_formed_graph(nb, core)
    &&& labels.len() == nb.len()
    &&& 0 <= done <= nb.len()
    &&& seeds.len() == cid
    &&& forall|p: int| 0 <= p < labels.len() ==> -2 <= #[trigger] labels[p] < cid
    &&& forall|p: int| 0 <= p < done ==> #[trigger] labels[p] != -2
    &&& forall|p: int| 0 <= p < labels.len() && #[trigger] labels[p] == -1 ==> !core[p]
    &&& forall|j: int|
        0 <= j < labels.len() && core[j] && labels[j] >= 0 ==> #[trigger] expanded(nb, core, labels, j)
    &&& forall|p: int| 0 <= p < labels.len() && labels[p] >= 0 ==> #[trigger] attached(nb, core, labels, p)
    &&& forall|c: int|
        0 <= c < cid ==> 0 <= #[trigger] seeds[c] < done && core[seeds[c]] && labels[seeds[c]] == c
    &&& forall|c: int, d: int| 0 <= c < d < cid ==> #[trigger] seeds[c] < #[trigger] seeds[d]
    &&& forall|p: int|
        0 <= p < labels.len() && #[trigger] labels[p] >= 0 ==> density_reachable(
            nb,
            core,
            seeds[labels[p] as int],
            p,
        )
    &&& forall|p: int|
        0 <= p < labels.len() && core[p] && #[trigger] labels[p] >= 0 ==> seeds[labels[p] as int] <= p
}

/// What the cluster assignment guarantees of its labels.
pub open spec fn valid_clustering(nb: Seq<Vec<usize>>, core: Seq<bool>, labels: Seq<i32>) -> bool {
    let k = max_label(labels) + 1;
    &&& labels.len() == nb.len()
    // noise is exactly the points that are neither core nor in a core point's neighbourhood
    &&& forall|p: int|
        0 <= p < labels.len() ==> (#[trigger] labels[p] == -1 <==> !core[p] && !covered(nb, core, p))
    &&& forall|p: int| 0 <= p < labels.len() ==> -1 <= #[trigger] labels[p] < k
    // a clustered point is a core point or a neighbour of a core point of its cluster
    &&& forall|p: int| 0 <= p < labels.len() && labels[p] >= 0 ==> #[trigger] attached(nb, core, labels, p)
    // a neighbour of a core point is clustered, never in a later cluster
    &&& forall|j: int| 0 <= j < labels.len() && core[j] ==> #[trigger] expanded(nb, core, labels, j)
    // cluster `c` is grown from its first core point: every member is density-reachable from it
    &&& forall|p: int| 0 <= p < labels.len() && labels[p] >= 0 ==> #[trigger] grown_from_first_core(nb, core, labels, p)
    // clusters are numbered in the order of their first core points
    &&& forall|c: int| 0 <= c < k ==> #[trigger] has_core_before(core, labels, c, labels.len() as int)
    &&& forall|q: int, c: int|
        0 <= q < labels.len() && core[q] && 0 <= c < labels[q] ==> #[trigger] has_core_before(
            core,
            labels,
            c,
            q,
        )
}

/// `p` is density-reachable from the first core point of its cluster.
pub open spec fn grown_from_first_core(nb: Seq<Vec<usize>>, core: Seq<bool>, labels: Seq<i32>, p: int) -> bool {
    exists|s: int|
        0 <= s < labels.len() && core[s] && labels[s] == labels[p] && density_reachable(nb, core, s, p) && (
        forall|q: int| 0 <= q < labels.len() && core[q] && #[trigger] labels[q] == labels[p] ==> s <= q)
}

/// Some core point before index `bound` lies in cluster `c`.
pub open spec fn has_core_before(core: Seq<bool>, labels: Seq<i32>, c: int, bound: int) -> bool {
    exists|s: int| 0 <= s < bound && s < labels.len() && core[s] && #[trigger] labels[s] == c
}

proof fn lemma_reaches_step(nb: Seq<Vec<usize>>, core: Seq<bool>, s: int, j: int, p: int)
    requires
        0 <= j < nb.len(),
        core[j],
        density_reachable(nb, core, s, j),
        is_neighbor(nb, j, p),
    ensures
        density_reachable(nb, core, s, p),
{
    let path = choose|path: Seq<int>| #[trigger] is_chain(nb, core, path) && path[0] == s && path.last() == j;
    let path2 = path.push(p);
    assert forall|i: int| 0 <= i < path2.len() - 1 implies 0 <= #[trigger] path2[i] < nb.len() && core[path2[i]]
        && is_neighbor(nb, path2[i], path2[i + 1]) by {
        if i < path.len() - 1 {
            assert(path2[i] == path[i] && path2[i + 1] == path[i + 1]);
        } else {
            assert(path2[i] == j && path2[i + 1] == p);
        }
    }
    assert(is_chain(nb, core, path2));
    assert(path2[0] == s && path2.last() == p);
}

proof fn lemma_reaches_self(nb: Seq<Vec<usize>>, core: Seq<bool>, s: int)
    ensures
        density_reachable(nb, core, s, s),
{
    let path = seq![s];
    assert(is_chain(nb, core, path));
    assert(path[0] == s && path.last() == s);
}

proof fn lemma_push_contains(st: Seq<usize>, x: usize, y: usize)
    ensures
        st.push(x).contains(y) <==> st.contains(y) || y == x,
{
    let s2 = st.push(x);
    if st.contains(y) {
        let i = choose|i: int| 0 <= i < st.len() && st[i] == y;
        assert(s2[i] == y);
    }
    if y == x {
        assert(s2[st.len() as int] == y);
    }
    if s2.contains(y) {
        let i = choose|i: int| 0 <= i < s2.len() && s2[i] == y;
        if i < st.len() {
            assert(st[i] == y);
        }
    }
}

/// Every clustered point is attached to a core point of its cluster.
pub open spec fn all_attached(nb: Seq<Vec<usize>>, core: Seq<bool>, labels: Seq<i32>) -> bool {
    forall|p: int| 0 <= p < labels.len() && labels[p] >= 0 ==> #[trigger] attached(nb, core, labels, p)
}

/// The state while cluster `cid` grows from `start`: the points on `stack`
/// (and `skip`) still wait for their neighbourhoods to be swept.
#[verifier::opaque]
spec fn growing_state(
    nb: Seq<Vec<usize>>,
    core: Seq<bool>,
    labels: Seq<i32>,
    stack: Seq<usize>,
    cid: int,
    seeds: Seq<int>,
    start: int,
    skip: int,
) -> bool {
    let seeds2 = seeds.push(start);
    &&& well_formed_graph(nb, core)
    &&& labels.len() == nb.len()
    &&& seeds.len() == cid
    &&& 0 <= start < nb.len()
    &&& 0 <= cid < i32::MAX
    &&& forall|p: int| 0 <= p < labels.len() ==> -2 <= #[trigger] labels[p] <= cid
    &&& forall|p: int| 0 <= p <= start ==> #[trigger] labels[p] != -2
    &&& labels[start] == cid
    &&& core[start]
    &&& forall|p: int| 0 <= p < labels.len() && #[trigger] labels[p] == -1 ==> !core[p]
    &&& forall|i: int|
        0 <= i < stack.len() ==> #[trigger] stack[i] < nb.len() && labels[stack[i] as int] == cid
    &&& forall|j: int|
        0 <= j < labels.len() && core[j] && labels[j] >= 0 && !stack.contains(j as usize)
            && j != skip ==> #[trigger] expanded(nb, core, labels, j)
    &&& all_attached(nb, core, labels)
    &&& forall|c: int|
        0 <= c < cid ==> 0 <= #[trigger] seeds[c] < start && core[seeds[c]] && labels[seeds[c]] == c
    &&& forall|c: int, d: int| 0 <= c < d < cid ==> #[trigger] seeds[c] < #[trigger] seeds[d]
    &&& forall|p: int|
        0 <= p < labels.len() && #[trigger] labels[p] >= 0 ==> density_reachable(
            nb,
            core,
            seeds2[labels[p] as int],
            p,
        )
    &&& forall|p: int|
        0 <= p < labels.len() && core[p] && #[trigger] labels[p] >= 0 ==> seeds2[labels[p] as int] <= p
}

#[verifier::rlimit(40)]
proof fn lemma_begin_cluster(
    nb: Seq<Vec<usize>>,
    core: Seq<bool>,
    l0: Seq<i32>,
    cid: int,
    seeds: Seq<int>,
    start: int,
)
    requires
        clustering_state(nb, core, l0, cid, seeds, start),
        0 <= start < nb.len(),
        l0[start] == -2,
        core[start],
        cid < i32::MAX,
    ensures
        growing_state(nb, core, l0.update(start, cid as i32), seq![start as usize], cid, seeds, start, -1),
        well_formed_graph(nb, core),
        l0.len() == nb.len(),
{
    reveal(growing_state);
    reveal(clustering_state);
    let l = l0.update(start, cid as i32);
    let seeds2 = seeds.push(start);
    let st = seq![start as usize];
    assert(st.len() == 1 && st[0] == start as usize);
    assert(l[start] == cid);
    assert forall|i: int| 0 <= i < st.len() implies #[trigger] st[i] < nb.len() && l[st[i] as int] == cid by {
        assert(st[i] == start as usize);
        assert((start as usize) as int == start);
    }
    assert(seeds2[cid] == start);
    assert forall|c: int| 0 <= c < cid implies #[trigger] seeds2[c] == seeds[c] by {}
    assert forall|p: int| 0 <= p <= start implies #[trigger] l[p] != -2 by {
        if p < start {
            assert(l0[p] != -2);
        }
    }
    assert forall|j: int|
        0 <= j < l.len() && core[j] && l[j] >= 0 && !st.contains(j as usize) && j != -1
            implies #[trigger] expanded(nb, core, l, j) by {
        assert(j != start) by {
            if j == start {
                assert(st[0] == start as usize);
            }
        }
        assert(l0[j] == l[j]);
        assert(expanded(nb, core, l0, j));
        assert forall|k: int| 0 <= k < nb[j].len() implies 0 <= l[#[trigger] nb[j]@[k] as int] <= l[j] by {
            assert(l0[nb[j]@[k] as int] >= 0);
        }
    }
    assert forall|p: int| 0 <= p < l.len() && l[p] >= 0 implies #[trigger] attached(nb, core, l, p) by {
        if p == start {
            assert(l[start] == l[p]);
        } else {
            assert(l0[p] == l[p]);
            assert(attached(nb, core, l0, p));
            let j = choose|j: int|
                0 <= j < nb.len() && core[j] && #[trigger] l0[j] == l0[p] && (j == p || is_neighbor(
                    nb,
                    j,
                    p,
                ));
            assert(l[j] == l[p]);
        }
    }
    assert forall|p: int| 0 <= p < l.len() && #[trigger] l[p] >= 0 implies density_reachable(
        nb,
        core,
        seeds2[l[p] as int],
        p,
    ) by {
        if p == start {
            lemma_reaches_self(nb, core, start);
        } else {
            assert(l0[p] == l[p]);
        }
    }
    assert forall|p: int| 0 <= p < l.len() && core[p] && #[trigger] l[p] >= 0 implies seeds2[l[p] as int]
        <= p by {
        if p != start {
            assert(l0[p] == l[p]);
            assert(seeds2[l0[p] as int] == seeds[l0[p] as int]);
        }
    }
}

#[verifier::rlimit(40)]
proof fn lemma_pop(
    nb: Seq<Vec<usize>>,
    core: Seq<bool>,
    l: Seq<i32>,
    stack: Seq<usize>,
    cid: int,
    seeds: Seq<int>,
    start: int,
)
    requires
        growing_state(nb, core, l, stack, cid, seeds, start, -1),
        stack.len() > 0,
    ensures
        stack.last() < nb.len(),
        l[stack.last() as int] == cid,
        growing_state(nb, core, l, stack.drop_last(), cid, seeds, start, stack.last() as int),
        !core[stack.last() as int] ==> growing_state(
            nb,
            core,
            l,
            stack.drop_last(),
            cid,
            seeds,
            start,
            -1,
        ),
{
    reveal(growing_state);
    let s2 = stack.drop_last();
    let x = stack.last();
    assert(stack =~= s2.push(x));
    assert(stack[stack.len() - 1] == x);
    assert forall|i: int| 0 <= i < s2.len() implies #[trigger] s2[i] < nb.len() && l[s2[i] as int] == cid by {
        assert(s2[i] == stack[i]);
    }
    assert forall|j: int|
        0 <= j < l.len() && core[j] && l[j] >= 0 && !s2.contains(j as usize) && j != x
            implies #[trigger] expanded(nb, core, l, j) by {
        lemma_push_contains(s2, x, j as usize);
        assert(!stack.contains(j as usize));
    }
    if !core[x as int] {
        assert forall|j: int|
            0 <= j < l.len() && core[j] && l[j] >= 0 && !s2.contains(j as usize) && j != -1
                implies #[trigger] expanded(nb, core, l, j) by {
            lemma_push_contains(s2, x, j as usize);
            assert(!stack.contains(j as usize));
        }
    }
}

/// The prefix `0..k` of `point`'s neighbourhood is swept.
pub open spec fn swept(nb: Seq<Vec<usize>>, core: Seq<bool>, labels: Seq<i32>, point: int, cid: int, k: int) -> bool {
    forall|i: int| 0 <= i < k ==> 0 <= labels[#[trigger] nb[point]@[i] as int] <= cid
}

#[verifier::rlimit(40)]
proof fn lemma_relabel(
    nb: Seq<Vec<usize>>,
    core: Seq<bool>,
    l: Seq<i32>,
    stack: Seq<usize>,
    cid: int,
    seeds: Seq<int>,
    start: int,
    point: int,
    k: int,
)
    requires
        growing_state(nb, core, l, stack, cid, seeds, start, point),
        0 <= point < nb.len(),
        core[point],
        l[point] == cid,
        0 <= k < nb[point].len(),
        swept(nb, core, l, point, cid, k),
        l[nb[point]@[k] as int] < 0,
    ensures
        ({
            let q = nb[point]@[k];
            let l2 = l.update(q as int, cid as i32);
            let s2 = if l[q as int] == -2 {
                stack.push(q)
            } else {
                stack
            };
            &&& growing_state(nb, core, l2, s2, cid, seeds, start, point)
            &&& swept(nb, core, l2, point, cid, k + 1)
            &&& 2 * count_value(l2, -2i32) + s2.len() <= 2 * count_value(l, -2i32) + stack.len()
        }),
{
    reveal(growing_state);
    let q = nb[point]@[k];
    let qi = q as int;
    let l2 = l.update(qi, cid as i32);
    let s2 = if l[qi] == -2 {
        stack.push(q)
    } else {
        stack
    };
    let seeds2 = seeds.push(start);
    assert(is_neighbor(nb, point, qi)) by {
        assert(nb[point]@[k] == q);
    }
    assert(qi < nb.len());
    lemma_count_update(l, qi, cid as i32, -2i32);
    assert forall|p: int| 0 <= p <= start implies #[trigger] l2[p] != -2 by {
        assert(l[p] != -2);
    }
    assert forall|i: int| 0 <= i < s2.len() implies #[trigger] s2[i] < nb.len() && l2[s2[i] as int] == cid by {
        if i < stack.len() {
            assert(s2[i] == stack[i]);
        }
    }
    assert forall|j: int|
        0 <= j < l2.len() && core[j] && l2[j] >= 0 && !s2.contains(j as usize) && j != point
            implies #[trigger] expanded(nb, core, l2, j) by {
        if j == qi {
            // only a -2 point can be core, and it was pushed
            assert(l[qi] == -2);
            assert(s2[s2.len() - 1] == q);
        } else {
            assert(l[j] == l2[j]);
            assert(!stack.contains(j as usize)) by {
                if stack.contains(j as usize) {
                    let i = choose|i: int| 0 <= i < stack.len() && stack[i] == j as usize;
                    if l[qi] == -2 {
                        assert(s2[i] == j as usize);
                    }
                }
            }
            assert(expanded(nb, core, l, j));
            assert forall|kk: int| 0 <= kk < nb[j].len() implies 0 <= l2[#[trigger] nb[j]@[kk] as int] <= l2[j] by {
                assert(l[nb[j]@[kk] as int] >= 0);
            }
        }
    }
    assert forall|p: int| 0 <= p < l2.len() && l2[p] >= 0 implies #[trigger] attached(nb, core, l2, p) by {
        if p == qi {
            assert(l2[point] == l2[p]);
        } else {
            assert(l[p] == l2[p]);
            assert(attached(nb, core, l, p));
            let j = choose|j: int|
                0 <= j < nb.len() && core[j] && #[trigger] l[j] == l[p] && (j == p || is_neighbor(nb, j, p));
            assert(l2[j] == l2[p]);
        }
    }
    assert forall|p: int| 0 <= p < l2.len() && #[trigger] l2[p] >= 0 implies density_reachable(
        nb,
        core,
        seeds2[l2[p] as int],
        p,
    ) by {
        if p == qi {
            assert(l[point] >= 0);
            assert(density_reachable(nb, core, seeds2[l[point] as int], point));
            assert(seeds2[cid] == start);
            lemma_reaches_step(nb, core, start, point, qi);
        } else {
            assert(l[p] == l2[p]);
        }
    }
    assert forall|p: int| 0 <= p < l2.len() && core[p] && #[trigger] l2[p] >= 0 implies seeds2[l2[p] as int]
        <= p by {
        if p == qi {
            assert(l[qi] == -2);
            assert(seeds2[cid] == start);
        } else {
            assert(l[p] == l2[p]);
        }
    }
    assert forall|i: int| 0 <= i < k + 1 implies 0 <= l2[#[trigger] nb[point]@[i] as int] <= cid by {
        if i < k {
            assert(l[nb[point]@[i] as int] >= 0);
        }
    }
    assert forall|c: int| 0 <= c < cid implies 0 <= #[trigger] seeds[c] < start && core[seeds[c]] && l2[seeds[c]] == c by {
        assert(l[seeds[c]] == c);
    }
}

proof fn lemma_skip_labelled(
    nb: Seq<Vec<usize>>,
    core: Seq<bool>,
    l: Seq<i32>,
    stack: Seq<usize>,
    cid: int,
    seeds: Seq<int>,
    start: int,
    point: int,
    k: int,
)
    requires
        growing_state(nb, core, l, stack, cid, seeds, start, point),
        0 <= point < nb.len(),
        0 <= k < nb[point].len(),
        swept(nb, core, l, point, cid, k),
        l[nb[point]@[k] as int] >= 0,
    ensures
        swept(nb, core, l, point, cid, k + 1),
{
    reveal(growing_state);
    assert(nb[point]@[k] < nb.len());
}

proof fn lemma_point_done(
    nb: Seq<Vec<usize>>,
    core: Seq<bool>,
    l: Seq<i32>,
    stack: Seq<usize>,
    cid: int,
    seeds: Seq<int>,
    start: int,
    point: int,
)
    requires
        growing_state(nb, core, l, stack, cid, seeds, start, point),
        0 <= point < nb.len(),
        l[point] == cid,
        swept(nb, core, l, point, cid, nb[point].len() as int),
    ensures
        growing_state(nb, core, l, stack, cid, seeds, start, -1),
{
    reveal(growing_state);
    assert(expanded(nb, core, l, point));
}

#[verifier::rlimit(40)]
proof fn lemma_finish_cluster(
    nb: Seq<Vec<usize>>,
    core: Seq<bool>,
    l: Seq<i32>,
    stack: Seq<usize>,
    cid: int,
    seeds: Seq<int>,
    start: int,
)
    requires
        growing_state(nb, core, l, stack, cid, seeds, start, -1),
        stack.len() == 0,
    ensures
        clustering_state(nb, core, l, cid + 1, seeds.push(start), start + 1),
{
    reveal(growing_state);
    reveal(clustering_state);
    let seeds2 = seeds.push(start);
    assert forall|j: int| 0 <= j < l.len() && core[j] && l[j] >= 0 implies #[trigger] expanded(nb, core, l, j) by {
        assert(!stack.contains(j as usize));
    }
    assert forall|c: int| 0 <= c < cid + 1 implies 0 <= #[trigger] seeds2[c] < start + 1 && core[seeds2[c]]
        && l[seeds2[c]] == c by {
        if c < cid {
            assert(seeds2[c] == seeds[c]);
            assert(core[seeds[c]]);
        } else {
            assert(seeds2[c] == start);
            assert(core[start]);
        }
    }
    assert forall|c: int, d: int| 0 <= c < d < cid + 1 implies #[trigger] seeds2[c] < #[trigger] seeds2[d] by {
        assert(seeds2[c] == seeds[c]);
        if d < cid {
            assert(seeds2[d] == seeds[d]);
        }
    }
}

/// Grow cluster `cid` from core point `start` by a depth-first sweep over
/// neighbourhoods; noise points reached on the way join the cluster.
fn expand_cluster(
    start: usize,
    cid: i32,
    neighbors: &Vec<Vec<usize>>,
    labels: &mut Vec<i32>,
    core_points: &Vec<bool>,
    Ghost(seeds): Ghost<Seq<int>>,
)
    requires
        clustering_state(neighbors@, core_points@, old(labels)@, cid as int, seeds, start as int),
        start < neighbors.len(),
        old(labels)[start as int] == -2,
        core_points[start as int],
        cid < i32::MAX,
    ensures
        clustering_state(
            neighbors@,
            core_points@,
            final(labels)@,
            cid + 1,
            seeds.push(start as int),
            start + 1,
        ),
{
    let ghost nb = neighbors@;
    let ghost core = core_points@;
    let mut stack: Vec<usize> = Vec::new();
    proof {
        lemma_begin_cluster(nb, core, labels@, cid as int, seeds, start as int);
    }
    labels.set(start, cid);
    stack.push(start);
    assert(stack@ =~= seq![start]);
    while stack.len() > 0
        invariant
            nb == neighbors@,
            core == core_points@,
            growing_state(nb, core, labels@, stack@, cid as int, seeds, start as int, -1),
            well_formed_graph(nb, core),
            labels.len() == nb.len(),
        decreases 2 * count_value(labels@, -2i32) + stack.len(),
    {
        proof {
            lemma_pop(nb, core, labels@, stack@, cid as int, seeds, start as int);
        }
        let ghost before_pop = stack@;
        let point = stack.pop().unwrap();
        assert(stack@ =~= before_pop.drop_last());
        let ghost measure = 2 * count_value(labels@, -2i32) + stack.len();
        if core_points[point] {
            let nbrs = &neighbors[point];
            let mut k: usize = 0;
            while k < nbrs.len()
                invariant
                    nb == neighbors@,
                    core == core_points@,
                    nbrs == nb[point as int],
                    0 <= point < nb.len(),
                    core[point as int],
                    labels@[point as int] == cid,
                    k <= nbrs.len(),
                    growing_state(nb, core, labels@, stack@, cid as int, seeds, start as int, point as int),
                    swept(nb, core, labels@, point as int, cid as int, k as int),
                    2 * count_value(labels@, -2i32) + stack.len() <= measure,
                    well_formed_graph(nb, core),
                    labels.len() == nb.len(),
                decreases nbrs.len() - k,
            {
                let q = nbrs[k];
                assert(q < nb.len()) by {
                    assert(nb[point as int]@[k as int] == q);
                }
                let lq = labels[q];
                if lq < 0 {
                    proof {
                        lemma_relabel(nb, core, labels@, stack@, cid as int, seeds, start as int, point as int, k as int);
                    }
                    labels.set(q, cid);
                    if lq == -2 {
                        stack.push(q);
                    }
                } else {
                    proof {
                        lemma_skip_labelled(nb, core, labels@, stack@, cid as int, seeds, start as int, point as int, k as int);
                    }
                }
                k = k + 1;
            }
            proof {
                lemma_point_done(nb, core, labels@, stack@, cid as int, seeds, start as int, point as int);
            }
        }
    }
    proof {
        lemma_finish_cluster(nb, core, labels@, stack@, cid as int, seeds, start as int);
    }
}

proof fn lemma_initial_state(nb: Seq<Vec<usize>>, core: Seq<bool>, l: Seq<i32>)
    requires
        well_formed_graph(nb, core),
        l.len() == nb.len(),
        forall|p: int| 0 <= p < l.len() ==> #[trigger] l[p] == -2,
    ensures
        clustering_state(nb, core, l, 0, Seq::empty(), 0),
{
    reveal(clustering_state);
}

proof fn lemma_mark_noise(nb: Seq<Vec<usize>>, core: Seq<bool>, l: Seq<i32>, cid: int, seeds: Seq<int>, i: int)
    requires
        clustering_state(nb, core, l, cid, seeds, i),
        0 <= i < l.len(),
        l[i] == -2,
        !core[i],
    ensures
        clustering_state(nb, core, l.update(i, -1i32), cid, seeds, i + 1),
{
    reveal(clustering_state);
    let l2 = l.update(i, -1i32);
    assert forall|p: int| 0 <= p < i + 1 implies #[trigger] l2[p] != -2 by {
        if p < i {
            assert(l[p] != -2);
        }
    }
    assert forall|j: int| 0 <= j < l2.len() && core[j] && l2[j] >= 0 implies #[trigger] expanded(nb, core, l2, j) by {
        assert(l[j] == l2[j]);
        assert(expanded(nb, core, l, j));
        assert forall|k: int| 0 <= k < nb[j].len() implies 0 <= l2[#[trigger] nb[j]@[k] as int] <= l2[j] by {
            assert(l[nb[j]@[k] as int] >= 0);
        }
    }
    assert forall|p: int| 0 <= p < l2.len() && l2[p] >= 0 implies #[trigger] attached(nb, core, l2, p) by {
        assert(l[p] == l2[p]);
        assert(attached(nb, core, l, p));
        let j = choose|j: int|
            0 <= j < nb.len() && core[j] && #[trigger] l[j] == l[p] && (j == p || is_neighbor(nb, j, p));
        assert(l2[j] == l2[p]);
    }
    assert forall|c: int| 0 <= c < cid implies 0 <= #[trigger] seeds[c] < i + 1 && core[seeds[c]] && l2[seeds[c]] == c by {
        assert(l[seeds[c]] == c);
    }
    assert forall|p: int| 0 <= p < l2.len() && #[trigger] l2[p] >= 0 implies density_reachable(
        nb,
        core,
        seeds[l2[p] as int],
        p,
    ) by {
        assert(l[p] == l2[p]);
    }
    assert forall|p: int| 0 <= p < l2.len() && core[p] && #[trigger] l2[p] >= 0 implies seeds[l2[p] as int] <= p by {
        assert(l[p] == l2[p]);
    }
}

proof fn lemma_skip_processed(nb: Seq<Vec<usize>>, core: Seq<bool>, l: Seq<i32>, cid: int, seeds: Seq<int>, i: int)
    requires
        clustering_state(nb, core, l, cid, seeds, i),
        0 <= i < l.len(),
        l[i] != -2,
    ensures
        clustering_state(nb, core, l, cid, seeds, i + 1),
{
    reveal(clustering_state);
}

proof fn lemma_state_facts(nb: Seq<Vec<usize>>, core: Seq<bool>, l: Seq<i32>, cid: int, seeds: Seq<int>, i: int)
    requires
        clustering_state(nb, core, l, cid, seeds, i),
    ensures
        well_formed_graph(nb, core),
        l.len() == nb.len(),
        0 <= cid <= i <= nb.len(),
{
    reveal(clustering_state);
    if cid > 0 {
        assert forall|c: int| 0 <= c < cid implies #[trigger] seeds[c] >= c by {
            lemma_seeds_grow(seeds, cid, c);
        }
        assert(seeds[cid - 1] >= cid - 1);
    }
}

/// Number of core points among the first `k` points.
pub open spec fn count_core(core: Seq<bool>, k: int) -> nat
    decreases k,
{
    if k <= 0 {
        0
    } else {
        count_core(core, k - 1) + (if core[k - 1] { 1nat } else { 0nat })
    }
}

proof fn lemma_count_core_monotone(core: Seq<bool>, k1: int, k2: int)
    requires
        0 <= k1 <= k2,
    ensures
        count_core(core, k1) <= count_core(core, k2),
    decreases k2,
{
    if k2 > k1 {
        lemma_count_core_monotone(core, k1, k2 - 1);
    }
}

/// Distinct core points below `bound`, in increasing order, are at most as
/// many as the core points below `bound`.
proof fn lemma_seeds_count(core: Seq<bool>, seeds: Seq<int>, bound: int)
    requires
        0 <= bound,
        forall|c: int| 0 <= c < seeds.len() ==> 0 <= #[trigger] seeds[c] < bound && core[seeds[c]],
        forall|a: int, b: int| 0 <= a < b < seeds.len() ==> #[trigger] seeds[a] < #[trigger] seeds[b],
    ensures
        seeds.len() <= count_core(core, bound),
    decreases bound,
{
    if bound == 0 && seeds.len() > 0 {
        assert(seeds[0] < bound);
    }
    if bound > 0 && seeds.len() > 0 {
        let last = seeds[seeds.len() - 1];
        assert(core[last]);
        let rest = seeds.drop_last();
        assert forall|c: int| 0 <= c < rest.len() implies 0 <= #[trigger] rest[c] < bound - 1 && core[rest[c]] by {
            assert(seeds[c] < last);
        }
        if last == bound - 1 {
            lemma_seeds_count(core, rest, bound - 1);
            assert(count_core(core, bound) == count_core(core, bound - 1) + 1);
        } else {
            assert forall|c: int| 0 <= c < seeds.len() implies 0 <= #[trigger] seeds[c] < bound - 1 && core[seeds[c]] by {
                if c < seeds.len() - 1 {
                    assert(seeds[c] < last);
                }
            }
            lemma_seeds_count(core, seeds, bound - 1);
        }
    }
}

/// A new cluster starting at core point `i` still has an `i32` label.
proof fn lemma_cid_bound(nb: Seq<Vec<usize>>, core: Seq<bool>, l: Seq<i32>, cid: int, seeds: Seq<int>, i: int)
    requires
        clustering_state(nb, core, l, cid, seeds, i),
        0 <= i < nb.len(),
        core[i],
        count_core(core, nb.len() as int) <= i32::MAX,
    ensures
        cid < i32::MAX,
{
    reveal(clustering_state);
    lemma_seeds_count(core, seeds, i);
    lemma_count_core_monotone(core, i + 1, nb.len() as int);
}

proof fn lemma_seeds_grow(seeds: Seq<int>, cid: int, c: int)
    requires
        seeds.len() == cid,
        0 <= c < cid,
        forall|a: int| 0 <= a < cid ==> #[trigger] seeds[a] >= 0,
        forall|a: int, b: int| 0 <= a < b < cid ==> #[trigger] seeds[a] < #[trigger] seeds[b],
    ensures
        seeds[c] >= c,
    decreases c,
{
    if c > 0 {
        lemma_seeds_grow(seeds, cid, c - 1);
        assert(seeds[c - 1] < seeds[c]);
    }
}

proof fn lemma_final_count(nb: Seq<Vec<usize>>, core: Seq<bool>, l: Seq<i32>, cid: int, seeds: Seq<int>)
    requires
        clustering_state(nb, core, l, cid, seeds, nb.len() as int),
    ensures
        max_label(l) + 1 == cid,
{
    reveal(clustering_state);
    lemma_max_label(l);
    let m = max_label(l);
    if cid > 0 {
        assert(l[seeds[cid - 1]] == cid - 1);
    }
    if m >= 0 {
        let j = choose|j: int| 0 <= j < l.len() && l[j] == m;
        assert(l[j] < cid);
    }
}

proof fn lemma_final_noise(nb: Seq<Vec<usize>>, core: Seq<bool>, l: Seq<i32>, cid: int, seeds: Seq<int>)
    requires
        clustering_state(nb, core, l, cid, seeds, nb.len() as int),
    ensures
        forall|p: int|
            0 <= p < l.len() ==> (#[trigger] l[p] == -1 <==> !core[p] && !covered(nb, core, p)),
        forall|j: int| 0 <= j < l.len() && #[trigger] core[j] ==> expanded(nb, core, l, j),
{
    reveal(clustering_state);
    assert forall|p: int| 0 <= p < l.len() implies (#[trigger] l[p] == -1 <==> !core[p] && !covered(nb, core, p)) by {
        assert(l[p] != -2);
        if l[p] == -1 {
            if covered(nb, core, p) {
                let j = choose|j: int| 0 <= j < nb.len() && core[j] && #[trigger] is_neighbor(nb, j, p);
                assert(l[j] != -2);
                assert(l[j] >= 0);
                assert(expanded(nb, core, l, j));
                let k = choose|k: int| 0 <= k < nb[j]@.len() && nb[j]@[k] == p as usize;
                assert(l[nb[j]@[k] as int] >= 0);
            }
        } else {
            assert(attached(nb, core, l, p));
            let j = choose|j: int|
                0 <= j < nb.len() && core[j] && #[trigger] l[j] == l[p] && (j == p || is_neighbor(nb, j, p));
            if j != p {
                assert(covered(nb, core, p));
            }
        }
    }
    assert forall|j: int| 0 <= j < l.len() && #[trigger] core[j] implies expanded(nb, core, l, j) by {
        assert(l[j] != -2);
        assert(expanded(nb, core, l, j));
    }
}

proof fn lemma_final_seeds(nb: Seq<Vec<usize>>, core: Seq<bool>, l: Seq<i32>, cid: int, seeds: Seq<int>)
    requires
        clustering_state(nb, core, l, cid, seeds, nb.len() as int),
    ensures
        forall|p: int| 0 <= p < l.len() && l[p] >= 0 ==> #[trigger] grown_from_first_core(nb, core, l, p),
{
    assert forall|p: int| 0 <= p < l.len() && l[p] >= 0 implies #[trigger] grown_from_first_core(nb, core, l, p) by {
        lemma_seed_of(nb, core, l, cid, seeds, p);
    }
}

proof fn lemma_seed_of(nb: Seq<Vec<usize>>, core: Seq<bool>, l: Seq<i32>, cid: int, seeds: Seq<int>, p: int)
    requires
        clustering_state(nb, core, l, cid, seeds, nb.len() as int),
        0 <= p < l.len(),
        l[p] >= 0,
    ensures
        grown_from_first_core(nb, core, l, p),
{
    reveal(clustering_state);
    let s = seeds[l[p] as int];
    assert(core[s] && l[s] == l[p]);
    assert(density_reachable(nb, core, s, p));
    assert forall|q: int| 0 <= q < l.len() && core[q] && #[trigger] l[q] == l[p] implies s <= q by {
        assert(seeds[l[q] as int] <= q);
    }
}

proof fn lemma_final_order(nb: Seq<Vec<usize>>, core: Seq<bool>, l: Seq<i32>, cid: int, seeds: Seq<int>)
    requires
        clustering_state(nb, core, l, cid, seeds, nb.len() as int),
    ensures
        forall|c: int| 0 <= c < cid ==> #[trigger] has_core_before(core, l, c, l.len() as int),
        forall|q: int, c: int|
            0 <= q < l.len() && core[q] && 0 <= c < l[q] ==> #[trigger] has_core_before(core, l, c, q),
{
    reveal(clustering_state);
    assert forall|c: int| 0 <= c < cid implies #[trigger] has_core_before(core, l, c, l.len() as int) by {
        let s = seeds[c];
        assert(core[s] && l[s] == c);
    }
    assert forall|q: int, c: int|
        0 <= q < l.len() && core[q] && 0 <= c < l[q] implies #[trigger] has_core_before(core, l, c, q) by {
        let s = seeds[c];
        assert(seeds[c] < seeds[l[q] as int]);
        assert(seeds[l[q] as int] <= q);
        assert(core[s] && l[s] == c);
    }
}

proof fn lemma_final_state(nb: Seq<Vec<usize>>, core: Seq<bool>, l: Seq<i32>, cid: int, seeds: Seq<int>)
    requires
        clustering_state(nb, core, l, cid, seeds, nb.len() as int),
    ensures
        valid_clustering(nb, core, l),
{
    lemma_final_count(nb, core, l, cid, seeds);
    lemma_final_noise(nb, core, l, cid, seeds);
    lemma_final_seeds(nb, core, l, cid, seeds);
    lemma_final_order(nb, core, l, cid, seeds);
    lemma_final_range(nb, core, l, cid, seeds);
}

proof fn lemma_final_range(nb: Seq<Vec<usize>>, core: Seq<bool>, l: Seq<i32>, cid: int, seeds: Seq<int>)
    requires
        clustering_state(nb, core, l, cid, seeds, nb.len() as int),
    ensures
        l.len() == nb.len(),
        forall|p: int| 0 <= p < l.len() ==> -1 <= #[trigger] l[p] < cid,
        forall|p: int| 0 <= p < l.len() && l[p] >= 0 ==> #[trigger] attached(nb, core, l, p),
{
    reveal(clustering_state);
    assert forall|p: int| 0 <= p < l.len() implies -1 <= #[trigger] l[p] < cid by {
        assert(l[p] != -2);
    }
}

/// Assign cluster labels, visiting points in index order: an unvisited core
/// point starts a new cluster, an unvisited non-core point is noise until a
/// later cluster reaches it.
pub fn assign_clusters(neighbors: &Vec<Vec<usize>>, core_points: &Vec<bool>) -> (labels: Vec<i32>)
    requires
        well_formed_graph(neighbors@, core_points@),
        count_core(core_points@, core_points.len() as int) <= i32::MAX,
    ensures
        valid_clustering(neighbors@, core_points@, labels@),
{
    let n = neighbors.len();
    let mut labels: Vec<i32> = Vec::new();
    while labels.len() < n
        invariant
            labels.len() <= n,
            forall|p: int| 0 <= p < labels.len() ==> #[trigger] labels@[p] == -2,
        decreases n - labels.len(),
    {
        labels.push(-2);
    }
    proof {
        lemma_initial_state(neighbors@, core_points@, labels@);
    }
    let mut cid: i32 = 0;
    let ghost mut seeds: Seq<int> = Seq::empty();
    let mut i: usize = 0;
    while i < n
        invariant
            n == neighbors.len(),
            n == core_points.len(),
            count_core(core_points@, n as int) <= i32::MAX,
            i <= n,
            clustering_state(neighbors@, core_points@, labels@, cid as int, seeds, i as int),
        decreases n - i,
    {
        proof {
            lemma_state_facts(neighbors@, core_points@, labels@, cid as int, seeds, i as int);
        }
        if labels[i] == -2 {
            if !core_points[i] {
                proof {
                    lemma_mark_noise(neighbors@, core_points@, labels@, cid as int, seeds, i as int);
                }
                labels.set(i, -1);
            } else {
                proof {
                    lemma_cid_bound(neighbors@, core_points@, labels@, cid as int, seeds, i as int);
                }
                expand_cluster(i, cid, neighbors, &mut labels, core_points, Ghost(seeds));
                proof {
                    seeds = seeds.push(i as int);
                }
                cid = cid + 1;
            }
        } else {
            proof {
                lemma_skip_processed(neighbors@, core_points@, labels@, cid as int, seeds, i as int);
            }
        }
        i = i + 1;
    }
    proof {
        lemma_final_state(neighbors@, core_points@, labels@, cid as int, seeds);
    }
    labels
}

/// A point is a core point when its neighbourhood (itself included) holds at
/// least `min_samples` points.
pub fn core_points_from_neighbors(neighbors: &Vec<Vec<usize>>, min_samples: usize) -> (core: Vec<bool>)
    ensures
        core.len() == neighbors.len(),
        forall|i: int| 0 <= i < neighbors.len() ==> #[trigger] core[i] == (neighbors[i].len() >= min_samples),
{
    let mut core: Vec<bool> = Vec::new();
    let mut i: usize = 0;
    while i < neighbors.len()
        invariant
            i <= neighbors.len(),
            core.len() == i,
            forall|j: int| 0 <= j < i ==> #[trigger] core[j] == (neighbors[j].len() >= min_samples),
        decreases neighbors.len() - i,
    {
        core.push(neighbors[i].len() >= min_samples);
        i = i + 1;
    }
    core
}

/// Which points have at least `min_samples` points in their neighbourhood.
pub open spec fn dense_points(nb: Seq<Vec<usize>>, min_samples: usize) -> Seq<bool> {
    Seq::new(nb.len(), |i: int| nb[i].len() >= min_samples)
}

/// DBSCAN on precomputed neighbourhoods: `neighbors[i]` lists the points
/// within `eps` of point `i` (itself included).
pub fn cluster_neighborhoods(neighbors: &Vec<Vec<usize>>, min_samples: usize) -> (result: ClusterResult)
    requires
        forall|j: int, k: int|
            0 <= j < neighbors.len() && 0 <= k < neighbors[j].len() ==> (#[trigger] neighbors[j]@[k]) < neighbors.len(),
        count_core(dense_points(neighbors@, min_samples), neighbors.len() as int) <= i32::MAX,
    ensures
        result.core_points.len() == neighbors.len(),
        forall|i: int|
            0 <= i < neighbors.len() ==> #[trigger] result.core_points[i] == (neighbors[i].len() >= min_samples),
        valid_clustering(neighbors@, result.core_points@, result.labels@),
{
    let core_points = core_points_from_neighbors(neighbors, min_samples);
    assert(core_points@ =~= dense_points(neighbors@, min_samples));
    let labels = assign_clusters(neighbors, &core_points);
    ClusterResult { labels, core_points }
}

/// The first core point of cluster `c`.
pub open spec fn first_core(core: Seq<bool>, labels: Seq<i32>, c: int) -> int {
    choose|s: int|
        0 <= s < labels.len() && core[s] && labels[s] == c && forall|q: int|
            0 <= q < labels.len() && core[q] && #[trigger] labels[q] == c ==> s <= q
}

proof fn lemma_first_core(nb: Seq<Vec<usize>>, core: Seq<bool>, labels: Seq<i32>, c: int)
    requires
        valid_clustering(nb, core, labels),
        0 <= c <= max_label(labels),
    ensures
        ({
            let s = first_core(core, labels, c);
            &&& 0 <= s < labels.len()
            &&& core[s]
            &&& labels[s] == c
            &&& forall|q: int| 0 <= q < labels.len() && core[q] && #[trigger] labels[q] == c ==> s <= q
        }),
{
    assert(has_core_before(core, labels, c, labels.len() as int));
    let s0 = choose|s: int| 0 <= s < labels.len() && s < labels.len() && core[s] && #[trigger] labels[s] == c;
    assert(grown_from_first_core(nb, core, labels, s0));
}

/// Along a chain from a core point, labels never exceed the core point's.
proof fn lemma_chain_bound(nb: Seq<Vec<usize>>, core: Seq<bool>, labels: Seq<i32>, path: Seq<int>, i: int)
    requires
        well_formed_graph(nb, core),
        valid_clustering(nb, core, labels),
        is_chain(nb, core, path),
        0 <= path[0] < nb.len(),
        core[path[0]],
        0 <= path.last() < nb.len(),
        0 <= i < path.len(),
    ensures
        0 <= path[i] < nb.len(),
        0 <= labels[path[i]] <= labels[path[0]],
    decreases i,
{
    if i == 0 {
        assert(labels[path[0]] != -1);
        assert(-1 <= labels[path[0]]);
    } else {
        lemma_chain_bound(nb, core, labels, path, i - 1);
        let a = path[i - 1];
        let b = path[i];
        assert(0 <= a < nb.len() && core[a] && is_neighbor(nb, a, b));
        if i < path.len() - 1 {
            assert(0 <= path[i] < nb.len());
        }
        assert(expanded(nb, core, labels, a));
        let k = choose|k: int| 0 <= k < nb[a]@.len() && nb[a]@[k] == b as usize;
        assert(nb[a]@[k] < nb.len());
        assert(labels[nb[a]@[k] as int] <= labels[a]);
    }
}

/// A point reachable from a core point is in its cluster or an earlier one.
proof fn lemma_reach_bound(nb: Seq<Vec<usize>>, core: Seq<bool>, labels: Seq<i32>, j: int, p: int)
    requires
        well_formed_graph(nb, core),
        valid_clustering(nb, core, labels),
        0 <= j < nb.len(),
        0 <= p < nb.len(),
        core[j],
        density_reachable(nb, core, j, p),
    ensures
        0 <= labels[p] <= labels[j],
{
    let path = choose|path: Seq<int>| #[trigger] is_chain(nb, core, path) && path[0] == j && path.last() == p;
    lemma_chain_bound(nb, core, labels, path, path.len() - 1);
}

/// The first core points of the clusters are the same in any two valid labellings.
proof fn lemma_first_cores_agree(nb: Seq<Vec<usize>>, core: Seq<bool>, l1: Seq<i32>, l2: Seq<i32>, c: int)
    requires
        well_formed_graph(nb, core),
        valid_clustering(nb, core, l1),
        valid_clustering(nb, core, l2),
        0 <= c <= max_label(l1),
    ensures
        c <= max_label(l2),
        first_core(core, l1, c) == first_core(core, l2, c),
    decreases c,
{
    lemma_first_core(nb, core, l1, c);
    let a = first_core(core, l1, c);
    assert(l2[a] != -1);
    let d = l2[a] as int;
    assert(d < max_label(l2) + 1);
    // `a` is not in an earlier cluster of `l2`
    if d < c {
        lemma_first_cores_agree(nb, core, l1, l2, d);
        assert(grown_from_first_core(nb, core, l2, a));
        let s = choose|s: int|
            0 <= s < l2.len() && core[s] && l2[s] == l2[a] && density_reachable(nb, core, s, a) && (forall|q: int|
                0 <= q < l2.len() && core[q] && #[trigger] l2[q] == l2[a] ==> s <= q);
        lemma_first_core(nb, core, l2, d);
        assert(s == first_core(core, l2, d)) by {
            let f = first_core(core, l2, d);
            assert(s <= f);
            assert(f <= s);
        }
        lemma_first_core(nb, core, l1, d);
        lemma_reach_bound(nb, core, l1, s, a);
        assert(false);
    }
    lemma_first_core(nb, core, l2, c);
    let b = first_core(core, l2, c);
    assert(l1[b] != -1);
    if l1[b] < c {
        lemma_first_cores_agree(nb, core, l1, l2, l1[b] as int);
        let e = l1[b] as int;
        assert(grown_from_first_core(nb, core, l1, b));
        let s = choose|s: int|
            0 <= s < l1.len() && core[s] && l1[s] == l1[b] && density_reachable(nb, core, s, b) && (forall|q: int|
                0 <= q < l1.len() && core[q] && #[trigger] l1[q] == l1[b] ==> s <= q);
        lemma_first_core(nb, core, l1, e);
        assert(s == first_core(core, l1, e)) by {
            let f = first_core(core, l1, e);
            assert(s <= f);
            assert(f <= s);
        }
        lemma_first_core(nb, core, l2, e);
        lemma_reach_bound(nb, core, l2, s, b);
        assert(false);
    }
    // neither can come before the other
    if a < b {
        if d > c {
            assert(has_core_before(core, l2, c, a));
            let s = choose|s: int| 0 <= s < a && s < l2.len() && core[s] && #[trigger] l2[s] == c;
        }
    }
    if b < a {
        if l1[b] > c {
            assert(has_core_before(core, l1, c, b));
            let s = choose|s: int| 0 <= s < b && s < l1.len() && core[s] && #[trigger] l1[s] == c;
        }
    }
}

/// Label of a core point: the first cluster whose first core point reaches it.
proof fn lemma_core_labels_agree(nb: Seq<Vec<usize>>, core: Seq<bool>, l1: Seq<i32>, l2: Seq<i32>, q: int)
    requires
        well_formed_graph(nb, core),
        valid_clustering(nb, core, l1),
        valid_clustering(nb, core, l2),
        0 <= q < nb.len(),
        core[q],
        l1[q] <= l2[q],
    ensures
        l1[q] == l2[q],
{
    assert(l1[q] != -1);
    assert(l2[q] != -1);
    let c = l1[q] as int;
    assert(c <= max_label(l1));
    assert(grown_from_first_core(nb, core, l1, q));
    let s = choose|s: int|
        0 <= s < l1.len() && core[s] && l1[s] == l1[q] && density_reachable(nb, core, s, q) && (forall|x: int|
            0 <= x < l1.len() && core[x] && #[trigger] l1[x] == l1[q] ==> s <= x);
    lemma_first_core(nb, core, l1, c);
    assert(s == first_core(core, l1, c)) by {
        let f = first_core(core, l1, c);
        assert(s <= f);
        assert(f <= s);
    }
    lemma_first_cores_agree(nb, core, l1, l2, c);
    lemma_first_core(nb, core, l2, c);
    lemma_reach_bound(nb, core, l2, s, q);
}

/// Law: the contract of the cluster assignment pins its result down: any
/// two labellings that meet `valid_clustering` for the same neighbourhoods
/// and core points are equal.
pub proof fn lemma_clustering_unique(nb: Seq<Vec<usize>>, core: Seq<bool>, l1: Seq<i32>, l2: Seq<i32>)
    requires
        well_formed_graph(nb, core),
        valid_clustering(nb, core, l1),
        valid_clustering(nb, core, l2),
    ensures
        l1 == l2,
{
    assert forall|q: int| 0 <= q < nb.len() && core[q] implies #[trigger] l1[q] == l2[q] by {
        if l1[q] <= l2[q] {
            lemma_core_labels_agree(nb, core, l1, l2, q);
        } else {
            lemma_core_labels_agree(nb, core, l2, l1, q);
        }
    }
    assert forall|p: int| 0 <= p < nb.len() implies #[trigger] l1[p] == l2[p] by {
        if !core[p] {
            if covered(nb, core, p) {
                assert(l1[p] != -1);
                assert(l2[p] != -1);
                assert(attached(nb, core, l1, p));
                let j1 = choose|j: int|
                    0 <= j < nb.len() && core[j] && #[trigger] l1[j] == l1[p] && (j == p || is_neighbor(nb, j, p));
                assert(attached(nb, core, l2, p));
                let j2 = choose|j: int|
                    0 <= j < nb.len() && core[j] && #[trigger] l2[j] == l2[p] && (j == p || is_neighbor(nb, j, p));
                assert(l1[j1] == l2[j1]);
                assert(l1[j2] == l2[j2]);
                assert(expanded(nb, core, l1, j2));
                assert(expanded(nb, core, l2, j1));
                let k1 = choose|k: int| 0 <= k < nb[j1]@.len() && nb[j1]@[k] == p as usize;
                let k2 = choose|k: int| 0 <= k < nb[j2]@.len() && nb[j2]@[k] == p as usize;
                assert(l2[nb[j1]@[k1] as int] <= l2[j1]);
                assert(l1[nb[j2]@[k2] as int] <= l1[j2]);
            } else {
                assert(l1[p] == -1);
                assert(l2[p] == -1);
            }
        }
    }
    assert(l1.len() == l2.len());
    assert(l1 =~= l2);
}

/// `valid_clustering` reads the neighbour lists only through their contents.
pub proof fn lemma_valid_clustering_same_lists(
    nb1: Seq<Vec<usize>>,
    nb2: Seq<Vec<usize>>,
    core: Seq<bool>,
    labels: Seq<i32>,
)
    requires
        nb1.len() == nb2.len(),
        forall|j: int| 0 <= j < nb1.len() ==> #[trigger] nb1[j]@ == nb2[j]@,
        valid_clustering(nb1, core, labels),
    ensures
        valid_clustering(nb2, core, labels),
{
    assert forall|j: int, p: int| #[trigger] is_neighbor(nb2, j, p) == is_neighbor(nb1, j, p) by {
        if 0 <= j < nb1.len() {
            assert(nb1[j]@ == nb2[j]@);
        }
    }
    assert forall|path: Seq<int>| #[trigger] is_chain(nb2, core, path) == is_chain(nb1, core, path) by {
        if is_chain(nb1, core, path) {
            assert forall|i: int| 0 <= i < path.len() - 1 implies 0 <= #[trigger] path[i] < nb2.len() && core[path[i]]
                && is_neighbor(nb2, path[i], path[i + 1]) by {
                assert(is_neighbor(nb1, path[i], path[i + 1]));
            }
        }
        if is_chain(nb2, core, path) {
            assert forall|i: int| 0 <= i < path.len() - 1 implies 0 <= #[trigger] path[i] < nb1.len() && core[path[i]]
                && is_neighbor(nb1, path[i], path[i + 1]) by {
                assert(is_neighbor(nb2, path[i], path[i + 1]));
            }
        }
    }
    assert forall|s: int, p: int| #[trigger] density_reachable(nb2, core, s, p) == density_reachable(nb1, core, s, p) by {
        if density_reachable(nb1, core, s, p) {
            let path = choose|path: Seq<int>| #[trigger] is_chain(nb1, core, path) && path[0] == s && path.last() == p;
            assert(is_chain(nb2, core, path));
        }
        if density_reachable(nb2, core, s, p) {
            let path = choose|path: Seq<int>| #[trigger] is_chain(nb2, core, path) && path[0] == s && path.last() == p;
            assert(is_chain(nb1, core, path));
        }
    }
    assert forall|p: int| #[trigger] covered(nb2, core, p) == covered(nb1, core, p) by {
        if covered(nb1, core, p) {
            let j = choose|j: int| 0 <= j < nb1.len() && core[j] && #[trigger] is_neighbor(nb1, j, p);
            assert(is_neighbor(nb2, j, p));
        }
        if covered(nb2, core, p) {
            let j = choose|j: int| 0 <= j < nb2.len() && core[j] && #[trigger] is_neighbor(nb2, j, p);
            assert(is_neighbor(nb1, j, p));
        }
    }
    assert forall|p: int| 0 <= p < labels.len() && labels[p] >= 0 implies #[trigger] attached(nb2, core, labels, p) by {
        assert(attached(nb1, core, labels, p));
        let j = choose|j: int|
            0 <= j < nb1.len() && core[j] && #[trigger] labels[j] == labels[p] && (j == p || is_neighbor(nb1, j, p));
        if j != p {
            assert(is_neighbor(nb2, j, p));
        }
    }
    assert forall|j: int| 0 <= j < labels.len() && core[j] implies #[trigger] expanded(nb2, core, labels, j) by {
        assert(expanded(nb1, core, labels, j));
        assert(nb1[j]@ == nb2[j]@);
    }
    assert forall|p: int| 0 <= p < labels.len() && labels[p] >= 0 implies #[trigger] grown_from_first_core(
        nb2,
        core,
        labels,
        p,
    ) by {
        assert(grown_from_first_core(nb1, core, labels, p));
        let s = choose|s: int|
            0 <= s < labels.len() && core[s] && labels[s] == labels[p] && density_reachable(nb1, core, s, p) && (
            forall|q: int| 0 <= q < labels.len() && core[q] && #[trigger] labels[q] == labels[p] ==> s <= q);
        assert(density_reachable(nb2, core, s, p));
    }
}

/// Every neighbourhood relation produced by a distance threshold is symmetric.
pub open spec fn symmetric_neighbors(nb: Seq<Vec<usize>>) -> bool {
    forall|j: int, p: int| #[trigger] is_neighbor(nb, j, p) ==> is_neighbor(nb, p, j)
}

/// Law: with symmetric neighbourhoods, two core points in each other's
/// neighbourhood end up in the same cluster.
pub proof fn lemma_adjacent_core_points_share_cluster(
    nb: Seq<Vec<usize>>,
    core: Seq<bool>,
    labels: Seq<i32>,
    j: int,
    p: int,
)
    requires
        well_formed_graph(nb, core),
        valid_clustering(nb, core, labels),
        symmetric_neighbors(nb),
        0 <= j < nb.len(),
        0 <= p < nb.len(),
        core[j],
        core[p],
        is_neighbor(nb, j, p),
    ensures
        labels[j] == labels[p],
{
    assert(is_neighbor(nb, p, j));
    assert(expanded(nb, core, labels, j));
    assert(expanded(nb, core, labels, p));
    let k1 = choose|k: int| 0 <= k < nb[j]@.len() && nb[j]@[k] == p as usize;
    let k2 = choose|k: int| 0 <= k < nb[p]@.len() && nb[p]@[k] == j as usize;
    assert(labels[nb[j]@[k1] as int] <= labels[j]);
    assert(labels[nb[p]@[k2] as int] <= labels[p]);
}

/// Law: with symmetric neighbourhoods, a core point density-reachable from a
/// core point lies in the same cluster; so the core points of a cluster are
/// exactly one density-connected component.
pub proof fn lemma_reachable_core_points_share_cluster(
    nb: Seq<Vec<usize>>,
    core: Seq<bool>,
    labels: Seq<i32>,
    s: int,
    p: int,
)
    requires
        well_formed_graph(nb, core),
        valid_clustering(nb, core, labels),
        symmetric_neighbors(nb),
        0 <= s < nb.len(),
        0 <= p < nb.len(),
        core[s],
        core[p],
        density_reachable(nb, core, s, p),
    ensures
        labels[s] == labels[p],
{
    let path = choose|path: Seq<int>| #[trigger] is_chain(nb, core, path) && path[0] == s && path.last() == p;
    lemma_chain_labels(nb, core, labels, path, path.len() - 1);
}

proof fn lemma_chain_labels(nb: Seq<Vec<usize>>, core: Seq<bool>, labels: Seq<i32>, path: Seq<int>, i: int)
    requires
        well_formed_graph(nb, core),
        valid_clustering(nb, core, labels),
        symmetric_neighbors(nb),
        is_chain(nb, core, path),
        0 <= path[0] < nb.len(),
        core[path[0]],
        0 <= path.last() < nb.len(),
        core[path.last()],
        0 <= i < path.len(),
    ensures
        0 <= path[i] < nb.len(),
        core[path[i]],
        labels[path[i]] == labels[path[0]],
    decreases i,
{
    if i > 0 {
        lemma_chain_labels(nb, core, labels, path, i - 1);
        let a = path[i - 1];
        let b = path[i];
        assert(0 <= a < nb.len() && core[a] && is_neighbor(nb, a, b));
        let k = choose|k: int| 0 <= k < nb[a]@.len() && nb[a]@[k] == b as usize;
        assert(nb[a]@[k] < nb.len());
        if i < path.len() - 1 {
            assert(core[path[i]]);
        }
        lemma_adjacent_core_points_share_cluster(nb, core, labels, a, b);
    }
}

} // verus!
