//! Total weight of Prim's tree: over symmetric keys, no spanning tree grown
//! from vertex `0` has a smaller sum of keys.
//!
//! The proof counts, for each threshold, the edges whose key reaches it:
//! Prim's tree never has more of them than another spanning tree, and a sum
//! of keys is the sum of those counts over all thresholds.

use vstd::prelude::*;
use crate::mst::{
    TreeEdge, square_keys, start_tree, prim_edges, grows_tree, brought_in, reached_after, crossing,
    lightest_crossing, edge_key, triple_lt, lemma_prim_edges_greedy, lemma_prim_edges_form_tree,
    lemma_reached_after_grows, lemma_first_leaving,
};

verus! {

/// Sum of the keys of the edges `es`.
pub open spec fn total_key(keys: Seq<Vec<Option<u64>>>, es: Seq<TreeEdge>) -> nat
    decreases es.len(),
{
    if es.len() == 0 {
        0
    } else {
        total_key(keys, es.drop_last()) + edge_key(keys, es.last()) as nat
    }
}

/// Positions of the edges whose key is at least `level`.
pub open spec fn at_least(keys: Seq<Vec<Option<u64>>>, es: Seq<TreeEdge>, level: int) -> Set<int> {
    Set::new(|i: int| 0 <= i < es.len() && edge_key(keys, es[i]) >= level)
}

/// Sum over the levels `1..=m` of the number of edges reaching each level.
spec fn layered(keys: Seq<Vec<Option<u64>>>, es: Seq<TreeEdge>, m: nat) -> nat
    decreases m,
{
    if m == 0 {
        0
    } else {
        layered(keys, es, (m - 1) as nat) + at_least(keys, es, m as int).len()
    }
}

/// Number of levels in `1..=m` that `x` reaches.
spec fn levels_reached(x: int, m: nat) -> nat
    decreases m,
{
    if m == 0 {
        0
    } else {
        levels_reached(x, (m - 1) as nat) + if x >= m { 1nat } else { 0nat }
    }
}

proof fn lemma_levels_reached(x: int, m: nat)
    requires
        0 <= x <= m,
    ensures
        levels_reached(x, m) == x,
    decreases m,
{
    if m > 0 {
        if x == m {
            lemma_levels_reached_all((m - 1) as nat, x);
        } else {
            lemma_levels_reached(x, (m - 1) as nat);
        }
    }
}

proof fn lemma_levels_reached_all(m: nat, x: int)
    requires
        x >= m,
    ensures
        levels_reached(x, m) == m,
    decreases m,
{
    if m > 0 {
        lemma_levels_reached_all((m - 1) as nat, x);
    }
}

proof fn lemma_at_least_finite(keys: Seq<Vec<Option<u64>>>, es: Seq<TreeEdge>, level: int)
    ensures
        at_least(keys, es, level).finite(),
        at_least(keys, es, level).len() <= es.len(),
{
    vstd::set_lib::lemma_int_range(0, es.len() as int);
    vstd::set_lib::lemma_len_subset(at_least(keys, es, level), vstd::set_lib::set_int_range(0, es.len() as int));
}

/// Adding one edge adds, at each level, one count where its key reaches it.
proof fn lemma_layered_push(keys: Seq<Vec<Option<u64>>>, es: Seq<TreeEdge>, m: nat)
    requires
        es.len() > 0,
    ensures
        layered(keys, es, m) == layered(keys, es.drop_last(), m) + levels_reached(
            edge_key(keys, es.last()) as int,
            m,
        ),
    decreases m,
{
    if m > 0 {
        lemma_layered_push(keys, es, (m - 1) as nat);
        let prev = es.drop_last();
        let x = edge_key(keys, es.last()) as int;
        lemma_at_least_finite(keys, prev, m as int);
        if x >= m {
            assert(at_least(keys, es, m as int) =~= at_least(keys, prev, m as int).insert(es.len() - 1));
        } else {
            assert(at_least(keys, es, m as int) =~= at_least(keys, prev, m as int));
        }
    }
}

/// Layering up to the largest key gives the sum of keys.
proof fn lemma_layered_total(keys: Seq<Vec<Option<u64>>>, es: Seq<TreeEdge>)
    ensures
        layered(keys, es, u64::MAX as nat) == total_key(keys, es),
    decreases es.len(),
{
    if es.len() == 0 {
        lemma_layered_empty(keys, es, u64::MAX as nat);
    } else {
        lemma_layered_total(keys, es.drop_last());
        lemma_layered_push(keys, es, u64::MAX as nat);
        lemma_levels_reached(edge_key(keys, es.last()) as int, u64::MAX as nat);
    }
}

proof fn lemma_layered_empty(keys: Seq<Vec<Option<u64>>>, es: Seq<TreeEdge>, m: nat)
    requires
        es.len() == 0,
    ensures
        layered(keys, es, m) == 0,
    decreases m,
{
    if m > 0 {
        lemma_layered_empty(keys, es, (m - 1) as nat);
        assert(at_least(keys, es, m as int) =~= Set::empty());
    }
}

/// Fewer edges at every level means a smaller layered sum.
proof fn lemma_layered_le(keys: Seq<Vec<Option<u64>>>, a: Seq<TreeEdge>, b: Seq<TreeEdge>, m: nat)
    requires
        forall|level: int| 1 <= level <= m ==> #[trigger] at_least(keys, a, level).len() <= at_least(
            keys,
            b,
            level,
        ).len(),
    ensures
        layered(keys, a, m) <= layered(keys, b, m),
    decreases m,
{
    if m > 0 {
        lemma_layered_le(keys, a, b, (m - 1) as nat);
        assert(at_least(keys, a, m as int).len() <= at_least(keys, b, m as int).len());
    }
}

/// Keys that do not depend on the direction of an edge.
pub open spec fn symmetric_keys(keys: Seq<Vec<Option<u64>>>) -> bool {
    forall|f: int, t: int| 0 <= f < keys.len() && 0 <= t < keys.len() ==> #[trigger] keys[f]@[t] == keys[t]@[f]
}

/// `other` is a spanning tree over the keys, listed as it grows from vertex
/// `0`: each edge leads from vertex `0` or a vertex already reached to a new
/// one.  Every spanning tree can be listed so, each edge directed away from
/// vertex `0` (over symmetric keys the direction does not change its key).
pub open spec fn spanning_tree(keys: Seq<Vec<Option<u64>>>, other: Seq<TreeEdge>) -> bool {
    &&& grows_tree(keys, start_tree(keys.len()), other)
    &&& forall|v: int| 0 < v < keys.len() ==> #[trigger] brought_in(other, v)
}

/// The vertices Prim's tree holds after `k` edges.
spec fn prim_reached(keys: Seq<Vec<Option<u64>>>, k: int) -> Seq<bool> {
    reached_after(start_tree(keys.len()), prim_edges(keys), k)
}

/// A tree only grows: what is reached after `a` edges is still reached after `b`.
proof fn lemma_reached_monotone(
    keys: Seq<Vec<Option<u64>>>,
    in_tree: Seq<bool>,
    es: Seq<TreeEdge>,
    a: int,
    b: int,
    v: int,
)
    requires
        in_tree.len() == keys.len(),
        grows_tree(keys, in_tree, es),
        0 <= a <= b <= es.len(),
        0 <= v < keys.len(),
        reached_after(in_tree, es, a)[v],
    ensures
        reached_after(in_tree, es, b)[v],
    decreases b - a,
{
    if a < b {
        lemma_reached_monotone(keys, in_tree, es, a, b - 1, v);
        lemma_reached_after_grows(keys, in_tree, es, b - 1);
        assert(es[b - 1].to < keys.len());
    }
}

/// The facts about Prim's tree that the counting below rests on.
proof fn lemma_prim_facts(keys: Seq<Vec<Option<u64>>>, other: Seq<TreeEdge>)
    requires
        square_keys(keys),
        0 < keys.len() <= usize::MAX,
        spanning_tree(keys, other),
    ensures
        grows_tree(keys, start_tree(keys.len()), prim_edges(keys)),
        forall|k: int|
            0 <= k < prim_edges(keys).len() ==> #[trigger] lightest_crossing(
                keys,
                prim_reached(keys, k),
                prim_edges(keys)[k].from as int,
                prim_edges(keys)[k].to as int,
            ),
        forall|k: int| 0 <= k <= prim_edges(keys).len() ==> (#[trigger] prim_reached(keys, k)).len() == keys.len(),
        forall|k: int| 0 <= k <= prim_edges(keys).len() ==> #[trigger] prim_reached(keys, k)[0],
        forall|v: int| 0 <= v < keys.len() ==> #[trigger] prim_reached(keys, prim_edges(keys).len() as int)[v],
{
    let init = start_tree(keys.len());
    let es = prim_edges(keys);
    lemma_prim_edges_greedy(keys);
    lemma_prim_edges_form_tree(keys);
    assert forall|k: int| 0 <= k <= es.len() implies (#[trigger] prim_reached(keys, k)).len() == keys.len()
        && prim_reached(keys, k)[0] by {
        lemma_reached_after_grows(keys, init, es, k);
        assert(init[0]);
    }
    let last = prim_reached(keys, es.len() as int);
    assert forall|v: int| 0 <= v < keys.len() implies #[trigger] prim_reached(keys, es.len() as int)[v] by {
        if !last[v] {
            assert(v != 0);
            assert(brought_in(other, v));
            let i = choose|i: int| 0 <= i < other.len() && other[i].to == v;
            lemma_reached_after_grows(keys, init, es, es.len() as int);
            lemma_first_leaving(keys, init, other, last, i);
            let j = choose|j: int| 0 <= j <= i && #[trigger] crossing(keys, last, other[j].from as int, other[j].to as int);
            assert(crossing(keys, last, other[j].from as int, other[j].to as int));
        }
    }
}

/// The first step at or after `j` whose edge key reaches `level` (or the
/// number of steps when none does).
spec fn next_at(keys: Seq<Vec<Option<u64>>>, es: Seq<TreeEdge>, level: int, j: int) -> int
    decreases es.len() - j,
{
    if j >= es.len() {
        es.len() as int
    } else if edge_key(keys, es[j]) >= level {
        j
    } else {
        next_at(keys, es, level, j + 1)
    }
}

proof fn lemma_next_at(keys: Seq<Vec<Option<u64>>>, es: Seq<TreeEdge>, level: int, j: int)
    requires
        0 <= j <= es.len(),
    ensures
        j <= next_at(keys, es, level, j) <= es.len(),
        next_at(keys, es, level, j) < es.len() ==> edge_key(keys, es[next_at(keys, es, level, j)]) >= level,
        forall|k: int| j <= k < next_at(keys, es, level, j) ==> edge_key(keys, #[trigger] es[k]) < level,
    decreases es.len() - j,
{
    if j < es.len() && edge_key(keys, es[j]) < level {
        lemma_next_at(keys, es, level, j + 1);
    }
}

/// Vertex `v` joins Prim's tree at step `k` or later, but before the next
/// step after `k` whose edge key reaches `level`.
spec fn in_band(keys: Seq<Vec<Option<u64>>>, level: int, k: int, v: int) -> bool {
    &&& !prim_reached(keys, k)[v]
    &&& prim_reached(keys, next_at(keys, prim_edges(keys), level, k + 1))[v]
}

/// Edge `i` of `other` is the first one that brings in a vertex of the band of step `k`.
spec fn band_entry(keys: Seq<Vec<Option<u64>>>, other: Seq<TreeEdge>, level: int, k: int, i: int) -> bool {
    &&& 0 <= i < other.len()
    &&& in_band(keys, level, k, other[i].to as int)
    &&& forall|j: int| 0 <= j < i ==> !in_band(keys, level, k, #[trigger] other[j].to as int)
}

/// The edge of `other` charged for step `k`.
spec fn charged(keys: Seq<Vec<Option<u64>>>, other: Seq<TreeEdge>, level: int, k: int) -> int {
    choose|i: int| band_entry(keys, other, level, k, i)
}

proof fn lemma_first_entry(keys: Seq<Vec<Option<u64>>>, other: Seq<TreeEdge>, level: int, k: int, i: int)
    requires
        0 <= i < other.len(),
        in_band(keys, level, k, other[i].to as int),
    ensures
        exists|i2: int| band_entry(keys, other, level, k, i2),
    decreases i,
{
    if exists|j: int| 0 <= j < i && in_band(keys, level, k, #[trigger] other[j].to as int) {
        let j = choose|j: int| 0 <= j < i && in_band(keys, level, k, #[trigger] other[j].to as int);
        lemma_first_entry(keys, other, level, k, j);
    } else {
        assert(band_entry(keys, other, level, k, i));
    }
}

/// The edge charged for a step whose key reaches `level` is the first edge
/// of `other` into that step's band, and its key reaches `level` too: it
/// leaves the tree Prim's algorithm held either at that step or at the next
/// step whose key reaches `level`, and Prim's edge there was the lightest
/// leaving.
proof fn lemma_charged(keys: Seq<Vec<Option<u64>>>, other: Seq<TreeEdge>, level: int, k: int)
    requires
        square_keys(keys),
        0 < keys.len() <= usize::MAX,
        symmetric_keys(keys),
        spanning_tree(keys, other),
        0 <= k < prim_edges(keys).len(),
        edge_key(keys, prim_edges(keys)[k]) >= level,
    ensures
        band_entry(keys, other, level, k, charged(keys, other, level, k)),
        edge_key(keys, other[charged(keys, other, level, k)]) >= level,
{
    let init = start_tree(keys.len());
    let es = prim_edges(keys);
    lemma_prim_facts(keys, other);
    let s_k = prim_reached(keys, k);
    let v = es[k].to as int;
    assert(lightest_crossing(keys, s_k, es[k].from as int, v));
    let n_k = next_at(keys, es, level, k + 1);
    lemma_next_at(keys, es, level, k + 1);
    assert(prim_reached(keys, k + 1) == s_k.update(v, true));
    assert(prim_reached(keys, k + 1)[v]);
    lemma_reached_monotone(keys, init, es, k + 1, n_k, v);
    assert(in_band(keys, level, k, v));
    assert(s_k[0]);
    assert(brought_in(other, v));
    let i = choose|i: int| 0 <= i < other.len() && other[i].to == v;
    lemma_first_entry(keys, other, level, k, i);
    let c = charged(keys, other, level, k);
    assert(band_entry(keys, other, level, k, c));
    let g = other[c];
    let w = g.from as int;
    let u = g.to as int;
    assert(w < keys.len() && u < keys.len() && keys[w]@[u] is Some);
    if s_k[w] {
        assert(crossing(keys, s_k, w, u));
        if w != es[k].from || u != v {
            assert(triple_lt(keys[es[k].from as int]@[v]->0, es[k].from as int, v, keys[w]@[u]->0, w, u));
        }
    } else {
        assert(!init[w]);
        let j = choose|j: int| 0 <= j < c && #[trigger] other[j].to == other[c].from;
        assert(!in_band(keys, level, k, other[j].to as int));
        let s_n = prim_reached(keys, n_k);
        assert(!s_n[w]);
        assert(n_k < es.len());
        assert(s_n[u]);
        assert(keys[u]@[w] == keys[w]@[u]);
        assert(crossing(keys, s_n, u, w));
        assert(lightest_crossing(keys, s_n, es[n_k].from as int, es[n_k].to as int));
        if u != es[n_k].from || w != es[n_k].to {
            assert(triple_lt(
                keys[es[n_k].from as int]@[es[n_k].to as int]->0,
                es[n_k].from as int,
                es[n_k].to as int,
                keys[u]@[w]->0,
                u,
                w,
            ));
        }
    }
}

/// Different steps whose keys reach `level` are charged to different edges:
/// their bands do not overlap.
proof fn lemma_charged_distinct(keys: Seq<Vec<Option<u64>>>, other: Seq<TreeEdge>, level: int, k1: int, k2: int)
    requires
        square_keys(keys),
        0 < keys.len() <= usize::MAX,
        symmetric_keys(keys),
        spanning_tree(keys, other),
        0 <= k1 < k2 < prim_edges(keys).len(),
        edge_key(keys, prim_edges(keys)[k1]) >= level,
        edge_key(keys, prim_edges(keys)[k2]) >= level,
    ensures
        charged(keys, other, level, k1) != charged(keys, other, level, k2),
{
    let init = start_tree(keys.len());
    let es = prim_edges(keys);
    lemma_prim_facts(keys, other);
    lemma_charged(keys, other, level, k1);
    lemma_charged(keys, other, level, k2);
    let c1 = charged(keys, other, level, k1);
    let c2 = charged(keys, other, level, k2);
    let u1 = other[c1].to as int;
    let n1 = next_at(keys, es, level, k1 + 1);
    lemma_next_at(keys, es, level, k1 + 1);
    if k2 < n1 {
        assert(edge_key(keys, es[k2]) < level);
    }
    assert(prim_reached(keys, n1)[u1]);
    lemma_reached_monotone(keys, init, es, n1, k2, u1);
    assert(prim_reached(keys, k2)[u1]);
    assert(!prim_reached(keys, k2)[other[c2].to as int]);
}

/// At every level, Prim's tree has no more edges reaching it than `other`.
proof fn lemma_level_counts(keys: Seq<Vec<Option<u64>>>, other: Seq<TreeEdge>, level: int)
    requires
        square_keys(keys),
        0 < keys.len() <= usize::MAX,
        symmetric_keys(keys),
        spanning_tree(keys, other),
    ensures
        at_least(keys, prim_edges(keys), level).len() <= at_least(keys, other, level).len(),
{
    let es = prim_edges(keys);
    let x = at_least(keys, es, level);
    let f = |k: int| charged(keys, other, level, k);
    let y = x.map(f);
    lemma_at_least_finite(keys, es, level);
    lemma_at_least_finite(keys, other, level);
    assert forall|a: int, b: int| x.contains(a) && x.contains(b) && #[trigger] f(a) == #[trigger] f(b) implies a == b by {
        if a < b {
            lemma_charged_distinct(keys, other, level, a, b);
        } else if b < a {
            lemma_charged_distinct(keys, other, level, b, a);
        }
    }
    assert(vstd::relations::injective_on(f, x));
    vstd::set_lib::lemma_map_size(x, y, f);
    assert forall|c: int| y.contains(c) implies #[trigger] at_least(keys, other, level).contains(c) by {
        let k = choose|k: int| x.contains(k) && f(k) == c;
        lemma_charged(keys, other, level, k);
    }
    vstd::set_lib::lemma_len_subset(y, at_least(keys, other, level));
}

/// Law (minimality): over symmetric keys, Prim's tree is a minimum spanning
/// tree: no spanning tree grown from vertex `0` over the same keys has a
/// smaller sum of keys.
pub proof fn lemma_prim_edges_minimal(keys: Seq<Vec<Option<u64>>>, other: Seq<TreeEdge>)
    requires
        square_keys(keys),
        0 < keys.len() <= usize::MAX,
        symmetric_keys(keys),
        spanning_tree(keys, other),
    ensures
        total_key(keys, prim_edges(keys)) <= total_key(keys, other),
{
    let es = prim_edges(keys);
    assert forall|level: int| 1 <= level <= u64::MAX as nat implies #[trigger] at_least(keys, es, level).len()
        <= at_least(keys, other, level).len() by {
        lemma_level_counts(keys, other, level);
    }
    lemma_layered_le(keys, es, other, u64::MAX as nat);
    lemma_layered_total(keys, es);
    lemma_layered_total(keys, other);
}

} // verus!
