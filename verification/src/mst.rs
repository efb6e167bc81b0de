//! Prim's minimum spanning tree over a square matrix of edge keys.
//!
//! `keys[f][t]` orders the edge `f -> t` (smaller is lighter); `None` marks an
//! edge that does not exist (an infinite or undefined distance).  Ties are
//! broken by the source vertex, then by the target vertex.

use vstd::prelude::*;

verus! {

/// An edge of the spanning tree, from a vertex already in the tree to the
/// vertex it brings in.
#[derive(Clone, Copy, Debug, PartialEq, Eq)]
pub struct TreeEdge {
    /// Source vertex index.
    pub from: usize,
    /// Destination vertex index.
    pub to: usize,
}

/// A square key matrix over `n` vertices (rows may be longer than `n`).
pub open spec fn square_keys(keys: Seq<Vec<Option<u64>>>) -> bool {
    forall|f: int| 0 <= f < keys.len() ==> #[trigger] keys[f].len() >= keys.len()
}

/// Every edge between two distinct vertices exists.
pub open spec fn complete_keys(keys: Seq<Vec<Option<u64>>>) -> bool {
    forall|f: int, t: int| 0 <= f < keys.len() && 0 <= t < keys.len() && f != t ==> #[trigger] keys[f]@[t] is Some
}

/// `(w1, f1, t1)` precedes `(w2, f2, t2)` lexicographically.
pub open spec fn triple_lt(w1: u64, f1: int, t1: int, w2: u64, f2: int, t2: int) -> bool {
    w1 < w2 || (w1 == w2 && (f1 < f2 || (f1 == f2 && t1 < t2)))
}

/// `f -> t` is an existing edge leaving the tree.
pub open spec fn crossing(keys: Seq<Vec<Option<u64>>>, in_tree: Seq<bool>, f: int, t: int) -> bool {
    &&& 0 <= f < in_tree.len()
    &&& 0 <= t < in_tree.len()
    &&& in_tree[f]
    &&& !in_tree[t]
    &&& keys[f]@[t] is Some
}

/// `f -> t` is the lightest edge leaving the tree.
pub open spec fn lightest_crossing(keys: Seq<Vec<Option<u64>>>, in_tree: Seq<bool>, f: int, t: int) -> bool {
    &&& crossing(keys, in_tree, f, t)
    &&& forall|f2: int, t2: int|
        #[trigger] crossing(keys, in_tree, f2, t2) && (f2 != f || t2 != t) ==> triple_lt(
            keys[f]@[t]->0,
            f,
            t,
            keys[f2]@[t2]->0,
            f2,
            t2,
        )
}

/// The edges Prim's algorithm adds from the tree `in_tree`: repeatedly the
/// lightest edge leaving the tree, until none leaves it (at most `fuel` edges).
pub open spec fn prim_from(keys: Seq<Vec<Option<u64>>>, in_tree: Seq<bool>, fuel: nat) -> Seq<TreeEdge>
    decreases fuel,
{
    if fuel == 0 {
        seq![]
    } else if exists|f: int, t: int| lightest_crossing(keys, in_tree, f, t) {
        let (f, t) = choose|f: int, t: int| lightest_crossing(keys, in_tree, f, t);
        seq![TreeEdge { from: f as usize, to: t as usize }] + prim_from(
            keys,
            in_tree.update(t, true),
            (fuel - 1) as nat,
        )
    } else {
        seq![]
    }
}

/// The tree holding vertex `0` alone, over `n` vertices.
pub open spec fn start_tree(n: nat) -> Seq<bool> {
    Seq::new(n, |i: int| i == 0)
}

/// The tree that grows from vertex `0`, in the order Prim's algorithm adds its edges.
pub open spec fn prim_edges(keys: Seq<Vec<Option<u64>>>) -> Seq<TreeEdge> {
    if keys.len() == 0 {
        seq![]
    } else {
        prim_from(keys, start_tree(keys.len()), keys.len())
    }
}

/// The edges grow one tree out of `in_tree`: each edge brings in a vertex
/// not reached before, from a vertex of `in_tree` or one an earlier edge
/// brought in, along an existing edge.
pub open spec fn grows_tree(keys: Seq<Vec<Option<u64>>>, in_tree: Seq<bool>, es: Seq<TreeEdge>) -> bool {
    &&& forall|i: int|
        0 <= i < es.len() ==> (#[trigger] es[i]).from < keys.len() && es[i].to < keys.len()
            && keys[es[i].from as int]@[es[i].to as int] is Some && !in_tree[es[i].to as int]
    &&& forall|i: int|
        0 <= i < es.len() ==> in_tree[(#[trigger] es[i]).from as int] || exists|j: int|
            0 <= j < i && #[trigger] es[j].to == es[i].from
    &&& forall|i: int, j: int| 0 <= i < j < es.len() ==> (#[trigger] es[i]).to != (#[trigger] es[j]).to
}

proof fn lemma_prim_from_grows(keys: Seq<Vec<Option<u64>>>, in_tree: Seq<bool>, fuel: nat)
    requires
        square_keys(keys),
        keys.len() <= usize::MAX,
        in_tree.len() == keys.len(),
    ensures
        grows_tree(keys, in_tree, prim_from(keys, in_tree, fuel)),
    decreases fuel,
{
    let es = prim_from(keys, in_tree, fuel);
    if fuel > 0 && exists|f: int, t: int| lightest_crossing(keys, in_tree, f, t) {
        let (f, t) = choose|f: int, t: int| lightest_crossing(keys, in_tree, f, t);
        let t2 = in_tree.update(t, true);
        let rest = prim_from(keys, t2, (fuel - 1) as nat);
        lemma_prim_from_grows(keys, t2, (fuel - 1) as nat);
        let e0 = TreeEdge { from: f as usize, to: t as usize };
        assert(es == seq![e0] + rest);
        assert(es[0] == e0);
        assert forall|i: int| 1 <= i < es.len() implies #[trigger] es[i] == rest[i - 1] by {}
        assert forall|i: int|
            0 <= i < es.len() implies (#[trigger] es[i]).from < keys.len() && es[i].to < keys.len()
                && keys[es[i].from as int]@[es[i].to as int] is Some && !in_tree[es[i].to as int] by {
            if i > 0 {
                assert(es[i] == rest[i - 1]);
                assert(!t2[rest[i - 1].to as int]);
            }
        }
        assert forall|i: int| 0 <= i < es.len() implies in_tree[(#[trigger] es[i]).from as int] || exists|j: int|
            0 <= j < i && #[trigger] es[j].to == es[i].from by {
            if i > 0 {
                let x = rest[i - 1];
                assert(es[i] == x);
                if !t2[x.from as int] {
                    let j = choose|j: int| 0 <= j < i - 1 && #[trigger] rest[j].to == rest[i - 1].from;
                    assert(es[j + 1] == rest[j]);
                } else if x.from as int == t {
                    assert(es[0].to == x.from);
                }
            }
        }
        assert forall|i: int, j: int| 0 <= i < j < es.len() implies (#[trigger] es[i]).to != (#[trigger] es[j]).to by {
            assert(es[j] == rest[j - 1]);
            assert(!t2[rest[j - 1].to as int]);
            if i > 0 {
                assert(es[i] == rest[i - 1]);
            }
        }
    }
}

/// The tree `in_tree` once the first `k` edges of `es` have brought in their vertices.
pub open spec fn reached_after(in_tree: Seq<bool>, es: Seq<TreeEdge>, k: int) -> Seq<bool>
    decreases k,
{
    if k <= 0 {
        in_tree
    } else {
        reached_after(in_tree, es, k - 1).update(es[k - 1].to as int, true)
    }
}

proof fn lemma_reached_after_shift(in_tree: Seq<bool>, e0: TreeEdge, rest: Seq<TreeEdge>, k: int)
    requires
        0 <= k <= rest.len(),
    ensures
        reached_after(in_tree, seq![e0] + rest, k + 1) == reached_after(in_tree.update(e0.to as int, true), rest, k),
    decreases k,
{
    let es = seq![e0] + rest;
    let t2 = in_tree.update(e0.to as int, true);
    if k > 0 {
        lemma_reached_after_shift(in_tree, e0, rest, k - 1);
        assert(es[k] == rest[k - 1]);
        assert(reached_after(in_tree, es, k + 1) == reached_after(in_tree, es, k).update(es[k].to as int, true));
        assert(reached_after(t2, rest, k) == reached_after(t2, rest, k - 1).update(rest[k - 1].to as int, true));
    } else {
        assert(es[0] == e0);
        assert(reached_after(in_tree, es, 0) == in_tree);
        assert(reached_after(t2, rest, 0) == t2);
    }
}

/// Position of `(w, f, t)` in the lexicographic order over `n` vertices.
spec fn triple_rank(w: u64, f: int, t: int, n: int) -> int {
    w * n * n + f * n + t
}

proof fn lemma_triple_rank_order(w1: u64, f1: int, t1: int, w2: u64, f2: int, t2: int, n: int)
    requires
        0 <= f1 < n,
        0 <= t1 < n,
        0 <= f2 < n,
        0 <= t2 < n,
        triple_lt(w1, f1, t1, w2, f2, t2),
    ensures
        0 <= triple_rank(w1, f1, t1, n) < triple_rank(w2, f2, t2, n),
{
    assert(0 <= triple_rank(w1, f1, t1, n)) by (nonlinear_arith)
        requires
            0 <= f1 < n,
            0 <= t1 < n,
            w1 >= 0,
    ;
    if w1 < w2 {
        assert(triple_rank(w1, f1, t1, n) < triple_rank(w2, f2, t2, n)) by (nonlinear_arith)
            requires
                0 <= f1 < n,
                0 <= t1 < n,
                0 <= f2 < n,
                0 <= t2 < n,
                w1 < w2,
        ;
    } else if f1 < f2 {
        assert(triple_rank(w1, f1, t1, n) < triple_rank(w2, f2, t2, n)) by (nonlinear_arith)
            requires
                0 <= t1 < n,
                0 <= t2 < n,
                f1 < f2,
                w1 == w2,
        ;
    } else {
        assert(triple_rank(w1, f1, t1, n) < triple_rank(w2, f2, t2, n)) by (nonlinear_arith)
            requires
                t1 < t2,
                f1 == f2,
                w1 == w2,
        ;
    }
}

/// Whenever some edge leaves the tree, one of them is the lightest.
proof fn lemma_lightest_exists(keys: Seq<Vec<Option<u64>>>, in_tree: Seq<bool>, f: int, t: int)
    requires
        in_tree.len() == keys.len(),
        crossing(keys, in_tree, f, t),
    ensures
        exists|f2: int, t2: int| lightest_crossing(keys, in_tree, f2, t2),
    decreases triple_rank(keys[f]@[t]->0, f, t, keys.len() as int),
{
    if !lightest_crossing(keys, in_tree, f, t) {
        let (f2, t2) = choose|f2: int, t2: int|
            #[trigger] crossing(keys, in_tree, f2, t2) && (f2 != f || t2 != t) && !triple_lt(
                keys[f]@[t]->0,
                f,
                t,
                keys[f2]@[t2]->0,
                f2,
                t2,
            );
        lemma_triple_rank_order(keys[f2]@[t2]->0, f2, t2, keys[f]@[t]->0, f, t, keys.len() as int);
        lemma_lightest_exists(keys, in_tree, f2, t2);
    }
}

proof fn lemma_prim_from_greedy(keys: Seq<Vec<Option<u64>>>, in_tree: Seq<bool>, fuel: nat)
    requires
        square_keys(keys),
        keys.len() <= usize::MAX,
        in_tree.len() == keys.len(),
    ensures
        forall|k: int|
            0 <= k < prim_from(keys, in_tree, fuel).len() ==> #[trigger] lightest_crossing(
                keys,
                reached_after(in_tree, prim_from(keys, in_tree, fuel), k),
                prim_from(keys, in_tree, fuel)[k].from as int,
                prim_from(keys, in_tree, fuel)[k].to as int,
            ),
        prim_from(keys, in_tree, fuel).len() < fuel ==> forall|f: int, t: int|
            !#[trigger] crossing(
                keys,
                reached_after(in_tree, prim_from(keys, in_tree, fuel), prim_from(keys, in_tree, fuel).len() as int),
                f,
                t,
            ),
    decreases fuel,
{
    let es = prim_from(keys, in_tree, fuel);
    if fuel > 0 && exists|f: int, t: int| lightest_crossing(keys, in_tree, f, t) {
        let (f, t) = choose|f: int, t: int| lightest_crossing(keys, in_tree, f, t);
        let t2 = in_tree.update(t, true);
        let rest = prim_from(keys, t2, (fuel - 1) as nat);
        lemma_prim_from_greedy(keys, t2, (fuel - 1) as nat);
        let e0 = TreeEdge { from: f as usize, to: t as usize };
        assert(es == seq![e0] + rest);
        assert(e0.to as int == t);
        assert forall|k: int| 0 <= k < es.len() implies #[trigger] lightest_crossing(
            keys,
            reached_after(in_tree, es, k),
            es[k].from as int,
            es[k].to as int,
        ) by {
            if k == 0 {
                assert(es[0] == e0);
            } else {
                lemma_reached_after_shift(in_tree, e0, rest, k - 1);
                assert(es[k] == rest[k - 1]);
            }
        }
        if es.len() < fuel {
            lemma_reached_after_shift(in_tree, e0, rest, rest.len() as int);
        }
    } else if fuel > 0 {
        assert(es.len() == 0);
        assert forall|f: int, t: int| !#[trigger] crossing(keys, reached_after(in_tree, es, 0), f, t) by {
            if crossing(keys, in_tree, f, t) {
                lemma_lightest_exists(keys, in_tree, f, t);
            }
        }
    }
}

/// Law: Prim's edges grow one tree from vertex `0`: every edge brings in a
/// new vertex (never `0`, never twice) from vertex `0` or a vertex an earlier
/// edge brought in, along an existing edge of the matrix.
pub proof fn lemma_prim_edges_form_tree(keys: Seq<Vec<Option<u64>>>)
    requires
        square_keys(keys),
        keys.len() <= usize::MAX,
    ensures
        keys.len() > 0 ==> grows_tree(keys, start_tree(keys.len()), prim_edges(keys)),
        keys.len() == 0 ==> prim_edges(keys).len() == 0,
{
    if keys.len() > 0 {
        lemma_prim_from_grows(keys, start_tree(keys.len()), keys.len());
    }
}

/// Some edge of `es` brings vertex `u` into the tree.
pub open spec fn brought_in(es: Seq<TreeEdge>, u: int) -> bool {
    exists|i: int| 0 <= i < es.len() && es[i].to == u
}

/// A tree grown from vertex `0` has fewer edges than there are vertices.
proof fn lemma_grown_tree_size(keys: Seq<Vec<Option<u64>>>, es: Seq<TreeEdge>)
    requires
        keys.len() > 0,
        grows_tree(keys, start_tree(keys.len()), es),
    ensures
        es.len() < keys.len(),
{
    let init = start_tree(keys.len());
    let tos = es.map_values(|e: TreeEdge| e.to as int);
    assert forall|i: int, j: int| 0 <= i < tos.len() && 0 <= j < tos.len() && i != j implies tos[i] != tos[j] by {
        if i < j {
            assert(es[i].to != es[j].to);
        } else {
            assert(es[j].to != es[i].to);
        }
    }
    assert(tos.no_duplicates());
    tos.unique_seq_to_set();
    assert forall|x: int| #[trigger] tos.to_set().contains(x) implies vstd::set_lib::set_int_range(1, keys.len() as int).contains(x) by {
        let i = choose|i: int| 0 <= i < tos.len() && tos[i] == x;
        assert(!init[es[i].to as int]);
    }
    vstd::set_lib::lemma_int_range(1, keys.len() as int);
    vstd::set_lib::lemma_len_subset(tos.to_set(), vstd::set_lib::set_int_range(1, keys.len() as int));
}

/// Law (cut property): each edge Prim's algorithm adds is the lightest edge
/// leaving the vertices reached before it (ties broken by source, then
/// target), and when it stops no edge leaves the reached vertices: the tree
/// spans the component of vertex `0`.
pub proof fn lemma_prim_edges_greedy(keys: Seq<Vec<Option<u64>>>)
    requires
        square_keys(keys),
        0 < keys.len() <= usize::MAX,
    ensures
        forall|k: int|
            0 <= k < prim_edges(keys).len() ==> #[trigger] lightest_crossing(
                keys,
                reached_after(start_tree(keys.len()), prim_edges(keys), k),
                prim_edges(keys)[k].from as int,
                prim_edges(keys)[k].to as int,
            ),
        forall|f: int, t: int|
            !#[trigger] crossing(
                keys,
                reached_after(start_tree(keys.len()), prim_edges(keys), prim_edges(keys).len() as int),
                f,
                t,
            ),
{
    let init = start_tree(keys.len());
    lemma_prim_from_grows(keys, init, keys.len());
    lemma_grown_tree_size(keys, prim_edges(keys));
    lemma_prim_from_greedy(keys, init, keys.len());
}

/// Growing a tree only adds vertices: `reached_after` keeps the length of
/// `in_tree` and every vertex already in it.
pub(crate) proof fn lemma_reached_after_grows(keys: Seq<Vec<Option<u64>>>, in_tree: Seq<bool>, es: Seq<TreeEdge>, k: int)
    requires
        in_tree.len() == keys.len(),
        grows_tree(keys, in_tree, es),
        0 <= k <= es.len(),
    ensures
        reached_after(in_tree, es, k).len() == in_tree.len(),
        forall|v: int| 0 <= v < in_tree.len() && in_tree[v] ==> #[trigger] reached_after(in_tree, es, k)[v],
    decreases k,
{
    if k > 0 {
        lemma_reached_after_grows(keys, in_tree, es, k - 1);
        assert(es[k - 1].to < keys.len());
    }
}

/// In a tree grown from `in_tree`, the first edge (in listing order) that
/// brings in a vertex outside a larger tree `s` leaves `s`: some edge up to
/// index `i` crosses out of `s` when edge `i` brings in a vertex outside it.
pub(crate) proof fn lemma_first_leaving(
    keys: Seq<Vec<Option<u64>>>,
    in_tree: Seq<bool>,
    es: Seq<TreeEdge>,
    s: Seq<bool>,
    i: int,
)
    requires
        in_tree.len() == keys.len(),
        s.len() == keys.len(),
        grows_tree(keys, in_tree, es),
        forall|v: int| 0 <= v < in_tree.len() && in_tree[v] ==> #[trigger] s[v],
        0 <= i < es.len(),
        !s[es[i].to as int],
    ensures
        exists|j: int| 0 <= j <= i && #[trigger] crossing(keys, s, es[j].from as int, es[j].to as int),
    decreases i,
{
    let e = es[i];
    if s[e.from as int] {
        assert(crossing(keys, s, es[i].from as int, es[i].to as int));
    } else {
        assert(!in_tree[e.from as int]);
        let j = choose|j: int| 0 <= j < i && #[trigger] es[j].to == es[i].from;
        lemma_first_leaving(keys, in_tree, es, s, j);
    }
}

/// The key of an existing edge.
pub open spec fn edge_key(keys: Seq<Vec<Option<u64>>>, e: TreeEdge) -> u64 {
    keys[e.from as int]@[e.to as int]->0
}

/// Some edge of `es` has a key of at least `w`.
pub open spec fn has_edge_at_least(keys: Seq<Vec<Option<u64>>>, es: Seq<TreeEdge>, w: u64) -> bool {
    exists|i: int| 0 <= i < es.len() && w <= edge_key(keys, #[trigger] es[i])
}

/// Law (bottleneck): every spanning tree grown from vertex `0` over the same
/// keys has, for each edge Prim's algorithm adds, an edge at least as heavy.
/// So no spanning tree has a lighter heaviest edge than Prim's tree.
pub proof fn lemma_prim_edges_bottleneck(keys: Seq<Vec<Option<u64>>>, other: Seq<TreeEdge>)
    requires
        square_keys(keys),
        0 < keys.len() <= usize::MAX,
        grows_tree(keys, start_tree(keys.len()), other),
        forall|v: int| 0 < v < keys.len() ==> #[trigger] brought_in(other, v),
    ensures
        forall|k: int|
            0 <= k < prim_edges(keys).len() ==> has_edge_at_least(
                keys,
                other,
                edge_key(keys, #[trigger] prim_edges(keys)[k]),
            ),
{
    let init = start_tree(keys.len());
    let es = prim_edges(keys);
    lemma_prim_edges_greedy(keys);
    lemma_prim_edges_form_tree(keys);
    lemma_grown_tree_size(keys, es);
    assert forall|k: int| 0 <= k < es.len() implies has_edge_at_least(keys, other, edge_key(keys, #[trigger] es[k])) by {
        let s = reached_after(init, es, k);
        lemma_reached_after_grows(keys, init, es, k);
        assert(lightest_crossing(keys, s, es[k].from as int, es[k].to as int));
        let t = es[k].to as int;
        assert(init[0]);
        assert(s[0]);
        assert(brought_in(other, t));
        let i = choose|i: int| 0 <= i < other.len() && other[i].to == t;
        lemma_first_leaving(keys, init, other, s, i);
        let j = choose|j: int| 0 <= j <= i && #[trigger] crossing(keys, s, other[j].from as int, other[j].to as int);
        assert(crossing(keys, s, other[j].from as int, other[j].to as int));
        assert(edge_key(keys, es[k]) <= edge_key(keys, other[j]));
    }
}

/// Number of `true` entries.
pub open spec fn count_true(s: Seq<bool>) -> nat
    decreases s.len(),
{
    if s.len() == 0 {
        0
    } else {
        count_true(s.drop_last()) + (if s.last() { 1nat } else { 0nat })
    }
}

/// Marking one more entry `true` adds one to the count.
pub(crate) proof fn lemma_count_true_update(s: Seq<bool>, i: int)
    requires
        0 <= i < s.len(),
        !s[i],
    ensures
        count_true(s.update(i, true)) == count_true(s) + 1,
    decreases s.len(),
{
    let t = s.update(i, true);
    if i == s.len() - 1 {
        assert(t.drop_last() =~= s.drop_last());
    } else {
        assert(t.drop_last() =~= s.drop_last().update(i, true));
        lemma_count_true_update(s.drop_last(), i);
    }
}

proof fn lemma_count_true_bound(s: Seq<bool>, i: int)
    requires
        0 <= i < s.len(),
        !s[i],
    ensures
        count_true(s) < s.len(),
    decreases s.len(),
{
    lemma_count_true_le(s.drop_last());
    if i < s.len() - 1 {
        lemma_count_true_bound(s.drop_last(), i);
    }
}

/// The count is at most the length.
pub(crate) proof fn lemma_count_true_le(s: Seq<bool>)
    ensures
        count_true(s) <= s.len(),
    decreases s.len(),
{
    if s.len() > 0 {
        lemma_count_true_le(s.drop_last());
    }
}

proof fn lemma_lightest_unique(keys: Seq<Vec<Option<u64>>>, in_tree: Seq<bool>, f: int, t: int)
    requires
        lightest_crossing(keys, in_tree, f, t),
    ensures
        (choose|f2: int, t2: int| lightest_crossing(keys, in_tree, f2, t2)) == (f, t),
{
    let (f2, t2) = choose|f2: int, t2: int| lightest_crossing(keys, in_tree, f2, t2);
    assert(lightest_crossing(keys, in_tree, f2, t2));
    if f2 != f || t2 != t {
        assert(crossing(keys, in_tree, f2, t2));
        assert(crossing(keys, in_tree, f, t));
        assert(triple_lt(keys[f]@[t]->0, f, t, keys[f2]@[t2]->0, f2, t2));
        assert(triple_lt(keys[f2]@[t2]->0, f2, t2, keys[f]@[t]->0, f, t));
    }
}

/// The best known edge into each vertex outside the tree: `linked[v]` exactly
/// when some tree vertex linked an edge to `v`, and then `(w[v], src[v])` is the
/// least `(key, source)` over those edges.
pub open spec fn best_edges_ok(
    keys: Seq<Vec<Option<u64>>>,
    in_tree: Seq<bool>,
    linked: Seq<bool>,
    w: Seq<u64>,
    src: Seq<usize>,
) -> bool {
    let n = in_tree.len();
    &&& linked.len() == n && w.len() == n && src.len() == n
    &&& n <= usize::MAX
    &&& forall|v: int|
        0 <= v < n && !in_tree[v] ==> (#[trigger] linked[v] <==> exists|f: int| #[trigger] crossing(keys, in_tree, f, v))
    &&& forall|v: int|
        0 <= v < n && !in_tree[v] && #[trigger] linked[v] ==> 0 <= src[v] < n && in_tree[src[v] as int]
            && keys[src[v] as int]@[v] == Some(w[v])
    &&& forall|v: int, f: int|
        0 <= v < n && !in_tree[v] && linked[v] && #[trigger] crossing(keys, in_tree, f, v) ==> (w[v] < keys[f]@[v]->0
            || (w[v] == keys[f]@[v]->0 && src[v] <= f))
}

/// Prim's algorithm from vertex `0`: the edges in the order they join the tree.
pub fn prim_tree(keys: &Vec<Vec<Option<u64>>>) -> (edges: Vec<TreeEdge>)
    requires
        square_keys(keys@),
    ensures
        edges@ == prim_edges(keys@),
        forall|i: int|
            0 <= i < edges.len() ==> #[trigger] edges@[i].from < keys.len() && edges@[i].to < keys.len()
                && keys@[edges@[i].from as int]@[edges@[i].to as int] is Some,
        keys.len() > 0 && complete_keys(keys@) ==> edges.len() == keys.len() - 1,
        complete_keys(keys@) ==> forall|u: int| 0 < u < keys.len() ==> #[trigger] brought_in(edges@, u),
{
    let n = keys.len();
    let mut edges: Vec<TreeEdge> = Vec::new();
    if n == 0 {
        return edges;
    }
    let mut in_tree: Vec<bool> = Vec::new();
    let mut linked: Vec<bool> = Vec::new();
    let mut w: Vec<u64> = Vec::new();
    let mut src: Vec<usize> = Vec::new();
    let mut v: usize = 0;
    while v < n
        invariant
            n == keys.len(),
            n > 0,
            square_keys(keys@),
            v <= n,
            in_tree.len() == v && linked.len() == v && w.len() == v && src.len() == v,
            forall|u: int| 0 <= u < v ==> #[trigger] in_tree@[u] == (u == 0),
            forall|u: int| 0 <= u < v && u != 0 ==> (#[trigger] linked@[u] <==> keys@[0]@[u] is Some),
            forall|u: int| 0 <= u < v && u != 0 && #[trigger] linked@[u] ==> src@[u] == 0 && keys@[0]@[u] == Some(w@[u]),
        decreases n - v,
    {
        in_tree.push(v == 0);
        proof {
            assert(keys@[0].len() >= n);
        }
        if v != 0 {
            match keys[0][v] {
                Some(k) => {
                    linked.push(true);
                    w.push(k);
                    src.push(0);
                },
                None => {
                    linked.push(false);
                    w.push(0);
                    src.push(0);
                },
            }
        } else {
            linked.push(false);
            w.push(0);
            src.push(0);
        }
        v = v + 1;
    }
    proof {
        assert(in_tree@ =~= Seq::new(n as nat, |i: int| i == 0));
        assert forall|u: int| 0 <= u < n && !in_tree@[u] implies (#[trigger] linked@[u] <==> exists|f: int| #[trigger] crossing(keys@, in_tree@, f, u)) by {
            if linked@[u] {
                assert(crossing(keys@, in_tree@, 0, u));
            }
            if exists|f: int| #[trigger] crossing(keys@, in_tree@, f, u) {
                let f = choose|f: int| #[trigger] crossing(keys@, in_tree@, f, u);
                assert(in_tree@[f]);
            }
        }
        assert forall|u: int, f: int|
            0 <= u < n && !in_tree@[u] && linked@[u] && #[trigger] crossing(keys@, in_tree@, f, u) implies (w@[u] < keys@[f]@[u]->0
                || (w@[u] == keys@[f]@[u]->0 && src@[u] <= f)) by {
            assert(in_tree@[f]);
        }
        let t0 = in_tree@;
        assert(count_true(t0) == 1) by {
            lemma_count_single(n as int);
        }
    }
    loop
        invariant_except_break
            n == keys.len(),
            n > 0,
            square_keys(keys@),
            in_tree.len() == n,
            in_tree@[0],
            best_edges_ok(keys@, in_tree@, linked@, w@, src@),
            count_true(in_tree@) == edges.len() + 1,
            prim_edges(keys@) == edges@ + prim_from(keys@, in_tree@, (n - edges.len()) as nat),
            forall|i: int|
                0 <= i < edges.len() ==> #[trigger] edges@[i].from < keys.len() && edges@[i].to < keys.len()
                    && keys@[edges@[i].from as int]@[edges@[i].to as int] is Some,
            forall|u: int| 0 < u < n && #[trigger] in_tree@[u] ==> brought_in(edges@, u),
        ensures
            edges@ == prim_edges(keys@),
            forall|i: int|
                0 <= i < edges.len() ==> #[trigger] edges@[i].from < keys.len() && edges@[i].to < keys.len()
                    && keys@[edges@[i].from as int]@[edges@[i].to as int] is Some,
            complete_keys(keys@) ==> edges.len() == keys.len() - 1,
            complete_keys(keys@) ==> forall|u: int| 0 < u < n ==> #[trigger] brought_in(edges@, u),
        decreases n - edges.len(),
    {
        // pick the lightest edge leaving the tree
        let mut found = false;
        let mut bt: usize = 0;
        let mut u: usize = 0;
        while u < n
            invariant
                n == keys.len(),
                in_tree.len() == n,
                in_tree@[0],
                best_edges_ok(keys@, in_tree@, linked@, w@, src@),
                u <= n,
                found ==> bt < u && !in_tree@[bt as int] && linked@[bt as int],
                found ==> forall|x: int|
                    0 <= x < u && !in_tree@[x] && #[trigger] linked@[x] && x != bt ==> triple_lt(
                        w@[bt as int],
                        src@[bt as int] as int,
                        bt as int,
                        w@[x],
                        src@[x] as int,
                        x,
                    ),
                !found ==> forall|x: int| 0 <= x < u && !in_tree@[x] ==> !#[trigger] linked@[x],
            decreases n - u,
        {
            if !in_tree[u] && linked[u] {
                if !found || w[u] < w[bt] || (w[u] == w[bt] && src[u] < src[bt]) {
                    found = true;
                    bt = u;
                }
            }
            u = u + 1;
        }
        if !found {
            proof {
                assert forall|f: int, t: int| !lightest_crossing(keys@, in_tree@, f, t) by {
                    if crossing(keys@, in_tree@, f, t) {
                        assert(linked@[t]);
                    }
                }
                assert(prim_from(keys@, in_tree@, (n - edges.len()) as nat) =~= seq![]);
                assert(edges@ =~= edges@ + seq![]);
                if complete_keys(keys@) {
                    assert forall|t: int| 0 <= t < n implies #[trigger] in_tree@[t] by {
                        if !in_tree@[t] {
                            assert(crossing(keys@, in_tree@, 0, t));
                            assert(linked@[t]);
                        }
                    }
                    lemma_count_all_true(in_tree@);
                    assert forall|u: int| 0 < u < n implies #[trigger] brought_in(edges@, u) by {
                        assert(in_tree@[u]);
                    }
                }
            }
            break;
        }
        let bf = src[bt];
        let ghost old_tree = in_tree@;
        let ghost old_edges = edges@;
        proof {
            lemma_chosen_is_lightest(keys@, in_tree@, linked@, w@, src@, bt as int);
            lemma_lightest_unique(keys@, in_tree@, bf as int, bt as int);
            lemma_count_true_bound(in_tree@, bt as int);
            lemma_count_true_update(in_tree@, bt as int);
            let fuel = (n - edges.len()) as nat;
            assert(fuel > 0);
            assert(prim_from(keys@, in_tree@, fuel) == seq![TreeEdge { from: bf, to: bt }] + prim_from(
                keys@,
                in_tree@.update(bt as int, true),
                (fuel - 1) as nat,
            ));
        }
        let ghost edges_before = edges@;
        edges.push(TreeEdge { from: bf, to: bt });
        in_tree.set(bt, true);
        proof {
            assert forall|u: int| 0 < u < n && #[trigger] in_tree@[u] implies brought_in(edges@, u) by {
                if u == bt as int {
                    assert(edges@[edges.len() - 1].to == bt);
                } else {
                    assert(old_tree[u]);
                    assert(brought_in(edges_before, u));
                    let i = choose|i: int| 0 <= i < edges_before.len() && edges_before[i].to == u;
                    assert(edges@[i] == edges_before[i]);
                }
            }
        }
        proof {
            assert(edges@ + prim_from(keys@, in_tree@, (n - edges.len()) as nat) =~= old_edges + (
            seq![TreeEdge { from: bf, to: bt }] + prim_from(keys@, in_tree@, (n - edges.len()) as nat)));
        }
        // offer the edges of the new vertex
        let mut j: usize = 0;
        proof {
            lemma_offer_start(keys@, old_tree, in_tree@, linked@, w@, src@, bt as int);
        }
        while j < n
            invariant
                n == keys.len(),
                square_keys(keys@),
                in_tree.len() == n,
                in_tree@[0],
                bt < n,
                in_tree@ == old_tree.update(bt as int, true),
                j <= n,
                offered(keys@, in_tree@, linked@, w@, src@, bt as int, j as int),
            decreases n - j,
        {
            let ghost (l0, w0, s0) = (linked@, w@, src@);
            if !in_tree[j] {
                proof {
                    assert(keys@[bt as int].len() >= n);
                }
                match keys[bt][j] {
                    Some(k) => {
                        if !linked[j] || k < w[j] || (k == w[j] && bt < src[j]) {
                            linked.set(j, true);
                            w.set(j, k);
                            src.set(j, bt);
                            proof {
                                lemma_offer_take(keys@, in_tree@, l0, w0, s0, bt as int, j as int);
                            }
                        } else {
                            proof {
                                lemma_offer_keep(keys@, in_tree@, linked@, w@, src@, bt as int, j as int);
                            }
                        }
                    },
                    None => {
                        proof {
                            lemma_offer_keep(keys@, in_tree@, linked@, w@, src@, bt as int, j as int);
                        }
                    },
                }
            } else {
                proof {
                    lemma_offer_keep(keys@, in_tree@, linked@, w@, src@, bt as int, j as int);
                }
            }
            j = j + 1;
        }
        proof {
            assert(offered(keys@, in_tree@, linked@, w@, src@, bt as int, n as int));
            assert(best_edges_ok(keys@, in_tree@, linked@, w@, src@));
        }
    }
    edges
}

proof fn lemma_count_single(n: int)
    requires
        n > 0,
    ensures
        count_true(Seq::new(n as nat, |i: int| i == 0)) == 1,
    decreases n,
{
    let s = Seq::new(n as nat, |i: int| i == 0);
    if n == 1 {
        assert(s.drop_last() =~= seq![]);
        assert(count_true(s.drop_last()) == 0);
        assert(s.last());
    } else {
        assert(s.drop_last() =~= Seq::new((n - 1) as nat, |i: int| i == 0));
        assert(!s.last());
        lemma_count_single(n - 1);
    }
}

/// While the edges of the new tree vertex `bt` are offered: the best-edge
/// records account for all tree edges except those from `bt` to vertices `>= j`.
pub open spec fn offered(
    keys: Seq<Vec<Option<u64>>>,
    in_tree: Seq<bool>,
    linked: Seq<bool>,
    w: Seq<u64>,
    src: Seq<usize>,
    bt: int,
    j: int,
) -> bool {
    let n = in_tree.len();
    &&& linked.len() == n && w.len() == n && src.len() == n
    &&& n <= usize::MAX
    &&& 0 <= bt < n
    &&& in_tree[bt]
    &&& forall|v: int|
        0 <= v < n && !in_tree[v] ==> (#[trigger] linked[v] <==> exists|f: int|
            #[trigger] crossing(keys, in_tree, f, v) && (f != bt || v < j))
    &&& forall|v: int|
        0 <= v < n && !in_tree[v] && #[trigger] linked[v] ==> 0 <= src[v] < n && in_tree[src[v] as int]
            && keys[src[v] as int]@[v] == Some(w[v])
    &&& forall|v: int, f: int|
        0 <= v < n && !in_tree[v] && linked[v] && #[trigger] crossing(keys, in_tree, f, v) && (f != bt || v < j)
            ==> (w[v] < keys[f]@[v]->0 || (w[v] == keys[f]@[v]->0 && src[v] <= f))
}

proof fn lemma_offer_start(
    keys: Seq<Vec<Option<u64>>>,
    old_tree: Seq<bool>,
    in_tree: Seq<bool>,
    linked: Seq<bool>,
    w: Seq<u64>,
    src: Seq<usize>,
    bt: int,
)
    requires
        best_edges_ok(keys, old_tree, linked, w, src),
        0 <= bt < old_tree.len(),
        !old_tree[bt],
        in_tree == old_tree.update(bt, true),
    ensures
        offered(keys, in_tree, linked, w, src, bt, 0),
{
    let n = in_tree.len();
    assert forall|v: int| 0 <= v < n && !in_tree[v] implies (#[trigger] linked[v] <==> exists|f: int|
        #[trigger] crossing(keys, in_tree, f, v) && (f != bt || v < 0)) by {
        assert(!old_tree[v]);
        if linked[v] {
            let f = choose|f: int| #[trigger] crossing(keys, old_tree, f, v);
            assert(crossing(keys, in_tree, f, v) && f != bt);
        }
        if exists|f: int| #[trigger] crossing(keys, in_tree, f, v) && (f != bt || v < 0) {
            let f = choose|f: int| #[trigger] crossing(keys, in_tree, f, v) && (f != bt || v < 0);
            assert(crossing(keys, old_tree, f, v));
        }
    }
    assert forall|v: int|
        0 <= v < n && !in_tree[v] && #[trigger] linked[v] implies 0 <= src[v] < n && in_tree[src[v] as int]
            && keys[src[v] as int]@[v] == Some(w[v]) by {
        assert(!old_tree[v]);
    }
    assert forall|v: int, f: int|
        0 <= v < n && !in_tree[v] && linked[v] && #[trigger] crossing(keys, in_tree, f, v) && (f != bt || v < 0)
            implies (w[v] < keys[f]@[v]->0 || (w[v] == keys[f]@[v]->0 && src[v] <= f)) by {
        assert(crossing(keys, old_tree, f, v));
    }
}

proof fn lemma_offer_keep(
    keys: Seq<Vec<Option<u64>>>,
    in_tree: Seq<bool>,
    linked: Seq<bool>,
    w: Seq<u64>,
    src: Seq<usize>,
    bt: int,
    j: int,
)
    requires
        offered(keys, in_tree, linked, w, src, bt, j),
        0 <= j < in_tree.len(),
        in_tree[j] || keys[bt]@[j] is None || (linked[j] && !(keys[bt]@[j]->0 < w[j] || (keys[bt]@[j]->0 == w[j]
            && bt < src[j]))),
    ensures
        offered(keys, in_tree, linked, w, src, bt, j + 1),
{
    let n = in_tree.len();
    assert forall|v: int| 0 <= v < n && !in_tree[v] implies (#[trigger] linked[v] <==> exists|f: int|
        #[trigger] crossing(keys, in_tree, f, v) && (f != bt || v < j + 1)) by {
        if v == j && !linked[v] {
            if exists|f: int| #[trigger] crossing(keys, in_tree, f, v) && (f != bt || v < j + 1) {
                let f = choose|f: int| #[trigger] crossing(keys, in_tree, f, v) && (f != bt || v < j + 1);
                assert(f == bt);
            }
        }
        if linked[v] {
            let f = choose|f: int| #[trigger] crossing(keys, in_tree, f, v) && (f != bt || v < j);
            assert(crossing(keys, in_tree, f, v) && (f != bt || v < j + 1));
        }
    }
}

proof fn lemma_offer_take(
    keys: Seq<Vec<Option<u64>>>,
    in_tree: Seq<bool>,
    linked: Seq<bool>,
    w: Seq<u64>,
    src: Seq<usize>,
    bt: int,
    j: int,
)
    requires
        offered(keys, in_tree, linked, w, src, bt, j),
        0 <= j < in_tree.len(),
        !in_tree[j],
        keys[bt]@[j] is Some,
        !linked[j] || keys[bt]@[j]->0 < w[j] || (keys[bt]@[j]->0 == w[j] && bt < src[j]),
    ensures
        offered(
            keys,
            in_tree,
            linked.update(j, true),
            w.update(j, keys[bt]@[j]->0),
            src.update(j, bt as usize),
            bt,
            j + 1,
        ),
{
    let n = in_tree.len();
    let l2 = linked.update(j, true);
    let w2 = w.update(j, keys[bt]@[j]->0);
    let s2 = src.update(j, bt as usize);
    assert(crossing(keys, in_tree, bt, j));
    assert forall|v: int| 0 <= v < n && !in_tree[v] implies (#[trigger] l2[v] <==> exists|f: int|
        #[trigger] crossing(keys, in_tree, f, v) && (f != bt || v < j + 1)) by {
        if v != j {
            if linked[v] {
                let f = choose|f: int| #[trigger] crossing(keys, in_tree, f, v) && (f != bt || v < j);
                assert(crossing(keys, in_tree, f, v) && (f != bt || v < j + 1));
            }
            if exists|f: int| #[trigger] crossing(keys, in_tree, f, v) && (f != bt || v < j + 1) {
                let f = choose|f: int| #[trigger] crossing(keys, in_tree, f, v) && (f != bt || v < j + 1);
                assert(crossing(keys, in_tree, f, v) && (f != bt || v < j));
            }
        } else {
            assert(crossing(keys, in_tree, bt, v) && (bt != bt || v < j + 1));
        }
    }
    assert forall|v: int|
        0 <= v < n && !in_tree[v] && #[trigger] l2[v] implies 0 <= s2[v] < n && in_tree[s2[v] as int]
            && keys[s2[v] as int]@[v] == Some(w2[v]) by {
        if v != j {
            assert(linked[v]);
        } else {
            assert(s2[v] as int == bt);
        }
    }
    assert forall|v: int, f: int|
        0 <= v < n && !in_tree[v] && l2[v] && #[trigger] crossing(keys, in_tree, f, v) && (f != bt || v < j + 1)
            implies (w2[v] < keys[f]@[v]->0 || (w2[v] == keys[f]@[v]->0 && s2[v] <= f)) by {
        if v != j {
            assert(linked[v]);
        } else if f != bt {
            if linked[j] {
                assert(w[j] < keys[f]@[j]->0 || (w[j] == keys[f]@[j]->0 && src[j] <= f));
            } else {
                assert(exists|f2: int| #[trigger] crossing(keys, in_tree, f2, j) && (f2 != bt || j < j)) by {
                    assert(crossing(keys, in_tree, f, j) && (f != bt || j < j));
                }
            }
        }
    }
}

proof fn lemma_chosen_is_lightest(
    keys: Seq<Vec<Option<u64>>>,
    in_tree: Seq<bool>,
    linked: Seq<bool>,
    w: Seq<u64>,
    src: Seq<usize>,
    bt: int,
)
    requires
        best_edges_ok(keys, in_tree, linked, w, src),
        0 <= bt < in_tree.len(),
        !in_tree[bt],
        linked[bt],
        forall|x: int|
            0 <= x < in_tree.len() && !in_tree[x] && #[trigger] linked[x] && x != bt ==> triple_lt(
                w[bt],
                src[bt] as int,
                bt,
                w[x],
                src[x] as int,
                x,
            ),
    ensures
        lightest_crossing(keys, in_tree, src[bt] as int, bt),
{
    let bf = src[bt] as int;
    assert forall|f2: int, t2: int|
        #[trigger] crossing(keys, in_tree, f2, t2) && (f2 != bf || t2 != bt) implies triple_lt(
        keys[bf]@[bt]->0,
        bf,
        bt,
        keys[f2]@[t2]->0,
        f2,
        t2,
    ) by {
        assert(linked[t2]);
        if t2 != bt {
            assert(triple_lt(w[bt], bf, bt, w[t2], src[t2] as int, t2));
        }
    }
}

/// `(w[a], a)` precedes `(w[b], b)`: lighter first, ties in the given order.
pub open spec fn precedes(w: Seq<u64>, a: int, b: int) -> bool {
    w[a] < w[b] || (w[a] == w[b] && a < b)
}

/// Number of indices `j < k` that precede `i`.
pub open spec fn rank_below(w: Seq<u64>, i: int, k: int) -> nat
    decreases k,
{
    if k <= 0 {
        0
    } else {
        rank_below(w, i, k - 1) + (if precedes(w, k - 1, i) { 1nat } else { 0nat })
    }
}

/// Position of entry `i` once the entries are stably sorted by weight.
pub open spec fn sorted_position(w: Seq<u64>, i: int) -> nat {
    rank_below(w, i, w.len() as int)
}

proof fn lemma_rank_bound(w: Seq<u64>, i: int, k: int)
    requires
        0 <= i < w.len(),
        0 <= k <= w.len(),
    ensures
        rank_below(w, i, k) <= k,
        k > i ==> rank_below(w, i, k) < k,
    decreases k,
{
    if k > 0 {
        lemma_rank_bound(w, i, k - 1);
    }
}

proof fn lemma_rank_monotone(w: Seq<u64>, a: int, b: int, k: int)
    requires
        0 <= a < w.len(),
        0 <= b < w.len(),
        precedes(w, a, b),
        0 <= k <= w.len(),
    ensures
        rank_below(w, b, k) >= rank_below(w, a, k) + (if a < k { 1int } else { 0int }),
    decreases k,
{
    if k > 0 {
        lemma_rank_monotone(w, a, b, k - 1);
    }
}

/// Law: stable sorting by weight places entries that precede one another in
/// increasing positions, so distinct entries get distinct positions.
pub proof fn lemma_sorted_position_order(w: Seq<u64>, a: int, b: int)
    requires
        0 <= a < w.len(),
        0 <= b < w.len(),
        precedes(w, a, b),
    ensures
        sorted_position(w, a) < sorted_position(w, b) < w.len(),
{
    lemma_rank_monotone(w, a, b, w.len() as int);
    lemma_rank_bound(w, b, w.len() as int);
}

/// Law: a strictly lighter entry comes strictly earlier once sorted.
pub proof fn lemma_lighter_first(w: Seq<u64>, i: int, j: int)
    requires
        0 <= i < w.len(),
        0 <= j < w.len(),
        w[i] < w[j],
    ensures
        sorted_position(w, i) < sorted_position(w, j),
{
    lemma_sorted_position_order(w, i, j);
}

/// Law: entries of equal weight keep their order once sorted (the sort is stable).
pub proof fn lemma_equal_keep_order(w: Seq<u64>, i: int, j: int)
    requires
        0 <= i < j < w.len(),
        w[i] == w[j],
    ensures
        sorted_position(w, i) < sorted_position(w, j),
{
    lemma_sorted_position_order(w, i, j);
}

/// `sorted` is `edges` reordered (position `p` holds `edges[src[p]]`, each
/// entry used once) so that the weights never decrease along it, entries of
/// equal weight keeping their order.
pub open spec fn sorted_by(w: Seq<u64>, edges: Seq<TreeEdge>, sorted: Seq<TreeEdge>, src: Seq<int>) -> bool {
    &&& w.len() == edges.len()
    &&& sorted.len() == edges.len()
    &&& src.len() == edges.len()
    &&& forall|p: int| 0 <= p < src.len() ==> 0 <= #[trigger] src[p] < edges.len() && sorted[p] == edges[src[p]]
    &&& forall|p: int, q: int| 0 <= p < q < src.len() ==> #[trigger] src[p] != #[trigger] src[q]
    &&& forall|p: int, q: int| 0 <= p < q < src.len() ==> w[#[trigger] src[p]] <= w[#[trigger] src[q]]
    &&& forall|p: int, q: int|
        0 <= p < q < src.len() && w[#[trigger] src[p]] == w[#[trigger] src[q]] ==> src[p] < src[q]
}

/// Every position below `w.len()` is the sorted position of some entry.
proof fn lemma_sorted_position_onto(w: Seq<u64>, p: int)
    requires
        0 <= p < w.len(),
    ensures
        exists|i: int| 0 <= i < w.len() && #[trigger] sorted_position(w, i) == p,
{
    let n = w.len() as int;
    let x = vstd::set_lib::set_int_range(0, n);
    let f = |i: int| sorted_position(w, i) as int;
    let y = x.map(f);
    vstd::set_lib::lemma_int_range(0, n);
    assert forall|a: int, b: int| x.contains(a) && x.contains(b) && #[trigger] f(a) == #[trigger] f(b) implies a == b by {
        if a != b {
            if precedes(w, a, b) {
                lemma_sorted_position_order(w, a, b);
            } else {
                lemma_sorted_position_order(w, b, a);
            }
        }
    }
    assert(vstd::relations::injective_on(f, x));
    vstd::set_lib::lemma_map_size(x, y, f);
    if !y.contains(p) {
        let rest = x.remove(p);
        assert forall|c: int| y.contains(c) implies #[trigger] rest.contains(c) by {
            let i = choose|i: int| x.contains(i) && f(i) == c;
            lemma_rank_bound(w, i, n);
        }
        vstd::set_lib::lemma_len_subset(y, rest);
    } else {
        let i = choose|i: int| x.contains(i) && f(i) == p;
        assert(sorted_position(w, i) == p);
    }
}

/// Stable sort of `edges` by `weights` (one weight per edge): entry `i`
/// lands at position `sorted_position(weights, i)`, and the weights never
/// decrease along the result.
pub fn sort_by_weight(edges: &Vec<TreeEdge>, weights: &Vec<u64>) -> (sorted: Vec<TreeEdge>)
    requires
        weights.len() == edges.len(),
    ensures
        sorted.len() == edges.len(),
        forall|i: int| 0 <= i < edges.len() ==> sorted@[#[trigger] sorted_position(weights@, i) as int] == edges@[i],
        exists|src: Seq<int>| #[trigger] sorted_by(weights@, edges@, sorted@, src),
{
    let m = edges.len();
    let mut sorted: Vec<TreeEdge> = edges.clone();
    let mut i: usize = 0;
    while i < m
        invariant
            m == edges.len(),
            weights.len() == m,
            sorted.len() == m,
            i <= m,
            forall|k: int| 0 <= k < i ==> sorted@[#[trigger] sorted_position(weights@, k) as int] == edges@[k],
        decreases m - i,
    {
        let mut r: usize = 0;
        let mut j: usize = 0;
        while j < m
            invariant
                m == edges.len(),
                weights.len() == m,
                i < m,
                j <= m,
                r == rank_below(weights@, i as int, j as int),
                r <= j,
            decreases m - j,
        {
            if weights[j] < weights[i] || (weights[j] == weights[i] && j < i) {
                r = r + 1;
            }
            j = j + 1;
        }
        proof {
            lemma_rank_bound(weights@, i as int, m as int);
            assert forall|k: int| 0 <= k < i implies #[trigger] sorted_position(weights@, k) != sorted_position(
                weights@,
                i as int,
            ) by {
                if precedes(weights@, k, i as int) {
                    lemma_sorted_position_order(weights@, k, i as int);
                } else {
                    lemma_sorted_position_order(weights@, i as int, k);
                }
            }
        }
        let ghost before = sorted@;
        sorted.set(r, edges[i]);
        proof {
            assert forall|k: int| 0 <= k < i + 1 implies sorted@[#[trigger] sorted_position(weights@, k) as int]
                == edges@[k] by {
                if k < i {
                    assert(before[sorted_position(weights@, k) as int] == edges@[k]);
                    lemma_rank_bound(weights@, k, m as int);
                    assert(sorted_position(weights@, k) != r);
                } else {
                    assert(sorted_position(weights@, k) == r);
                }
            }
        }
        i = i + 1;
    }
    proof {
        let w = weights@;
        let src = Seq::new(m as nat, |p: int| choose|i: int| 0 <= i < m && #[trigger] sorted_position(w, i) == p);
        assert forall|p: int| 0 <= p < src.len() implies 0 <= #[trigger] src[p] < edges.len() && sorted@[p]
            == edges@[src[p]] by {
            lemma_sorted_position_onto(w, p);
            assert(sorted_position(w, src[p]) == p);
        }
        assert forall|p: int, q: int| 0 <= p < q < src.len() implies #[trigger] src[p] != #[trigger] src[q] by {
            lemma_sorted_position_onto(w, p);
            lemma_sorted_position_onto(w, q);
            assert(sorted_position(w, src[p]) == p);
            assert(sorted_position(w, src[q]) == q);
        }
        assert forall|p: int, q: int| 0 <= p < q < src.len() implies w[#[trigger] src[p]] <= w[#[trigger] src[q]] by {
            lemma_sorted_position_onto(w, p);
            lemma_sorted_position_onto(w, q);
            assert(sorted_position(w, src[p]) == p);
            assert(sorted_position(w, src[q]) == q);
            if w[src[q]] < w[src[p]] {
                lemma_lighter_first(w, src[q], src[p]);
            }
        }
        assert forall|p: int, q: int| 0 <= p < q < src.len() && w[#[trigger] src[p]] == w[#[trigger] src[q]]
            implies src[p] < src[q] by {
            lemma_sorted_position_onto(w, p);
            lemma_sorted_position_onto(w, q);
            assert(sorted_position(w, src[p]) == p);
            assert(sorted_position(w, src[q]) == q);
            if src[q] < src[p] {
                lemma_equal_keep_order(w, src[q], src[p]);
            }
        }
        assert(sorted_by(w, edges@, sorted@, src));
    }
    sorted
}

/// Weight of every edge: the key of the matrix entry it comes from.
pub open spec fn edge_weights(keys: Seq<Vec<Option<u64>>>, edges: Seq<TreeEdge>) -> Seq<u64> {
    Seq::new(edges.len(), |i: int| keys[edges[i].from as int]@[edges[i].to as int]->0)
}

/// The key of each edge of Prim's tree, in the order the edges are added.
pub open spec fn prim_keys(keys: Seq<Vec<Option<u64>>>) -> Seq<u64> {
    Seq::new(prim_edges(keys).len(), |i: int| edge_key(keys, prim_edges(keys)[i]))
}

/// Minimum spanning tree of the component of vertex `0`, built by Prim's
/// algorithm and then stably sorted by edge key.
pub fn from_key_matrix(keys: &Vec<Vec<Option<u64>>>) -> (edges: Vec<TreeEdge>)
    requires
        square_keys(keys@),
    ensures
        edges.len() == prim_edges(keys@).len(),
        keys.len() > 0 && complete_keys(keys@) ==> edges.len() == keys.len() - 1,
        forall|i: int|
            0 <= i < edges.len() ==> edges@[#[trigger] sorted_position(
                edge_weights(keys@, prim_edges(keys@)),
                i,
            ) as int] == prim_edges(keys@)[i],
        complete_keys(keys@) ==> forall|u: int| 0 < u < keys.len() ==> #[trigger] brought_in(edges@, u),
        forall|a: int|
            0 <= a < edges.len() ==> (#[trigger] edges@[a]).from < keys.len() && edges@[a].to < keys.len()
                && keys@[edges@[a].from as int]@[edges@[a].to as int] is Some,
        forall|a: int, b: int|
            0 <= a < b < edges.len() ==> edge_key(keys@, #[trigger] edges@[a]) <= edge_key(keys@, #[trigger] edges@[b]),
        exists|src: Seq<int>|
            #[trigger] sorted_by(
                prim_keys(keys@),
                prim_edges(keys@),
                edges@,
                src,
            ),
{
    let tree = prim_tree(keys);
    let mut weights: Vec<u64> = Vec::new();
    let mut i: usize = 0;
    while i < tree.len()
        invariant
            tree@ == prim_edges(keys@),
            forall|k: int|
                0 <= k < tree.len() ==> #[trigger] tree@[k].from < keys.len() && tree@[k].to < keys.len()
                    && keys@[tree@[k].from as int]@[tree@[k].to as int] is Some,
            square_keys(keys@),
            i <= tree.len(),
            weights.len() == i,
            forall|k: int| 0 <= k < i ==> #[trigger] weights@[k] == keys@[tree@[k].from as int]@[tree@[k].to as int]->0,
        decreases tree.len() - i,
    {
        let e = tree[i];
        proof {
            assert(tree@[i as int].from < keys.len());
            assert(keys@[e.from as int].len() >= keys.len());
        }
        let k = keys[e.from][e.to].unwrap();
        weights.push(k);
        i = i + 1;
    }
    assert(weights@ =~= edge_weights(keys@, prim_edges(keys@)));
    let sorted = sort_by_weight(&tree, &weights);
    proof {
        let src = choose|src: Seq<int>| #[trigger] sorted_by(weights@, tree@, sorted@, src);
        assert(sorted_by(weights@, tree@, sorted@, src));
        assert(weights@ =~= prim_keys(keys@));
        assert forall|a: int| 0 <= a < sorted.len() implies (#[trigger] sorted@[a]).from < keys.len()
            && sorted@[a].to < keys.len() && keys@[sorted@[a].from as int]@[sorted@[a].to as int] is Some by {
            assert(sorted@[a] == tree@[src[a]]);
        }
        assert forall|a: int, b: int| 0 <= a < b < sorted.len() implies edge_key(keys@, #[trigger] sorted@[a])
            <= edge_key(keys@, #[trigger] sorted@[b]) by {
            assert(sorted@[a] == tree@[src[a]]);
            assert(sorted@[b] == tree@[src[b]]);
            assert(weights@[src[a]] <= weights@[src[b]]);
            assert(weights@[src[a]] == edge_key(keys@, tree@[src[a]]));
            assert(weights@[src[b]] == edge_key(keys@, tree@[src[b]]));
        }
        if complete_keys(keys@) {
            assert forall|u: int| 0 < u < keys.len() implies #[trigger] brought_in(sorted@, u) by {
                assert(brought_in(tree@, u));
                let i = choose|i: int| 0 <= i < tree@.len() && tree@[i].to == u;
                lemma_rank_bound(weights@, i, weights.len() as int);
                assert(sorted@[sorted_position(weights@, i) as int] == tree@[i]);
            }
        }
    }
    sorted
}

proof fn lemma_count_all_true(s: Seq<bool>)
    requires
        forall|i: int| 0 <= i < s.len() ==> #[trigger] s[i],
    ensures
        count_true(s) == s.len(),
    decreases s.len(),
{
    if s.len() > 0 {
        assert forall|i: int| 0 <= i < s.drop_last().len() implies #[trigger] s.drop_last()[i] by {
            assert(s[i]);
        }
        lemma_count_all_true(s.drop_last());
        assert(s[s.len() - 1]);
    }
}

} // verus!
