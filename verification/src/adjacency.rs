//! DBSCAN cluster formation on a bit-packed adjacency matrix: row `i` holds
//! `n_blocks` words, and bit `j % 32` of word `j / 32` is set when point `j`
//! lies within `eps` of point `i`.

use vstd::prelude::*;
use crate::dbscan::{assign_clusters, count_core, valid_clustering, well_formed_graph, lemma_clustering_unique, lemma_valid_clustering_same_lists};
use crate::labels::ClusterResult;

verus! {

/// Bit `t` of `w`.
pub open spec fn bit_of(w: u32, t: int) -> bool {
    (w >> (t as u32)) & 1u32 == 1u32
}

/// Number of set bits among bits `0..k` of `w`.
pub open spec fn ones_below(w: u32, k: int) -> nat
    decreases k,
{
    if k <= 0 {
        0
    } else {
        ones_below(w, k - 1) + (if bit_of(w, k - 1) { 1nat } else { 0nat })
    }
}

/// Whether the adjacency matrix links point `i` to point `j`.
pub open spec fn adjacent(adj: Seq<u32>, n_blocks: int, i: int, j: int) -> bool {
    bit_of(adj[i * n_blocks + j / 32], j % 32)
}

/// Set bits in the first `b` words of row `i`, padding bits included.
pub open spec fn row_ones(adj: Seq<u32>, n_blocks: int, i: int, b: int) -> nat
    decreases b,
{
    if b <= 0 {
        0
    } else {
        row_ones(adj, n_blocks, i, b - 1) + ones_below(adj[i * n_blocks + b - 1], 32)
    }
}

/// `nb` lists, for every point, the points it is linked to, in increasing order.
pub open spec fn decoded_adjacency(adj: Seq<u32>, n: int, n_blocks: int, nb: Seq<Vec<usize>>) -> bool {
    &&& nb.len() == n
    &&& forall|i: int, x: usize|
        0 <= i < n ==> (#[trigger] nb[i]@.contains(x) <==> x < n && adjacent(adj, n_blocks, i, x as int))
    &&& forall|i: int, a: int, c: int|
        0 <= i < n && 0 <= a < c < nb[i].len() ==> #[trigger] nb[i]@[a] < #[trigger] nb[i]@[c]
}

/// Number of set bits of `w`.
pub fn count_ones_u32(w: u32) -> (c: u32)
    ensures
        c == ones_below(w, 32),
{
    let mut c: u32 = 0;
    let mut t: u32 = 0;
    while t < 32
        invariant
            t <= 32,
            c == ones_below(w, t as int),
            c <= t,
        decreases 32 - t,
    {
        if (w >> t) & 1u32 == 1u32 {
            c = c + 1;
        }
        t = t + 1;
    }
    c
}

proof fn lemma_row_index(i: int, n: int, n_blocks: int, b: int)
    requires
        0 <= i < n,
        0 <= b < n_blocks,
    ensures
        0 <= i * n_blocks + b < n * n_blocks,
        i * n_blocks + n_blocks <= n * n_blocks,
{
    vstd::arithmetic::mul::lemma_mul_inequality(i + 1, n, n_blocks);
    vstd::arithmetic::mul::lemma_mul_is_distributive_add(n_blocks, i, 1);
    vstd::arithmetic::mul::lemma_mul_nonnegative(i, n_blocks);
    assert(n_blocks * i == i * n_blocks) by (nonlinear_arith);
    assert(n_blocks * (i + 1) == (i + 1) * n_blocks) by (nonlinear_arith);
}

proof fn lemma_block_of(j: int, n: int, n_blocks: int)
    requires
        0 <= j < n,
        n_blocks == (n + 31) / 32,
    ensures
        0 <= j / 32 < n_blocks,
        0 <= j % 32 < 32,
{
    vstd::arithmetic::div_mod::lemma_div_is_ordered(j + 31, n + 31, 32);
    vstd::arithmetic::div_mod::lemma_fundamental_div_mod(j, 32);
    vstd::arithmetic::div_mod::lemma_fundamental_div_mod(j + 31, 32);
}

/// The points linked to point `i`, in increasing order; bits past `n_points`
/// are padding and are ignored.
pub fn row_neighbors(adjacency: &Vec<u32>, n_points: usize, n_blocks: usize, i: usize) -> (row: Vec<usize>)
    requires
        i < n_points,
        n_blocks == (n_points + 31) / 32,
        n_points * n_blocks <= adjacency.len(),
    ensures
        forall|x: usize| #[trigger] row@.contains(x) <==> x < n_points && adjacent(adjacency@, n_blocks as int, i as int, x as int),
        forall|a: int, c: int| 0 <= a < c < row.len() ==> #[trigger] row@[a] < #[trigger] row@[c],
{
    let mut row: Vec<usize> = Vec::new();
    let mut j: usize = 0;
    while j < n_points
        invariant
            i < n_points,
            j <= n_points,
            n_blocks == (n_points + 31) / 32,
            n_points * n_blocks <= adjacency.len(),
            forall|k: int| 0 <= k < row.len() ==> #[trigger] row@[k] < j && adjacent(adjacency@, n_blocks as int, i as int, row@[k] as int),
            forall|x: usize| x < j && adjacent(adjacency@, n_blocks as int, i as int, x as int) ==> #[trigger] row@.contains(x),
            forall|a: int, c: int| 0 <= a < c < row.len() ==> #[trigger] row@[a] < #[trigger] row@[c],
        decreases n_points - j,
    {
        proof {
            lemma_block_of(j as int, n_points as int, n_blocks as int);
            lemma_row_index(i as int, n_points as int, n_blocks as int, (j / 32) as int);
        }
        let word = adjacency[i * n_blocks + j / 32];
        let t: u32 = (j % 32) as u32;
        let ghost old_row = row@;
        if (word >> t) & 1u32 == 1u32 {
            row.push(j);
            proof {
                assert forall|x: usize| x < j + 1 && adjacent(adjacency@, n_blocks as int, i as int, x as int) implies #[trigger] row@.contains(x) by {
                    if x < j {
                        assert(old_row.contains(x));
                        let k = choose|k: int| 0 <= k < old_row.len() && old_row[k] == x;
                        assert(row@[k] == x);
                    } else {
                        assert(row@[row.len() - 1] == x);
                    }
                }
            }
        } else {
            proof {
                assert forall|x: usize| x < j + 1 && adjacent(adjacency@, n_blocks as int, i as int, x as int) implies #[trigger] row@.contains(x) by {
                    if x == j {
                        assert(!adjacent(adjacency@, n_blocks as int, i as int, x as int));
                    }
                }
            }
        }
        j = j + 1;
    }
    proof {
        assert forall|x: usize| #[trigger] row@.contains(x) implies x < n_points && adjacent(adjacency@, n_blocks as int, i as int, x as int) by {
            let k = choose|k: int| 0 <= k < row.len() && row@[k] == x;
        }
    }
    row
}

/// Decode the adjacency matrix into one increasing neighbour list per point.
pub fn adjacency_neighbors(adjacency: &Vec<u32>, n_points: usize) -> (nb: Vec<Vec<usize>>)
    requires
        n_points + 31 <= usize::MAX,
        n_points * ((n_points + 31) / 32) <= adjacency.len(),
    ensures
        decoded_adjacency(adjacency@, n_points as int, ((n_points + 31) / 32) as int, nb@),
{
    let n_blocks = (n_points + 31) / 32;
    let mut nb: Vec<Vec<usize>> = Vec::new();
    let mut i: usize = 0;
    while i < n_points
        invariant
            i <= n_points,
            n_blocks == (n_points + 31) / 32,
            n_points * n_blocks <= adjacency.len(),
            nb.len() == i,
            forall|k: int, x: usize|
                0 <= k < i ==> (#[trigger] nb@[k]@.contains(x) <==> x < n_points && adjacent(adjacency@, n_blocks as int, k, x as int)),
            forall|k: int, a: int, c: int|
                0 <= k < i && 0 <= a < c < nb@[k].len() ==> #[trigger] nb@[k]@[a] < #[trigger] nb@[k]@[c],
        decreases n_points - i,
    {
        let row = row_neighbors(adjacency, n_points, n_blocks, i);
        nb.push(row);
        i = i + 1;
    }
    nb
}

/// Total number of set bits in row `i` (padding bits included): the size of
/// the point's neighbourhood as the matrix records it.
pub fn row_count(adjacency: &Vec<u32>, n_points: usize, n_blocks: usize, i: usize) -> (count: usize)
    requires
        i < n_points,
        n_blocks <= usize::MAX / 32,
        n_points * n_blocks <= adjacency.len(),
    ensures
        count == row_ones(adjacency@, n_blocks as int, i as int, n_blocks as int),
{
    let mut count: usize = 0;
    let mut b: usize = 0;
    while b < n_blocks
        invariant
            i < n_points,
            b <= n_blocks,
            n_blocks <= usize::MAX / 32,
            n_points * n_blocks <= adjacency.len(),
            count == row_ones(adjacency@, n_blocks as int, i as int, b as int),
            count <= 32 * b,
        decreases n_blocks - b,
    {
        proof {
            lemma_row_index(i as int, n_points as int, n_blocks as int, b as int);
        }
        let ones = count_ones_u32(adjacency[i * n_blocks + b]);
        proof {
            lemma_ones_bound(adjacency@[i * n_blocks + b], 32);
        }
        count = count + ones as usize;
        b = b + 1;
    }
    count
}

proof fn lemma_ones_bound(w: u32, k: int)
    ensures
        ones_below(w, k) <= if k < 0 { 0 } else { k },
    decreases k,
{
    if k > 0 {
        lemma_ones_bound(w, k - 1);
    }
}

/// A matrix of `n` rows of `(n + 31) / 32` words that fits in memory has
/// room for the word count and for `32` bits per word.
proof fn lemma_matrix_fits(n: int, len: int)
    requires
        0 <= n,
        n * ((n + 31) / 32) <= len <= usize::MAX,
    ensures
        n + 31 <= usize::MAX,
        (n + 31) / 32 <= usize::MAX / 32,
{
    let nbk = (n + 31) / 32;
    if n >= 64 {
        assert(nbk >= 2);
        assert(n * nbk >= 2 * n) by (nonlinear_arith)
            requires
                nbk >= 2,
                n >= 0,
        ;
        assert(32 * nbk <= n * nbk) by (nonlinear_arith)
            requires
                n >= 32,
                nbk >= 0,
        ;
    }
}

/// Which rows have at least `min_samples` set bits.
pub open spec fn dense_rows(adj: Seq<u32>, n: int, min_samples: usize) -> Seq<bool> {
    Seq::new(n as nat, |i: int| row_ones(adj, (n + 31) / 32, i, (n + 31) / 32) >= min_samples)
}

/// DBSCAN cluster formation from the adjacency matrix: a point is a core
/// point when its row has at least `min_samples` set bits, and clusters grow
/// over the decoded neighbour lists exactly as in [`assign_clusters`].
pub fn cluster_on_cpu(adjacency: &Vec<u32>, n_points: usize, min_samples: usize) -> (result: ClusterResult)
    requires
        n_points * ((n_points + 31) / 32) <= adjacency.len(),
        count_core(dense_rows(adjacency@, n_points as int, min_samples), n_points as int) <= i32::MAX,
    ensures
        result.core_points.len() == n_points,
        forall|i: int|
            0 <= i < n_points ==> #[trigger] result.core_points[i] == (row_ones(
                adjacency@,
                (n_points + 31) / 32,
                i,
                (n_points + 31) / 32,
            ) >= min_samples),
        exists|nb: Seq<Vec<usize>>|
            decoded_adjacency(adjacency@, n_points as int, ((n_points + 31) / 32) as int, nb) && valid_clustering(
                nb,
                result.core_points@,
                result.labels@,
            ),
{
    proof {
        lemma_matrix_fits(n_points as int, adjacency.len() as int);
    }
    let n_blocks = (n_points + 31) / 32;
    let mut core_points: Vec<bool> = Vec::new();
    let mut i: usize = 0;
    while i < n_points
        invariant
            i <= n_points,
            n_points + 31 <= usize::MAX,
            n_blocks <= usize::MAX / 32,
            n_blocks == (n_points + 31) / 32,
            n_points * n_blocks <= adjacency.len(),
            core_points.len() == i,
            forall|k: int|
                0 <= k < i ==> #[trigger] core_points[k] == (row_ones(adjacency@, n_blocks as int, k, n_blocks as int)
                    >= min_samples),
        decreases n_points - i,
    {
        let count = row_count(adjacency, n_points, n_blocks, i);
        core_points.push(count >= min_samples);
        i = i + 1;
    }
    let neighbors = adjacency_neighbors(adjacency, n_points);
    proof {
        assert forall|j: int, k: int|
            0 <= j < neighbors.len() && 0 <= k < neighbors@[j].len() implies (#[trigger] neighbors@[j]@[k]) < neighbors.len() by {
            assert(neighbors@[j]@.contains(neighbors@[j]@[k]));
        }
        assert(well_formed_graph(neighbors@, core_points@));
    }
    assert(core_points@ =~= dense_rows(adjacency@, n_points as int, min_samples));
    let labels = assign_clusters(&neighbors, &core_points);
    let result = ClusterResult { labels, core_points };
    assert(decoded_adjacency(adjacency@, n_points as int, ((n_points + 31) / 32) as int, neighbors@) && valid_clustering(
        neighbors@,
        result.core_points@,
        result.labels@,
    ));
    result
}

/// Number of points `x < m` that row `i` links to.
pub open spec fn count_adjacent(adj: Seq<u32>, n_blocks: int, i: int, m: int) -> nat
    decreases m,
{
    if m <= 0 {
        0
    } else {
        count_adjacent(adj, n_blocks, i, m - 1) + (if adjacent(adj, n_blocks, i, m - 1) { 1nat } else { 0nat })
    }
}

/// No row links a point past `n`: the padding bits of the last word are clear.
pub open spec fn padding_clear(adj: Seq<u32>, n: int, n_blocks: int) -> bool {
    forall|i: int, x: int| 0 <= i < n && n <= x < 32 * n_blocks ==> !#[trigger] adjacent(adj, n_blocks, i, x)
}

proof fn lemma_count_words(adj: Seq<u32>, n_blocks: int, i: int, b: int, t: int)
    requires
        0 <= b,
        0 <= t <= 32,
    ensures
        count_adjacent(adj, n_blocks, i, 32 * b + t) == row_ones(adj, n_blocks, i, b) + ones_below(
            adj[i * n_blocks + b],
            t,
        ),
    decreases b, t,
{
    if t > 0 {
        lemma_count_words(adj, n_blocks, i, b, t - 1);
        vstd::arithmetic::div_mod::lemma_fundamental_div_mod_converse(32 * b + t - 1, 32, b, t - 1);
    } else if b > 0 {
        lemma_count_words(adj, n_blocks, i, b - 1, 32);
        assert(32 * b + t == 32 * (b - 1) + 32);
    }
}

proof fn lemma_count_padding(adj: Seq<u32>, n: int, n_blocks: int, i: int, m: int)
    requires
        0 <= i < n,
        n <= m <= 32 * n_blocks,
        padding_clear(adj, n, n_blocks),
    ensures
        count_adjacent(adj, n_blocks, i, m) == count_adjacent(adj, n_blocks, i, n),
    decreases m,
{
    if m > n {
        assert(!adjacent(adj, n_blocks, i, m - 1));
        lemma_count_padding(adj, n, n_blocks, i, m - 1);
    }
}

/// The points below `m` that row `i` links to.
spec fn linked_below(adj: Seq<u32>, n_blocks: int, i: int, m: int) -> Set<usize> {
    Set::new(|x: usize| (x as int) < m && adjacent(adj, n_blocks, i, x as int))
}

proof fn lemma_linked_below_len(adj: Seq<u32>, n_blocks: int, i: int, m: int)
    requires
        0 <= m <= usize::MAX,
    ensures
        linked_below(adj, n_blocks, i, m).finite(),
        linked_below(adj, n_blocks, i, m).len() == count_adjacent(adj, n_blocks, i, m),
    decreases m,
{
    if m == 0 {
        assert(linked_below(adj, n_blocks, i, 0) =~= Set::<usize>::empty());
    } else {
        lemma_linked_below_len(adj, n_blocks, i, m - 1);
        let prev = linked_below(adj, n_blocks, i, m - 1);
        let x = (m - 1) as usize;
        if adjacent(adj, n_blocks, i, m - 1) {
            assert(linked_below(adj, n_blocks, i, m) =~= prev.insert(x));
            assert(!prev.contains(x));
        } else {
            assert(linked_below(adj, n_blocks, i, m) =~= prev);
        }
    }
}

/// In decoded lists, row `i` lists exactly `count_adjacent` points.
proof fn lemma_decoded_len(adj: Seq<u32>, n: int, n_blocks: int, nb: Seq<Vec<usize>>, i: int)
    requires
        decoded_adjacency(adj, n, n_blocks, nb),
        0 <= i < n,
        n <= usize::MAX,
    ensures
        nb[i]@.len() == count_adjacent(adj, n_blocks, i, n),
{
    let row = nb[i]@;
    assert forall|a: int, c: int| 0 <= a < row.len() && 0 <= c < row.len() && a != c implies row[a] != row[c] by {
        if a < c {
            assert(nb[i]@[a] < nb[i]@[c]);
        } else {
            assert(nb[i]@[c] < nb[i]@[a]);
        }
    }
    assert(row.no_duplicates());
    row.unique_seq_to_set();
    assert(row.to_set() =~= linked_below(adj, n_blocks, i, n)) by {
        assert forall|x: usize| row.to_set().contains(x) <==> linked_below(adj, n_blocks, i, n).contains(x) by {
            assert(nb[i]@.contains(x) <==> x < n && adjacent(adj, n_blocks, i, x as int));
        }
    }
    lemma_linked_below_len(adj, n_blocks, i, n);
}

/// Two strictly increasing sequences holding the same values are equal.
proof fn lemma_sorted_unique(a: Seq<usize>, b: Seq<usize>)
    requires
        forall|x: usize| a.contains(x) <==> b.contains(x),
        forall|i: int, j: int| 0 <= i < j < a.len() ==> #[trigger] a[i] < #[trigger] a[j],
        forall|i: int, j: int| 0 <= i < j < b.len() ==> #[trigger] b[i] < #[trigger] b[j],
    ensures
        a == b,
{
    assert forall|k: int| 0 <= k < a.len() && k < b.len() implies a[k] == b[k] by {
        lemma_sorted_prefix(a, b, k);
    }
    if a.len() > b.len() {
        let k = b.len() as int;
        if k > 0 {
            lemma_sorted_prefix(a, b, k - 1);
        }
        assert(a.contains(a[k]));
        let m = choose|m: int| 0 <= m < b.len() && b[m] == a[k];
        lemma_sorted_prefix(a, b, m);
        assert(a[m] < a[k]);
    }
    if b.len() > a.len() {
        let k = a.len() as int;
        assert(b.contains(b[k]));
        let m = choose|m: int| 0 <= m < a.len() && a[m] == b[k];
        lemma_sorted_prefix(a, b, m);
        assert(b[m] < b[k]);
    }
    assert(a =~= b);
}

proof fn lemma_sorted_prefix(a: Seq<usize>, b: Seq<usize>, k: int)
    requires
        forall|x: usize| a.contains(x) <==> b.contains(x),
        forall|i: int, j: int| 0 <= i < j < a.len() ==> #[trigger] a[i] < #[trigger] a[j],
        forall|i: int, j: int| 0 <= i < j < b.len() ==> #[trigger] b[i] < #[trigger] b[j],
        0 <= k < a.len(),
        k < b.len(),
    ensures
        forall|j: int| 0 <= j <= k ==> #[trigger] a[j] == b[j],
    decreases k,
{
    if k > 0 {
        lemma_sorted_prefix(a, b, k - 1);
    }
    assert(a.contains(a[k]));
    let m = choose|m: int| 0 <= m < b.len() && b[m] == a[k];
    assert(b.contains(b[k]));
    let m2 = choose|m2: int| 0 <= m2 < a.len() && a[m2] == b[k];
    if m < k {
        assert(a[m] == b[m]);
        assert(a[m] < a[k]);
    }
    if m2 < k {
        assert(a[m2] == b[m2]);
        assert(b[m2] < b[k]);
    }
    if m > k {
        assert(b[k] < b[m]);
        if m2 > k {
            assert(a[k] < a[m2]);
        }
    }
}

/// Law: on a matrix whose padding bits are clear, clustering the matrix and
/// clustering its decoded neighbour lists give the same core points and the
/// same labels: the device path and the list path agree.
pub proof fn lemma_matrix_and_lists_agree(
    adj: Seq<u32>,
    n: int,
    min_samples: usize,
    nb: Seq<Vec<usize>>,
    core1: Seq<bool>,
    labels1: Seq<i32>,
    core2: Seq<bool>,
    labels2: Seq<i32>,
)
    requires
        0 <= n <= usize::MAX,
        decoded_adjacency(adj, n, (n + 31) / 32, nb),
        padding_clear(adj, n, (n + 31) / 32),
        // what clustering the matrix guarantees
        core1.len() == n,
        forall|i: int| 0 <= i < n ==> #[trigger] core1[i] == (row_ones(adj, (n + 31) / 32, i, (n + 31) / 32) >= min_samples),
        exists|nb1: Seq<Vec<usize>>| decoded_adjacency(adj, n, (n + 31) / 32, nb1) && valid_clustering(nb1, core1, labels1),
        // what clustering the lists guarantees
        core2.len() == n,
        forall|i: int| 0 <= i < n ==> #[trigger] core2[i] == (nb[i].len() >= min_samples),
        valid_clustering(nb, core2, labels2),
    ensures
        core1 == core2,
        labels1 == labels2,
{
    let nbk = (n + 31) / 32;
    assert(n <= 32 * nbk);
    assert forall|i: int| 0 <= i < n implies core1[i] == #[trigger] core2[i] by {
        lemma_count_words(adj, nbk, i, nbk, 0);
        lemma_count_padding(adj, n, nbk, i, 32 * nbk);
        lemma_decoded_len(adj, n, nbk, nb, i);
    }
    assert(core1 =~= core2);
    let nb1 = choose|nb1: Seq<Vec<usize>>| decoded_adjacency(adj, n, nbk, nb1) && valid_clustering(nb1, core1, labels1);
    assert forall|j: int| 0 <= j < nb1.len() implies #[trigger] nb1[j]@ == nb[j]@ by {
        assert forall|x: usize| nb1[j]@.contains(x) <==> nb[j]@.contains(x) by {
            assert(nb1[j]@.contains(x) <==> x < n && adjacent(adj, nbk, j, x as int));
            assert(nb[j]@.contains(x) <==> x < n && adjacent(adj, nbk, j, x as int));
        }
        lemma_sorted_unique(nb1[j]@, nb[j]@);
    }
    lemma_valid_clustering_same_lists(nb1, nb, core1, labels1);
    assert forall|j: int, k: int| 0 <= j < nb.len() && 0 <= k < nb[j].len() implies (#[trigger] nb[j]@[k]) < nb.len() by {
        assert(nb[j]@.contains(nb[j]@[k]));
    }
    lemma_clustering_unique(nb, core2, labels1, labels2);
}

} // verus!
