//! Disjoint sets with union by rank and path compression.

use vstd::prelude::*;

verus! {

/// Root reached from `x` by following parent links; every step goes to a
/// strictly higher rank.
pub open spec fn find_root(parent: Seq<usize>, rank: Seq<usize>, x: int) -> int
    decreases usize::MAX - (if 0 <= x < rank.len() { rank[x] as int } else { 0int }),
{
    if 0 <= x < parent.len() && x < rank.len() && parent[x] != x && 0 <= parent[x] < rank.len() && rank[x]
        < rank[parent[x] as int] {
        find_root(parent, rank, parent[x] as int)
    } else {
        x
    }
}

/// Number of roots (entries that are their own parent).
pub open spec fn count_roots(parent: Seq<usize>) -> nat
    decreases parent.len(),
{
    if parent.len() == 0 {
        0
    } else {
        count_roots(parent.drop_last()) + (if parent.last() == (parent.len() - 1) as usize { 1nat } else { 0nat })
    }
}

/// Parents stay in range, ranks grow strictly towards the roots, and no rank
/// exceeds the number of merges performed so far.
pub open spec fn forest_ok(parent: Seq<usize>, rank: Seq<usize>) -> bool {
    &&& parent.len() == rank.len()
    &&& parent.len() <= usize::MAX
    &&& forall|i: int| 0 <= i < parent.len() ==> #[trigger] parent[i] < parent.len()
    &&& forall|i: int|
        0 <= i < parent.len() && #[trigger] parent[i] != i ==> rank[i] < rank[parent[i] as int]
    &&& forall|i: int| 0 <= i < parent.len() ==> #[trigger] rank[i] + count_roots(parent) <= parent.len()
}

/// Union-find over the elements `0..n`.
pub struct UnionFind {
    parent: Vec<usize>,
    rank: Vec<usize>,
}

impl UnionFind {
    /// Number of elements.
    pub closed spec fn size(&self) -> nat {
        self.parent@.len()
    }

    /// The representative of the set holding `x`.
    pub closed spec fn root(&self, x: int) -> int {
        find_root(self.parent@, self.rank@, x)
    }

    /// Number of disjoint sets.
    pub closed spec fn n_sets(&self) -> nat {
        count_roots(self.parent@)
    }

    /// Rank of `x` (an upper bound on the height of its subtree).
    pub closed spec fn rank_of(&self, x: int) -> int {
        self.rank@[x] as int
    }

    /// The structure's invariant.
    pub closed spec fn wf(&self) -> bool {
        forest_ok(self.parent@, self.rank@)
    }

    /// `n` singleton sets.
    pub fn new(n: usize) -> (uf: Self)
        ensures
            uf.wf(),
            uf.size() == n,
            uf.n_sets() == n,
            forall|x: int| 0 <= x < n ==> #[trigger] uf.root(x) == x,
    {
        let mut parent: Vec<usize> = Vec::new();
        let mut rank: Vec<usize> = Vec::new();
        let mut i: usize = 0;
        while i < n
            invariant
                i <= n,
                parent.len() == i,
                rank.len() == i,
                forall|k: int| 0 <= k < i ==> #[trigger] parent@[k] == k,
                forall|k: int| 0 <= k < i ==> #[trigger] rank@[k] == 0,
                count_roots(parent@) == i,
            decreases n - i,
        {
            let ghost p0 = parent@;
            parent.push(i);
            rank.push(0);
            proof {
                assert(parent@.drop_last() =~= p0);
            }
            i = i + 1;
        }
        let uf = UnionFind { parent, rank };
        proof {
            assert forall|x: int| 0 <= x < n implies #[trigger] uf.root(x) == x by {
                assert(uf.parent@[x] == x);
            }
        }
        uf
    }

    /// Representative of `x`'s set; every node visited on the way is
    /// re-linked straight to it.
    pub fn find(&mut self, x: usize) -> (r: usize)
        requires
            old(self).wf(),
            x < old(self).size(),
        ensures
            final(self).wf(),
            final(self).size() == old(self).size(),
            final(self).n_sets() == old(self).n_sets(),
            r == old(self).root(x as int),
            r < old(self).size(),
            forall|z: int| 0 <= z < old(self).size() ==> #[trigger] final(self).rank_of(z) == old(self).rank_of(z),
            forall|y: int| #[trigger] final(self).root(y) == old(self).root(y),
            forall|y: int| 0 <= y < old(self).size() ==> final(self).root(y) == final(self).root(final(self).root(y)),
        decreases usize::MAX - old(self).rank_of(x as int),
    {
        let ghost s0 = *self;
        proof {
            lemma_root_facts(self.parent@, self.rank@, x as int);
        }
        let p = self.parent[x];
        if p != x {
            let r = self.find(p);
            let ghost s1 = *self;
            proof {
                assert(s1.root(x as int) == s0.root(x as int));
                assert(s1.root(p as int) == s0.root(p as int));
                lemma_root_facts(s1.parent@, s1.rank@, x as int);
                lemma_redirect(s1.parent@, s1.rank@, x as int);
            }
            proof {
                lemma_count_roots_update_nonroot(s1.parent@, x as int, r);
            }
            self.parent.set(x, r);
            proof {
                assert forall|y: int| #[trigger] self.root(y) == s0.root(y) by {
                    assert(s1.root(y) == s0.root(y));
                    assert(find_root(self.parent@, self.rank@, y) == find_root(s1.parent@, s1.rank@, y));
                }
                lemma_all_roots_fixed(self.parent@, self.rank@);
                lemma_root_facts(s0.parent@, s0.rank@, x as int);
                assert forall|z: int| 0 <= z < s0.size() implies #[trigger] self.rank_of(z) == s0.rank_of(z) by {
                    assert(s1.rank_of(z) == s0.rank_of(z));
                }
            }
            r
        } else {
            proof {
                lemma_all_roots_fixed(self.parent@, self.rank@);
            }
            x
        }
    }

    /// Merge the sets of `x` and `y`; returns the representative of the
    /// merged set (the root of higher rank, `x`'s root on a tie).
    pub fn union(&mut self, x: usize, y: usize) -> (r: usize)
        requires
            old(self).wf(),
            x < old(self).size(),
            y < old(self).size(),
        ensures
            final(self).wf(),
            final(self).size() == old(self).size(),
            final(self).n_sets() + (if old(self).root(x as int) != old(self).root(y as int) { 1int } else { 0int })
                == old(self).n_sets(),
            r == old(self).root(x as int) || r == old(self).root(y as int),
            r == if old(self).root(x as int) != old(self).root(y as int) && old(self).rank_of(old(self).root(x as int))
                < old(self).rank_of(old(self).root(y as int)) {
                old(self).root(y as int)
            } else {
                old(self).root(x as int)
            },
            forall|z: int|
                0 <= z < old(self).size() ==> #[trigger] final(self).rank_of(z) == old(self).rank_of(z) + if z == r
                    && old(self).root(x as int) != old(self).root(y as int) && old(self).rank_of(old(self).root(x as int))
                    == old(self).rank_of(old(self).root(y as int)) {
                    1int
                } else {
                    0int
                },
            final(self).root(x as int) == r,
            final(self).root(y as int) == r,
            forall|z: int|
                0 <= z < old(self).size() ==> #[trigger] final(self).root(z) == if old(self).root(z) == old(self).root(x as int) || old(self).root(z) == old(self).root(y as int) {
                    r as int
                } else {
                    old(self).root(z)
                },
    {
        let ghost s0 = *self;
        let root_x = self.find(x);
        let ghost s1 = *self;
        let root_y = self.find(y);
        let ghost s2 = *self;
        proof {
            assert(s2.root(x as int) == s1.root(x as int));
            assert(s1.root(x as int) == s0.root(x as int));
            assert(s2.root(y as int) == s1.root(y as int));
            lemma_root_facts(self.parent@, self.rank@, x as int);
            lemma_root_facts(self.parent@, self.rank@, y as int);
            assert forall|z: int| #[trigger] s2.root(z) == s0.root(z) by {
                assert(s1.root(z) == s0.root(z));
            }
            assert forall|z: int| 0 <= z < s0.size() implies #[trigger] s2.rank_of(z) == s0.rank_of(z) by {
                assert(s1.rank_of(z) == s0.rank_of(z));
            }
        }
        proof {
            assert(s2.rank_of(root_x as int) == s0.rank_of(root_x as int));
            assert(s2.rank_of(root_y as int) == s0.rank_of(root_y as int));
        }
        if root_x == root_y {
            proof {
                assert(self.root(x as int) == s0.root(x as int));
                assert(self.root(y as int) == s0.root(y as int));
            }
            return root_x;
        }
        if self.rank[root_x] < self.rank[root_y] {
            proof {
                lemma_link(self.parent@, self.rank@, root_x as int, root_y as int, false);
                lemma_count_roots_update_root(self.parent@, root_x as int, root_y);
            }
            self.parent.set(root_x, root_y);
            proof {
                assert(self.rank@ == link_rank(s2.rank@, root_y as int, false));
                assert forall|z: int| 0 <= z < s0.size() implies #[trigger] self.root(z) == if s0.root(z) == s0.root(
                    x as int,
                ) || s0.root(z) == s0.root(y as int) {
                    root_y as int
                } else {
                    s0.root(z)
                } by {
                    assert(s2.root(z) == s0.root(z));
                    lemma_root_facts(s2.parent@, s2.rank@, z);
                }
                assert(self.root(x as int) == self.root(x as int));
                assert(self.root(y as int) == self.root(y as int));
                assert forall|z: int| 0 <= z < s0.size() implies #[trigger] self.rank_of(z) == s0.rank_of(z) by {
                    assert(s2.rank_of(z) == s0.rank_of(z));
                }
            }
            root_y
        } else if self.rank[root_x] > self.rank[root_y] {
            proof {
                lemma_link(self.parent@, self.rank@, root_y as int, root_x as int, false);
                lemma_count_roots_update_root(self.parent@, root_y as int, root_x);
            }
            self.parent.set(root_y, root_x);
            proof {
                assert(self.rank@ == link_rank(s2.rank@, root_x as int, false));
                assert forall|z: int| 0 <= z < s0.size() implies #[trigger] self.root(z) == if s0.root(z) == s0.root(
                    x as int,
                ) || s0.root(z) == s0.root(y as int) {
                    root_x as int
                } else {
                    s0.root(z)
                } by {
                    assert(s2.root(z) == s0.root(z));
                    lemma_root_facts(s2.parent@, s2.rank@, z);
                }
                assert(self.root(x as int) == self.root(x as int));
                assert(self.root(y as int) == self.root(y as int));
                assert forall|z: int| 0 <= z < s0.size() implies #[trigger] self.rank_of(z) == s0.rank_of(z) by {
                    assert(s2.rank_of(z) == s0.rank_of(z));
                }
            }
            root_x
        } else {
            proof {
                lemma_link(self.parent@, self.rank@, root_y as int, root_x as int, true);
                lemma_count_roots_update_root(self.parent@, root_y as int, root_x);
            }
            self.parent.set(root_y, root_x);
            let new_rank = self.rank[root_x] + 1;
            self.rank.set(root_x, new_rank);
            proof {
                assert(self.rank@ == link_rank(s2.rank@, root_x as int, true));
                assert forall|z: int| 0 <= z < s0.size() implies #[trigger] self.root(z) == if s0.root(z) == s0.root(
                    x as int,
                ) || s0.root(z) == s0.root(y as int) {
                    root_x as int
                } else {
                    s0.root(z)
                } by {
                    assert(s2.root(z) == s0.root(z));
                    lemma_root_facts(s2.parent@, s2.rank@, z);
                }
                assert(self.root(x as int) == self.root(x as int));
                assert(self.root(y as int) == self.root(y as int));
                assert forall|z: int| 0 <= z < s0.size() implies #[trigger] self.rank_of(z) == s0.rank_of(z) + if z
                    == root_x {
                    1int
                } else {
                    0int
                } by {
                    assert(s2.rank_of(z) == s0.rank_of(z));
                }
            }
            root_x
        }
    }
}

proof fn lemma_count_roots_update_nonroot(parent: Seq<usize>, i: int, v: usize)
    requires
        parent.len() <= usize::MAX,
        0 <= i < parent.len(),
        parent[i] != i,
        v != i,
    ensures
        count_roots(parent.update(i, v)) == count_roots(parent),
    decreases parent.len(),
{
    let t = parent.update(i, v);
    if i == parent.len() - 1 {
        assert(t.drop_last() =~= parent.drop_last());
    } else {
        assert(t.drop_last() =~= parent.drop_last().update(i, v));
        lemma_count_roots_update_nonroot(parent.drop_last(), i, v);
    }
}

proof fn lemma_count_roots_update_root(parent: Seq<usize>, i: int, v: usize)
    requires
        parent.len() <= usize::MAX,
        0 <= i < parent.len(),
        parent[i] == i,
        v != i,
    ensures
        count_roots(parent.update(i, v)) + 1 == count_roots(parent),
    decreases parent.len(),
{
    let t = parent.update(i, v);
    if i == parent.len() - 1 {
        assert(t.drop_last() =~= parent.drop_last());
    } else {
        assert(t.drop_last() =~= parent.drop_last().update(i, v));
        lemma_count_roots_update_root(parent.drop_last(), i, v);
    }
}

/// Under the invariant, the walk from `x` ends at a root of rank at least `x`'s.
proof fn lemma_root_facts(parent: Seq<usize>, rank: Seq<usize>, x: int)
    requires
        forest_ok(parent, rank),
        0 <= x < parent.len(),
    ensures
        0 <= find_root(parent, rank, x) < parent.len(),
        parent[find_root(parent, rank, x)] == find_root(parent, rank, x),
        rank[x] <= rank[find_root(parent, rank, x)],
        parent[x] != x ==> find_root(parent, rank, x) == find_root(parent, rank, parent[x] as int),
        parent[x] != x ==> rank[x] < rank[find_root(parent, rank, x)],
        find_root(parent, rank, find_root(parent, rank, x)) == find_root(parent, rank, x),
    decreases usize::MAX - rank[x],
{
    if parent[x] != x {
        assert(parent[x] < parent.len());
        lemma_root_facts(parent, rank, parent[x] as int);
    }
}

proof fn lemma_all_roots_fixed(parent: Seq<usize>, rank: Seq<usize>)
    requires
        forest_ok(parent, rank),
    ensures
        forall|y: int|
            0 <= y < parent.len() ==> find_root(parent, rank, y) == find_root(
                parent,
                rank,
                #[trigger] find_root(parent, rank, y),
            ),
{
    assert forall|y: int| 0 <= y < parent.len() implies find_root(parent, rank, y) == find_root(
        parent,
        rank,
        #[trigger] find_root(parent, rank, y),
    ) by {
        lemma_root_facts(parent, rank, y);
    }
}

/// Re-linking `x` straight to its root keeps the invariant and every root.
proof fn lemma_redirect(parent: Seq<usize>, rank: Seq<usize>, x: int)
    requires
        forest_ok(parent, rank),
        0 <= x < parent.len(),
        parent[x] != x,
    ensures
        ({
            let r = find_root(parent, rank, x);
            let p2 = parent.update(x, r as usize);
            &&& forest_ok(p2, rank)
            &&& forall|y: int| #[trigger] find_root(p2, rank, y) == find_root(parent, rank, y)
        }),
{
    let r = find_root(parent, rank, x);
    lemma_root_facts(parent, rank, x);
    let p2 = parent.update(x, r as usize);
    lemma_count_roots_update_nonroot(parent, x, r as usize);
    assert forall|i: int| 0 <= i < p2.len() && #[trigger] p2[i] != i implies rank[i] < rank[p2[i] as int] by {
        if i != x {
            assert(parent[i] == p2[i]);
        }
    }
    assert forall|i: int| 0 <= i < p2.len() implies #[trigger] p2[i] < p2.len() by {
        if i != x {
            assert(parent[i] == p2[i]);
        }
    }
    assert forall|y: int| #[trigger] find_root(p2, rank, y) == find_root(parent, rank, y) by {
        lemma_redirect_root(parent, rank, x, r, y);
    }
}

proof fn lemma_redirect_root(parent: Seq<usize>, rank: Seq<usize>, x: int, r: int, y: int)
    requires
        forest_ok(parent, rank),
        0 <= x < parent.len(),
        parent[x] != x,
        r == find_root(parent, rank, x),
        0 <= r < parent.len(),
        parent[r] == r,
        rank[x] < rank[r],
    ensures
        find_root(parent.update(x, r as usize), rank, y) == find_root(parent, rank, y),
    decreases usize::MAX - (if 0 <= y < rank.len() { rank[y] as int } else { 0int }),
{
    let p2 = parent.update(x, r as usize);
    if 0 <= y < parent.len() {
        if y == x {
            assert(p2[x] == r);
            assert(find_root(p2, rank, r) == r);
            lemma_root_facts(parent, rank, x);
        } else if parent[y] != y {
            assert(p2[y] == parent[y]);
            assert(parent[y] < parent.len());
            lemma_redirect_root(parent, rank, x, r, parent[y] as int);
        }
    }
}

/// Ranks after linking under `top`, which gains a rank when `bump` holds.
pub open spec fn link_rank(rank: Seq<usize>, top: int, bump: bool) -> Seq<usize> {
    if bump {
        rank.update(top, (rank[top] + 1) as usize)
    } else {
        rank
    }
}

/// Linking root `child` under root `top` merges their sets (with `bump`,
/// `top`'s rank grows by one, as when both ranks are equal).
proof fn lemma_link(parent: Seq<usize>, rank: Seq<usize>, child: int, top: int, bump: bool)
    requires
        forest_ok(parent, rank),
        0 <= child < parent.len(),
        0 <= top < parent.len(),
        child != top,
        parent[child] == child,
        parent[top] == top,
        bump ==> rank[child] == rank[top],
        !bump ==> rank[child] < rank[top],
    ensures
        ({
            let p2 = parent.update(child, top as usize);
            let r2 = link_rank(rank, top, bump);
            &&& rank[top] + 1 <= usize::MAX
            &&& forest_ok(p2, r2)
            &&& forall|z: int|
                0 <= z < parent.len() ==> #[trigger] find_root(p2, r2, z) == if find_root(parent, rank, z) == child {
                    top
                } else {
                    find_root(parent, rank, z)
                }
        }),
{
    let p2 = parent.update(child, top as usize);
    let r2 = link_rank(rank, top, bump);
    lemma_count_roots_update_root(parent, child, top as usize);
    lemma_count_roots_positive(parent, top);
    assert(rank[top] + count_roots(parent) <= parent.len());
    assert forall|i: int| 0 <= i < p2.len() implies #[trigger] p2[i] < p2.len() by {
        if i != child {
            assert(parent[i] == p2[i]);
        }
    }
    assert forall|i: int| 0 <= i < p2.len() && #[trigger] p2[i] != i implies r2[i] < r2[p2[i] as int] by {
        if i != child {
            assert(parent[i] == p2[i]);
            assert(i != top);
        }
    }
    assert forall|i: int| 0 <= i < p2.len() implies #[trigger] r2[i] + count_roots(p2) <= p2.len() by {
        assert(rank[i] + count_roots(parent) <= parent.len());
    }
    assert forall|z: int| 0 <= z < parent.len() implies #[trigger] find_root(p2, r2, z) == if find_root(
        parent,
        rank,
        z,
    ) == child {
        top
    } else {
        find_root(parent, rank, z)
    } by {
        lemma_link_root(parent, rank, child, top, bump, z);
    }
}

proof fn lemma_count_roots_positive(parent: Seq<usize>, i: int)
    requires
        parent.len() <= usize::MAX,
        0 <= i < parent.len(),
        parent[i] == i,
    ensures
        count_roots(parent) >= 1,
    decreases parent.len(),
{
    if i < parent.len() - 1 {
        assert(parent.drop_last()[i] == i);
        lemma_count_roots_positive(parent.drop_last(), i);
    }
}

proof fn lemma_link_root(parent: Seq<usize>, rank: Seq<usize>, child: int, top: int, bump: bool, z: int)
    requires
        forest_ok(parent, rank),
        0 <= child < parent.len(),
        0 <= top < parent.len(),
        child != top,
        parent[child] == child,
        parent[top] == top,
        bump ==> rank[child] == rank[top],
        !bump ==> rank[child] < rank[top],
        rank[top] + 1 <= usize::MAX,
        0 <= z < parent.len(),
    ensures
        ({
            let p2 = parent.update(child, top as usize);
            let r2 = link_rank(rank, top, bump);
            find_root(p2, r2, z) == if find_root(parent, rank, z) == child {
                top
            } else {
                find_root(parent, rank, z)
            }
        }),
    decreases usize::MAX - rank[z],
{
    let p2 = parent.update(child, top as usize);
    let r2 = link_rank(rank, top, bump);
    if z == child {
        assert(p2[child] == top);
        assert(r2[child] < r2[top]);
        assert(find_root(p2, r2, top) == top);
    } else if parent[z] == z {
        assert(p2[z] == z);
    } else {
        assert(p2[z] == parent[z]);
        assert(parent[z] < parent.len());
        assert(parent[z] != top || z != top);
        assert(r2[z] == rank[z]) by {
            if bump && z == top {
                assert(false);
            }
        }
        assert(r2[z] < r2[parent[z] as int]);
        lemma_link_root(parent, rank, child, top, bump, parent[z] as int);
    }
}

/// Law: the representative of a set is its own representative, and lies in range.
pub proof fn lemma_root_is_representative(uf: UnionFind, x: int)
    requires
        uf.wf(),
        0 <= x < uf.size(),
    ensures
        0 <= uf.root(x) < uf.size(),
        uf.root(uf.root(x)) == uf.root(x),
{
    lemma_root_facts(uf.parent@, uf.rank@, x);
}

proof fn lemma_count_roots_two(parent: Seq<usize>, a: int, b: int)
    requires
        parent.len() <= usize::MAX,
        0 <= a < parent.len(),
        0 <= b < parent.len(),
        a != b,
        parent[a] == a,
        parent[b] == b,
    ensures
        count_roots(parent) >= 2,
    decreases parent.len(),
{
    let d = parent.drop_last();
    if a == parent.len() - 1 {
        assert(d[b] == b);
        lemma_count_roots_positive(d, b);
    } else if b == parent.len() - 1 {
        assert(d[a] == a);
        lemma_count_roots_positive(d, a);
    } else {
        assert(d[a] == a && d[b] == b);
        lemma_count_roots_two(d, a, b);
    }
}

/// Law: a structure with a single set gives every element the same
/// representative, and any structure over at least one element has a set.
pub proof fn lemma_single_set(uf: UnionFind, x: int, y: int)
    requires
        uf.wf(),
        0 <= x < uf.size(),
        0 <= y < uf.size(),
    ensures
        uf.n_sets() >= 1,
        uf.n_sets() == 1 ==> uf.root(x) == uf.root(y),
{
    lemma_root_facts(uf.parent@, uf.rank@, x);
    lemma_root_facts(uf.parent@, uf.rank@, y);
    let a = uf.root(x);
    let b = uf.root(y);
    lemma_count_roots_positive(uf.parent@, a);
    if a != b {
        lemma_count_roots_two(uf.parent@, a, b);
    }
}

} // verus!
