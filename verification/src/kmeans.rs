//! K-Means initialisation: pick `k` distinct samples as starting centroids.

use vstd::prelude::*;
use rand::rngs::StdRng;
use rand::SeedableRng;
use rand::rngs::OsRng;
use rand::seq::SliceRandom;

verus! {

#[verifier::external_type_specification]
#[verifier::external_body]
pub struct ExStdRng(rand::rngs::StdRng);

/// `StdRng::from_rng(OsRng)` (rand): a generator seeded from the operating
/// system's entropy source, or `None` where that source reports an error.
/// Nothing is stated of when the source fails, nor of the generator's state.
#[verifier::external_body]
fn os_seeded_rng() -> (rng: Option<StdRng>) {
    StdRng::from_rng(OsRng).ok()
}

/// `pos` lists, for each entry of `chosen`, a distinct position of `items` holding it.
pub open spec fn picked_at(pos: Seq<int>, chosen: Seq<usize>, items: Seq<usize>) -> bool {
    &&& pos.len() == chosen.len()
    &&& forall|j: int| 0 <= j < pos.len() ==> 0 <= #[trigger] pos[j] < items.len() && chosen[j] == items[pos[j]]
    &&& forall|a: int, b: int| 0 <= a < b < pos.len() ==> #[trigger] pos[a] != #[trigger] pos[b]
}

/// Each entry of `chosen` is an entry of `items`, no two taken from the same position.
pub open spec fn picked_from_distinct_positions(chosen: Seq<usize>, items: Seq<usize>) -> bool {
    exists|pos: Seq<int>| #[trigger] picked_at(pos, chosen, items)
}

/// `SliceRandom::choose_multiple` (rand), collected into a vector: it picks
/// `min(amount, len)` entries at distinct positions of `items`, in random order.
/// Which positions it picks depends on the generator and is not stated.
#[verifier::external_body]
fn choose_multiple(items: &Vec<usize>, rng: &mut StdRng, amount: usize) -> (chosen: Vec<usize>)
    ensures
        chosen.len() == if amount < items.len() { amount } else { items.len() },
        picked_from_distinct_positions(chosen@, items@),
{
    items.as_slice().choose_multiple(rng, amount).copied().collect()
}

/// What `seeded_choose` returns: the picks of a generator seeded from `seed`.
/// `StdRng`'s output is fixed only for one version and configuration of rand
/// (its documentation does not promise it across them); Cargo.lock pins the
/// version that the name stands for.
pub uninterp spec fn seeded_pick(seed: u64, items: Seq<usize>, amount: nat) -> Seq<usize>;

/// `StdRng::seed_from_u64` (rand) followed by `SliceRandom::choose_multiple`:
/// the generator is a deterministic function of the seed, so the picks are a
/// function of `seed`, `items` and `amount` alone (named `seeded_pick`); they
/// are `min(amount, len)` entries at distinct positions of `items`.  Which
/// positions those are is not stated.
#[verifier::external_body]
fn seeded_choose(items: &Vec<usize>, seed: u64, amount: usize) -> (chosen: Vec<usize>)
    ensures
        chosen@ == seeded_pick(seed, items@, amount as nat),
        chosen.len() == if amount < items.len() { amount } else { items.len() },
        picked_from_distinct_positions(chosen@, items@),
{
    let mut rng = StdRng::seed_from_u64(seed);
    items.as_slice().choose_multiple(&mut rng, amount).copied().collect()
}

/// Indices of `k` distinct samples among `0..n_samples`, drawn at random
/// (from a generator seeded with `seed` when one is given, else from the
/// operating system).  `None` only when no seed is given and the operating
/// system cannot supply entropy.
pub fn initial_centroid_indices(n_samples: usize, k: usize, seed: Option<u64>) -> (result: Option<Vec<usize>>)
    requires
        k <= n_samples,
    ensures
        seed is Some ==> result is Some,
        result matches Some(chosen) ==> {
            &&& chosen.len() == k
            &&& forall|j: int| 0 <= j < k ==> #[trigger] chosen@[j] < n_samples
            &&& forall|a: int, b: int| 0 <= a < b < k ==> #[trigger] chosen@[a] != #[trigger] chosen@[b]
            &&& seed matches Some(s) ==> chosen@ == seeded_pick(s, Seq::new(n_samples as nat, |i: int| i as usize), k as nat)
        },
{
    let mut indices: Vec<usize> = Vec::new();
    let mut i: usize = 0;
    while i < n_samples
        invariant
            i <= n_samples,
            indices.len() == i,
            forall|j: int| 0 <= j < i ==> #[trigger] indices@[j] == j,
        decreases n_samples - i,
    {
        indices.push(i);
        i = i + 1;
    }
    assert(indices@ =~= Seq::new(n_samples as nat, |i: int| i as usize));
    let chosen = match seed {
        Some(s) => seeded_choose(&indices, s, k),
        None => match os_seeded_rng() {
            Some(mut rng) => choose_multiple(&indices, &mut rng, k),
            None => return None,
        },
    };
    proof {
        let pos = choose|pos: Seq<int>| #[trigger] picked_at(pos, chosen@, indices@);
        assert forall|j: int| 0 <= j < k implies #[trigger] chosen@[j] < n_samples by {
            assert(0 <= pos[j] < indices.len());
        }
        assert forall|a: int, b: int| 0 <= a < b < k implies #[trigger] chosen@[a] != #[trigger] chosen@[b] by {
            assert(pos[a] != pos[b]);
            assert(chosen@[a] == indices@[pos[a]]);
            assert(chosen@[b] == indices@[pos[b]]);
        }
    }
    Some(chosen)
}

} // verus!
