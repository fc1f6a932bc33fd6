use vstd::prelude::*;
use vstd::seq_lib::group_to_multiset_ensures;
use crate::Config;

verus! {

/// Contents of a sequence after the seeded shuffle. Both the seeding of
/// the generator and the shuffle itself are deterministic, so the result
/// is a function of the seed and the prior contents alone; this name
/// stands for it.
pub uninterp spec fn chacha_shuffle(seed: u64, s: Seq<usize>) -> Seq<usize>;

/// Relies on rand_chacha::ChaCha20Rng::seed_from_u64 (a deterministic
/// expansion of the seed into a generator state) and on
/// rand::seq::SliceRandom::shuffle (a Fisher-Yates pass driven only by
/// that state): the reordered contents are `chacha_shuffle` of the seed
/// and the prior contents, and the pass only swaps elements in place.
#[verifier::external_body]
fn shuffle_with_seed(v: &mut Vec<usize>, seed: u64)
    ensures
        final(v)@ == chacha_shuffle(seed, old(v)@),
        final(v)@.to_multiset() == old(v)@.to_multiset(),
{
    let mut rng = <rand_chacha::ChaCha20Rng as rand::SeedableRng>::seed_from_u64(seed);
    rand::seq::SliceRandom::shuffle(v.as_mut_slice(), &mut rng);
}

/// The identity sequence `0, 1, ..., n-1`.
pub open spec fn index_pool(n: int) -> Seq<usize> {
    Seq::new(n as nat, |i: int| i as usize)
}

/// The committee drawn for a run: the first `k` entries of the seeded
/// shuffle of the full index pool. A function of the seed and the sizes
/// alone, so a fixed seed always yields the same committee in the same
/// order.
pub open spec fn committee_of(seed: u64, n: int, k: int) -> Seq<usize> {
    chacha_shuffle(seed, index_pool(n)).take(k)
}

/// Draws the committee: shuffles the indices `0..n` with the seeded
/// generator and keeps the first `k`, which are therefore `k` distinct
/// pool indices.
pub fn choice_boards(seed: u64, cfg: &Config) -> (r: Vec<usize>)
    requires
        cfg.valid(),
        cfg.n <= usize::MAX,
    ensures
        r@ == committee_of(seed, cfg.n as int, cfg.k as int),
        r@.len() == cfg.k,
        forall|i: int| 0 <= i < r@.len() ==> (#[trigger] r@[i]) < cfg.n,
        r@.no_duplicates(),
{
    broadcast use group_to_multiset_ensures;

    let mut v: Vec<usize> = Vec::new();
    let mut i: usize = 0;
    while i < cfg.n
        invariant
            i <= cfg.n,
            v@ =~= index_pool(i as int),
        decreases cfg.n - i,
    {
        v.push(i);
        proof {
            assert(v@ =~= index_pool(i + 1int));
        }
        i = i + 1;
    }
    let ghost pool = index_pool(cfg.n as int);
    shuffle_with_seed(&mut v, seed);
    let ghost shuffled = chacha_shuffle(seed, pool);
    proof {
        assert(shuffled.to_multiset().len() == pool.to_multiset().len());
        assert(shuffled.len() == pool.len());
        assert(pool.no_duplicates());
        pool.lemma_multiset_has_no_duplicates();
        assert(forall|x: usize|
            shuffled.to_multiset().contains(x) ==> shuffled.to_multiset().count(x) == 1);
        shuffled.lemma_multiset_has_no_duplicates_conv();
        assert forall|x: usize| shuffled.contains(x) implies x < cfg.n by {
            assert(shuffled.to_multiset().count(x) > 0);
            assert(pool.to_multiset().count(x) > 0);
            assert(pool.contains(x));
            let j = choose|j: int| 0 <= j < pool.len() && pool[j] == x;
        }
    }
    v.truncate(cfg.k);
    proof {
        assert(v@ =~= shuffled.take(cfg.k as int));
        assert(forall|i: int, j: int|
            0 <= i < j < v@.len() ==> v@[i] == shuffled[i] && v@[j] == shuffled[j]);
        assert(v@.no_duplicates());
        assert forall|i: int| 0 <= i < v@.len() implies (#[trigger] v@[i]) < cfg.n by {
            assert(shuffled.contains(shuffled[i]));
        }
    }
    v
}

} // verus!
