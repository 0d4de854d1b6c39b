//! The deterministic random source. One seeded generator is threaded through
//! queue shuffling, weighted distribution draws and uniform choices, so a run
//! is a function of its seed and inputs. The generator itself comes from the
//! `rand` crate; each use is wrapped here with a contract stating what holds
//! of every outcome.

use rand::distributions::Distribution;
use rand::seq::SliceRandom;
use rand::Rng;
use rand::SeedableRng;
use vstd::prelude::*;

verus! {

#[verifier::external_type_specification]
#[verifier::external_body]
pub struct ExStdRng(rand::rngs::StdRng);

/// Relies on `rand::SeedableRng::seed_from_u64`: builds the pseudorandom
/// generator from a seed. The same seed always yields the same stream, which
/// is what makes runs reproducible; nothing about the stream is assumed here.
#[verifier::external_body]
pub fn seed_rng(seed: u64) -> rand::rngs::StdRng {
    rand::rngs::StdRng::seed_from_u64(seed)
}

/// Relies on `rand::seq::SliceRandom::shuffle`: permutes the slice in place,
/// so the multiset of elements is unchanged.
#[verifier::external_body]
pub fn shuffle_pids(rng: &mut rand::rngs::StdRng, v: &mut Vec<usize>)
    ensures
        final(v)@.to_multiset() == old(v)@.to_multiset(),
{
    v.shuffle(rng)
}

/// The total of a weight column.
pub open spec fn sum_weights(s: Seq<usize>) -> int
    decreases s.len(),
{
    if s.len() == 0 {
        0
    } else {
        s[0] + sum_weights(s.drop_first())
    }
}

/// Appending a weight adds it to the total.
pub proof fn lemma_sum_push(s: Seq<usize>, x: usize)
    ensures
        sum_weights(s.push(x)) == sum_weights(s) + x,
    decreases s.len(),
{
    assert(s.push(x).len() == s.len() + 1);
    assert(sum_weights(s.push(x)) == s.push(x)[0] + sum_weights(s.push(x).drop_first()));
    if s.len() == 0 {
        assert(s.push(x)[0] == x);
        assert(s.push(x).drop_first() =~= Seq::<usize>::empty());
        assert(sum_weights(s.push(x).drop_first()) == 0);
    } else {
        assert(s.push(x)[0] == s[0]);
        assert(s.push(x).drop_first() =~= s.drop_first().push(x));
        lemma_sum_push(s.drop_first(), x);
        assert(sum_weights(s) == s[0] + sum_weights(s.drop_first()));
    }
}

/// Extending a prefix by one element adds that element's weight.
pub proof fn lemma_sum_take_next(s: Seq<usize>, j: int)
    requires
        0 <= j < s.len(),
    ensures
        sum_weights(s.take(j + 1)) == sum_weights(s.take(j)) + s[j],
{
    assert(s.take(j + 1) =~= s.take(j).push(s[j]));
    lemma_sum_push(s.take(j), s[j]);
}

/// A prefix never weighs more than the whole column.
pub proof fn lemma_sum_take_le(s: Seq<usize>, j: int)
    requires
        0 <= j <= s.len(),
    ensures
        sum_weights(s.take(j)) <= sum_weights(s),
    decreases s.len() - j,
{
    if j == s.len() {
        assert(s.take(j) =~= s);
    } else {
        lemma_sum_take_next(s, j);
        lemma_sum_take_le(s, j + 1);
    }
}

/// Relies on `rand::distributions::WeightedIndex`: `new` fails exactly when
/// no weight is positive (weights are unsigned, so no weight is invalid), and
/// `sample` returns an index drawn with probability proportional to its
/// weight, hence one with positive weight. `new` sums the weights, so the
/// total must fit in the weight type.
#[verifier::external_body]
pub fn weighted_choice(rng: &mut rand::rngs::StdRng, weights: &Vec<usize>) -> (r: Option<usize>)
    requires
        sum_weights(weights@) <= usize::MAX,
    ensures
        (match r {
            Some(i) => i < weights@.len() && weights@[i as int] > 0,
            None => forall|i: int| 0 <= i < weights@.len() ==> weights@[i] == 0,
        }),
{
    match rand::distributions::WeightedIndex::new(weights.iter()) {
        Ok(dist) => Some(dist.sample(rng)),
        Err(_) => None,
    }
}

/// Relies on `rand::Rng::gen_range`: returns a uniform value of the given
/// non-empty range.
#[verifier::external_body]
pub fn choose_index(rng: &mut rand::rngs::StdRng, len: usize) -> (r: usize)
    requires
        len > 0,
    ensures
        r < len,
{
    rng.gen_range(0..len)
}

} // verus!
