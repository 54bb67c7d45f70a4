//! Random choices, made with the small generator of `rand`.
//!
//! The generator is deterministic, but `rand` does not promise the same numbers on every platform,
//! so only what holds of every outcome is stated, and which calls the outcomes came from.
use rand::rngs::SmallRng;
use rand::seq::SliceRandom;
use rand::SeedableRng;
use vstd::prelude::*;

verus! {

#[verifier::external_type_specification]
#[verifier::external_body]
pub struct ExSmallRng(rand::rngs::SmallRng);

/// `SeedableRng::seed_from_u64`: a generator for the seed. Nothing is said of the numbers that it
/// will give.
#[verifier::external_body]
fn rng_from_seed(seed: u64) -> (rng: SmallRng) {
    SmallRng::seed_from_u64(seed)
}

/// `SliceRandom::shuffle`: the values come in another order, and are the same otherwise; and the
/// generator that is left. Which order that is, and what becomes of the generator, is not said.
#[verifier::external_body]
fn shuffle(values: &Vec<usize>, rng: &SmallRng) -> (r: (Vec<usize>, SmallRng))
    ensures
        r.0@.to_multiset() == values@.to_multiset(),
{
    let mut shuffled = values.clone();
    let mut left = rng.clone();
    shuffled.shuffle(&mut left);
    (shuffled, left)
}

/// `SliceRandom::choose_multiple`: the values at `amount` different positions, or at all
/// positions where there are fewer, in some order; and the generator that is left. Which positions
/// and which order these are, and what becomes of the generator, is not said.
#[verifier::external_body]
fn choose_values(values: &[usize], rng: &SmallRng, amount: usize) -> (r: (Vec<usize>, SmallRng))
    ensures
        r.0@.len() == if amount <= values@.len() { amount as nat } else { values@.len() },
        r.0@.to_multiset().subset_of(values@.to_multiset()),
{
    let mut left = rng.clone();
    let chosen = values.choose_multiple(&mut left, amount).copied().collect();
    (chosen, left)
}

/// The generator was made from the seed.
pub closed spec fn is_generator_of(seed: u64, rng: SmallRng) -> bool {
    call_ensures(rng_from_seed, (seed,), rng)
}

/// Makes a generator from the seed.
pub fn new_generator(seed: u64) -> (rng: SmallRng)
    ensures
        is_generator_of(seed, rng),
{
    rng_from_seed(seed)
}

/// Shuffling the values with the generator gave the others, and left the other generator.
pub closed spec fn is_shuffle(
    values: Seq<usize>,
    rng: SmallRng,
    shuffled: Seq<usize>,
    left: SmallRng,
) -> bool {
    exists|v: Vec<usize>, w: Vec<usize>|
        v@ == values && w@ == shuffled && #[trigger] call_ensures(shuffle, (&v, &rng), (w, left))
}

/// Shuffles the values with the generator.
pub fn shuffle_values(values: &mut Vec<usize>, rng: &mut SmallRng)
    ensures
        is_shuffle(old(values)@, *old(rng), final(values)@, *final(rng)),
        final(values)@.to_multiset() == old(values)@.to_multiset(),
{
    let (shuffled, left) = shuffle(values, rng);
    *values = shuffled;
    *rng = left;
}

/// Choosing among the values with the generator gave the chosen ones, and left the other generator.
pub closed spec fn is_choice(
    values: Seq<usize>,
    amount: usize,
    rng: SmallRng,
    chosen: Seq<usize>,
    left: SmallRng,
) -> bool {
    exists|s: &[usize], c: Vec<usize>|
        s@ == values && c@ == chosen && #[trigger] call_ensures(
            choose_values,
            (s, &rng, amount),
            (c, left),
        )
}

/// Chooses the values at so many positions, or all where there are fewer, with the generator.
pub fn choose_among(values: &[usize], rng: &mut SmallRng, amount: usize) -> (chosen: Vec<usize>)
    ensures
        is_choice(values@, amount, *old(rng), chosen@, *final(rng)),
        chosen@.len() == if amount <= values@.len() { amount as nat } else { values@.len() },
        chosen@.to_multiset().subset_of(values@.to_multiset()),
{
    let (chosen, left) = choose_values(values, rng, amount);
    *rng = left;
    chosen
}

} // verus!
