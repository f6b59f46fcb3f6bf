use vstd::prelude::*;

verus! {

#[verifier::external_type_specification]
#[verifier::external_body]
pub struct ExStdRng(rand::rngs::StdRng);

/// The source of randomness for the computer players, wrapping rand's
/// `StdRng`.
///
/// A seeded source makes a whole search reproducible; an entropy-seeded one
/// behaves differently on every call.
pub struct MoveRng {
    pub inner: rand::rngs::StdRng,
}

impl MoveRng {
    /// A deterministic source: the same seed always yields the same draws.
    pub fn from_seed(seed: u64) -> (r: MoveRng) {
        MoveRng { inner: seeded_std_rng(seed) }
    }

    /// A fresh source seeded from system entropy.
    pub fn from_entropy() -> (r: MoveRng) {
        MoveRng { inner: entropy_std_rng() }
    }
}

/// Relies on rand's `SeedableRng::seed_from_u64` for `StdRng`: builds the
/// generator from a 64-bit seed.
#[verifier::external_body]
fn seeded_std_rng(seed: u64) -> rand::rngs::StdRng {
    <rand::rngs::StdRng as rand::SeedableRng>::seed_from_u64(seed)
}

/// Relies on rand's `SeedableRng::from_entropy` for `StdRng`: builds the
/// generator from system entropy.
#[verifier::external_body]
fn entropy_std_rng() -> rand::rngs::StdRng {
    <rand::rngs::StdRng as rand::SeedableRng>::from_entropy()
}

/// Relies on rand's `SliceRandom::shuffle`: a Fisher-Yates pass only swaps
/// elements in place, so the result holds exactly the items given, possibly
/// reordered.
#[verifier::external_body]
pub(crate) fn shuffle_vec<T>(v: &mut Vec<T>, rng: &mut MoveRng)
    ensures
        final(v)@.to_multiset() == old(v)@.to_multiset(),
{
    rand::seq::SliceRandom::shuffle(v.as_mut_slice(), &mut rng.inner);
}

/// Relies on rand's `SliceRandom::choose`: it returns `None` exactly on an
/// empty slice and otherwise one of the slice's elements, picked uniformly.
#[verifier::external_body]
pub(crate) fn choose_from<T: Copy>(v: &Vec<T>, rng: &mut MoveRng) -> (r: Option<T>)
    ensures
        match r {
            Option::Some(x) => v@.contains(x),
            Option::None => v@.len() == 0,
        },
{
    rand::seq::SliceRandom::choose(v.as_slice(), &mut rng.inner).copied()
}

} // verus!
