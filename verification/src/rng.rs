//! A seeded pseudo-random generator: rand's `StdRng` behind a counted
//! draw stream, so that every draw is a function of the seed and of how
//! many draws came before it.

use vstd::prelude::*;

verus! {

#[verifier::external_type_specification]
#[verifier::external_body]
pub struct ExStdRng(rand::rngs::StdRng);

/// The value that a generator seeded with `seed` yields on its `n`-th
/// draw. rand documents `StdRng` as deterministic given its seed (the
/// algorithm may change between rand versions, but the lock file pins
/// one), so this is a genuine function of the two arguments; nothing
/// more is assumed about it.
pub uninterp spec fn draw_of(seed: u64, n: nat) -> u64;

/// Relies on rand's `SeedableRng::seed_from_u64` for `StdRng`: builds the
/// generator whose draw stream `draw_of(seed, _)` names.
#[verifier::external_body]
fn stdrng_from_seed(seed: u64) -> rand::rngs::StdRng {
    <rand::rngs::StdRng as rand::SeedableRng>::seed_from_u64(seed)
}

/// A seeded generator together with a count of the draws taken from it,
/// so that contracts can name each drawn value.
///
/// The two ghost fields mirror how `rng` was made and how often it was
/// asked: `rng` always holds the state of a generator seeded with
/// `seed_g` after `drawn_g` draws. Only `new` and `next` touch the
/// fields, and both keep that correspondence.
pub struct Prng {
    rng: rand::rngs::StdRng,
    seed_g: Ghost<u64>,
    drawn_g: Ghost<nat>,
}

impl Prng {
    /// The seed this generator was built from.
    pub closed spec fn seed(self) -> u64 {
        self.seed_g@
    }

    /// How many values have been drawn so far.
    pub closed spec fn drawn(self) -> nat {
        self.drawn_g@
    }

    /// A fresh generator seeded with `seed`; no draws taken yet.
    pub fn new(seed: u64) -> (r: Prng)
        ensures
            r.seed() == seed,
            r.drawn() == 0,
    {
        Prng { rng: stdrng_from_seed(seed), seed_g: Ghost(seed), drawn_g: Ghost(0nat) }
    }

    /// Relies on rand's `Rng::gen::<u64>`: drawing from `StdRng` yields
    /// the next value of the stream that the seed determines.
    #[verifier::external_body]
    pub fn next(&mut self) -> (x: u64)
        ensures
            x == draw_of(old(self).seed(), old(self).drawn()),
            final(self).seed() == old(self).seed(),
            final(self).drawn() == old(self).drawn() + 1,
    {
        rand::Rng::gen(&mut self.rng)
    }

    /// The next draw reduced below `n`, as the builders pick indices:
    /// `draw % n`.
    pub fn next_below(&mut self, n: usize) -> (r: usize)
        requires
            n >= 1,
        ensures
            r < n,
            r == draw_of(old(self).seed(), old(self).drawn()) as int % n as int,
            final(self).seed() == old(self).seed(),
            final(self).drawn() == old(self).drawn() + 1,
    {
        let x = self.next();
        (x % (n as u64)) as usize
    }
}

} // verus!
