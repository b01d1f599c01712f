//! The seeded pseudo-random generator, with its draws tracked as a history.

use rand::Rng;
use rand_xoshiro::rand_core::SeedableRng;
use rand_xoshiro::Xoshiro256Plus;
use vstd::prelude::*;

verus! {

#[verifier::external_type_specification]
#[verifier::external_body]
pub struct ExXoshiro256Plus(Xoshiro256Plus);

/// The value of the last of a series of uniform draws `0..bounds[k]`, made in
/// order from a `Xoshiro256Plus` generator seeded with `seed`.
pub uninterp spec fn range_draw_of(seed: Seq<u8>, bounds: Seq<nat>) -> nat;

/// The indices that `rand::seq::index::sample(length, amount)` draws, in the
/// order it returns them, from a `Xoshiro256Plus` generator seeded with `seed`
/// after the uniform draws `0..bounds[k]`.
pub uninterp spec fn index_sample_of(seed: Seq<u8>, bounds: Seq<nat>, length: nat, amount: nat) -> Seq<usize>;

/// A `Xoshiro256Plus` generator together with the seed that it was made
/// from and the bounds of the uniform draws made from it so far.
pub(crate) struct Generator {
    rng: Xoshiro256Plus,
    seed: Ghost<Seq<u8>>,
    bounds: Ghost<Seq<nat>>,
}

impl Generator {
    pub(crate) closed spec fn seed(&self) -> Seq<u8> {
        self.seed@
    }

    pub(crate) closed spec fn bounds(&self) -> Seq<nat> {
        self.bounds@
    }

    /// Relies on `Xoshiro256Plus::from_seed`: a generator whose output
    /// depends on the seed alone.
    #[verifier::external_body]
    pub(crate) fn from_seed(seed: [u8; 32]) -> (g: Generator)
        ensures
            g.seed() == seed@,
            g.bounds() == Seq::<nat>::empty(),
    {
        Generator { rng: Xoshiro256Plus::from_seed(seed), seed: Ghost(seed@), bounds: Ghost(Seq::empty()) }
    }

    /// Relies on `rand::Rng::gen_range` over `u64`: one uniform draw in
    /// `0..bound`, a function of the generator's seed and earlier draws.
    #[verifier::external_body]
    pub(crate) fn gen_below(&mut self, bound: usize) -> (r: usize)
        requires
            bound > 0,
        ensures
            final(self).seed() == old(self).seed(),
            final(self).bounds() == old(self).bounds().push(bound as nat),
            r as nat == range_draw_of(final(self).seed(), final(self).bounds()),
            r < bound,
    {
        let r = self.rng.gen_range(0..bound as u64) as usize;
        self.bounds = Ghost(self.bounds@.push(bound as nat));
        r
    }

    /// Relies on `rand::seq::index::sample`: exactly `amount` distinct
    /// indices below `length`, a function of the generator's seed and
    /// earlier draws.
    #[verifier::external_body]
    pub(crate) fn sample_indices(self, length: usize, amount: usize) -> (r: Vec<usize>)
        requires
            amount <= length,
        ensures
            r@ == index_sample_of(self.seed(), self.bounds(), length as nat, amount as nat),
            r@.len() == amount,
            r@.no_duplicates(),
            forall|k: int| 0 <= k < r@.len() ==> r@[k] < length,
    {
        let mut rng = self.rng;
        rand::seq::index::sample(&mut rng, length, amount).into_vec()
    }
}

} // verus!
