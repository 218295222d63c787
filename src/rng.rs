use rand::{Rng, SeedableRng};
use rand_chacha::ChaCha8Rng;
use vstd::prelude::*;

verus! {

/// The seeded ChaCha generator; opaque to proofs.
#[verifier::external_type_specification]
#[verifier::external_body]
pub struct ExChaCha8Rng(ChaCha8Rng);

/// The value that `gen_range(lo..hi)` returns on a `ChaCha8Rng` seeded with
/// `seed` by `seed_from_u64`, after it has served the ranges `earlier`, in
/// order. The generator's output depends on the seed and the draws made
/// before alone.
pub uninterp spec fn chacha8_draw(seed: u64, earlier: Seq<(u32, u32)>, lo: u32, hi: u32) -> u32;

/// A ChaCha8 generator with the seed it was made from and the ranges it has
/// served so far. Only the trusted constructor and `draw` set these.
pub struct SeededRng {
    inner: ChaCha8Rng,
    seed: Ghost<u64>,
    ranges: Ghost<Seq<(u32, u32)>>,
}

impl SeededRng {
    /// The seed the generator was made from.
    pub closed spec fn seed(&self) -> u64 {
        self.seed@
    }

    /// The ranges served so far, oldest first.
    pub closed spec fn ranges(&self) -> Seq<(u32, u32)> {
        self.ranges@
    }

    /// Relies on `SeedableRng::seed_from_u64` for `ChaCha8Rng`: a fresh
    /// generator whose stream is fixed by `seed`.
    #[verifier::external_body]
    pub fn new(seed: u64) -> (r: SeededRng)
        ensures
            r.seed() == seed,
            r.ranges() == Seq::<(u32, u32)>::empty(),
    {
        SeededRng { inner: ChaCha8Rng::seed_from_u64(seed), seed: Ghost(seed), ranges: Ghost(Seq::empty()) }
    }

    /// Relies on `Rng::gen_range` with a half-open `u32` range: the value lies
    /// in `[lo, hi)` and is fixed by the seed and the earlier draws; the call
    /// panics on an empty range, which `requires` excludes.
    #[verifier::external_body]
    pub fn draw(&mut self, lo: u32, hi: u32) -> (r: u32)
        requires
            lo < hi,
        ensures
            lo <= r < hi,
            r == chacha8_draw(old(self).seed(), old(self).ranges(), lo, hi),
            final(self).seed() == old(self).seed(),
            final(self).ranges() == old(self).ranges().push((lo, hi)),
    {
        self.inner.gen_range(lo..hi)
    }
}

} // verus!
