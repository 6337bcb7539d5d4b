//! The random source: a seedable, reproducible stream of integer draws.
//!
//! The stream itself comes from `rand_chacha`'s ChaCha8 generator. Verified
//! code sees every draw through [`Rng::gen_range_u64`], whose contract records
//! that a draw from a seeded generator is a pure function of the seed and of
//! the ranges served before it; that function is named [`chacha_range`] and
//! left uninterpreted.

use vstd::prelude::*;

verus! {

/// The abstract state of a random source: whether its stream is pinned by a
/// 64-bit seed, that seed, and the inclusive ranges served so far.
pub ghost struct RngModel {
    pub determined: bool,
    pub seed: u64,
    pub history: Seq<(u64, u64)>,
}

#[verifier::external_type_specification]
#[verifier::external_body]
pub struct ExChaCha8Rng(rand_chacha::ChaCha8Rng);

/// The value that a ChaCha8 generator seeded with `seed` yields for an
/// inclusive range `[lo, hi]` after serving the draws in `history`.
pub uninterp spec fn chacha_range(seed: u64, history: Seq<(u64, u64)>, lo: u64, hi: u64) -> u64;

/// A seedable random source. When built from a seed, every draw is pinned by
/// the seed and the draw history, so two sources with equal seeds serve equal
/// streams.
pub struct Rng {
    inner: rand_chacha::ChaCha8Rng,
    model: Ghost<RngModel>,
}

/// Relies on `rand_chacha::ChaCha8Rng::seed_from_u64`: deterministic in `seed`.
#[verifier::external_body]
fn chacha_from_seed(seed: u64) -> rand_chacha::ChaCha8Rng {
    <rand_chacha::ChaCha8Rng as rand::SeedableRng>::seed_from_u64(seed)
}

/// Relies on `rand_chacha::ChaCha8Rng::from_entropy`: a generator seeded from
/// the operating system; nothing is claimed of its stream.
#[verifier::external_body]
fn chacha_from_entropy() -> rand_chacha::ChaCha8Rng {
    <rand_chacha::ChaCha8Rng as rand::SeedableRng>::from_entropy()
}

impl Rng {
    pub closed spec fn model(&self) -> RngModel {
        self.model@
    }

    /// A source whose whole stream is a function of `seed`.
    pub fn from_seed(seed: u64) -> (r: Rng)
        ensures
            r.model().determined,
            r.model().seed == seed,
            r.model().history == Seq::<(u64, u64)>::empty(),
    {
        Rng {
            inner: chacha_from_seed(seed),
            model: Ghost(RngModel { determined: true, seed, history: Seq::empty() }),
        }
    }

    /// A source seeded from system entropy; its draws are only known to lie
    /// in the requested ranges.
    pub fn from_entropy() -> (r: Rng)
        ensures
            !r.model().determined,
    {
        Rng {
            inner: chacha_from_entropy(),
            model: Ghost(RngModel { determined: false, seed: 0, history: Seq::empty() }),
        }
    }

    /// Draws a uniform value from the inclusive range `[lo, hi]`.
    ///
    /// Relies on `rand::Rng::gen_range` over `ChaCha8Rng`: the result lies in
    /// the range, and — ChaCha8 and rand's integer sampler being deterministic
    /// and platform-independent — for a generator built by `seed_from_u64` it
    /// is a pure function of the seed and of the ranges served before.
    #[verifier::external_body]
    pub fn gen_range_u64(&mut self, lo: u64, hi: u64) -> (r: u64)
        requires
            lo <= hi,
        ensures
            lo <= r <= hi,
            final(self).model().determined == old(self).model().determined,
            final(self).model().seed == old(self).model().seed,
            final(self).model().history == old(self).model().history.push((lo, hi)),
            old(self).model().determined ==> r == chacha_range(
                old(self).model().seed,
                old(self).model().history,
                lo,
                hi,
            ),
    {
        rand::Rng::gen_range(&mut self.inner, lo..=hi)
    }

    /// Draws a uniform `u32` from `[lo, hi]`.
    pub fn gen_range_u32(&mut self, lo: u32, hi: u32) -> (r: u32)
        requires
            lo <= hi,
        ensures
            lo <= r <= hi,
            final(self).model().determined == old(self).model().determined,
            final(self).model().seed == old(self).model().seed,
            final(self).model().history == old(self).model().history.push((lo as u64, hi as u64)),
            old(self).model().determined ==> r as u64 == chacha_range(
                old(self).model().seed,
                old(self).model().history,
                lo as u64,
                hi as u64,
            ),
    {
        self.gen_range_u64(lo as u64, hi as u64) as u32
    }

    /// Draws a uniform `u8` from `[lo, hi]`.
    pub fn gen_range_u8(&mut self, lo: u8, hi: u8) -> (r: u8)
        requires
            lo <= hi,
        ensures
            lo <= r <= hi,
            final(self).model().determined == old(self).model().determined,
            final(self).model().seed == old(self).model().seed,
            final(self).model().history == old(self).model().history.push((lo as u64, hi as u64)),
            old(self).model().determined ==> r as u64 == chacha_range(
                old(self).model().seed,
                old(self).model().history,
                lo as u64,
                hi as u64,
            ),
    {
        self.gen_range_u64(lo as u64, hi as u64) as u8
    }

    /// Draws a uniform `usize` from `[lo, hi]`.
    pub fn gen_range_usize(&mut self, lo: usize, hi: usize) -> (r: usize)
        requires
            lo <= hi,
        ensures
            lo <= r <= hi,
            final(self).model().determined == old(self).model().determined,
            final(self).model().seed == old(self).model().seed,
            final(self).model().history == old(self).model().history.push((lo as u64, hi as u64)),
            old(self).model().determined ==> r as u64 == chacha_range(
                old(self).model().seed,
                old(self).model().history,
                lo as u64,
                hi as u64,
            ),
    {
        self.gen_range_u64(lo as u64, hi as u64) as usize
    }

    /// A weighted coin: true with probability `num / den`, taken from one
    /// draw over `[0, den - 1]`.
    pub fn gen_bool(&mut self, num: u32, den: u32) -> (r: bool)
        requires
            1 <= den,
            num <= den,
        ensures
            num == 0 ==> !r,
            num == den ==> r,
            final(self).model().determined == old(self).model().determined,
            final(self).model().seed == old(self).model().seed,
            final(self).model().history == old(self).model().history.push((0, (den - 1) as u64)),
            old(self).model().determined ==> r == (chacha_range(
                old(self).model().seed,
                old(self).model().history,
                0,
                (den - 1) as u64,
            ) < num as u64),
    {
        let draw = self.gen_range_u64(0, (den - 1) as u64);
        draw < num as u64
    }
}

} // verus!
