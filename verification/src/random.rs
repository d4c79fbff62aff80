//! The random source that items are built from: a PCG generator of the
//! `rand_pcg` crate, drawn through the `rand` crate's interface.
use vstd::prelude::*;
use rand_pcg::Mcg128Xsl64;

verus! {

#[verifier::external_type_specification]
#[verifier::external_body]
pub struct ExMcg128Xsl64(Mcg128Xsl64);

/// Calls `rand_pcg::Mcg128Xsl64::new` (`Pcg64Mcg::new`) on `seed`. Nothing is
/// claimed of the generator it returns.
#[verifier::external_body]
fn pcg_new(seed: u128) -> (r: Mcg128Xsl64) {
    Mcg128Xsl64::new(seed)
}

/// Calls `rand::RngCore::next_u64` on the generator. The value depends on the
/// generator's hidden state, so nothing is claimed of it.
#[verifier::external_body]
fn pcg_next_u64(rng: &mut Mcg128Xsl64) -> (r: u64) {
    rand::RngCore::next_u64(rng)
}

/// Calls `rand::Rng::gen_range(low, high)` on the generator with `u64`
/// bounds. Its documentation promises a value in `[low, high)` and a panic
/// when `low >= high`, which `requires` leaves out.
#[verifier::external_body]
fn pcg_range_u64(rng: &mut Mcg128Xsl64, low: u64, high: u64) -> (r: u64)
    requires
        low < high,
    ensures
        low <= r < high,
{
    rand::Rng::gen_range(rng, low, high)
}

/// Calls `rand::Rng::gen_range(low, high)` on the generator with `i64`
/// bounds. Its documentation promises a value in `[low, high)` and a panic
/// when `low >= high`, which `requires` leaves out.
#[verifier::external_body]
fn pcg_range_i64(rng: &mut Mcg128Xsl64, low: i64, high: i64) -> (r: i64)
    requires
        low < high,
    ensures
        low <= r < high,
{
    rand::Rng::gen_range(rng, low, high)
}

/// Calls `rand::Rng::gen_range(low, high)` on the generator with `usize`
/// bounds. Its documentation promises a value in `[low, high)` and a panic
/// when `low >= high`, which `requires` leaves out.
#[verifier::external_body]
fn pcg_range_usize(rng: &mut Mcg128Xsl64, low: usize, high: usize) -> (r: usize)
    requires
        low < high,
    ensures
        low <= r < high,
{
    rand::Rng::gen_range(rng, low, high)
}

/// A seeded random source. Besides the generator it keeps, for proofs, the
/// list of every value it has handed out, oldest first.
pub struct Rand {
    rng: Mcg128Xsl64,
    drawn: Ghost<Seq<int>>,
}

impl Rand {
    /// Every value this source has handed out, oldest first.
    pub closed spec fn history(&self) -> Seq<int> {
        self.drawn@
    }

    /// A source seeded with `seed`.
    pub fn new(seed: u128) -> (r: Rand)
        ensures
            r.history() == Seq::<int>::empty(),
    {
        Rand { rng: pcg_new(seed), drawn: Ghost(Seq::empty()) }
    }

    /// The next raw 64-bit value.
    pub fn next(&mut self) -> (r: u64)
        ensures
            final(self).history() == old(self).history().push(r as int),
    {
        let r = pcg_next_u64(&mut self.rng);
        self.drawn = Ghost(self.drawn@.push(r as int));
        r
    }

    /// A value in `[min, max)`.
    pub fn rand_u64(&mut self, min: u64, max: u64) -> (r: u64)
        requires
            min < max,
        ensures
            min <= r < max,
            final(self).history() == old(self).history().push(r as int),
    {
        let r = pcg_range_u64(&mut self.rng, min, max);
        self.drawn = Ghost(self.drawn@.push(r as int));
        r
    }

    /// A value in `[min, max)`.
    pub fn rand_i64(&mut self, min: i64, max: i64) -> (r: i64)
        requires
            min < max,
        ensures
            min <= r < max,
            final(self).history() == old(self).history().push(r as int),
    {
        let r = pcg_range_i64(&mut self.rng, min, max);
        self.drawn = Ghost(self.drawn@.push(r as int));
        r
    }

    /// A value in `[min, max)`.
    pub fn rand_usize(&mut self, min: usize, max: usize) -> (r: usize)
        requires
            min < max,
        ensures
            min <= r < max,
            final(self).history() == old(self).history().push(r as int),
    {
        let r = pcg_range_usize(&mut self.rng, min, max);
        self.drawn = Ghost(self.drawn@.push(r as int));
        r
    }
}

} // verus!
