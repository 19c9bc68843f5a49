//! The deterministic pseudo-random source.

use rand_xoshiro::rand_core::{RngCore, SeedableRng};
use rand_xoshiro::Xoshiro256PlusPlus;
use vstd::prelude::*;

verus! {

/// The generator behind [`Prng`].
#[verifier::external_type_specification]
#[verifier::external_body]
pub struct ExXoshiro256PlusPlus(Xoshiro256PlusPlus);

/// The value that the generator returns as its `n`-th one from here on.
pub uninterp spec fn upcoming(generator: Xoshiro256PlusPlus, n: nat) -> u64;

/// The `n`-th value of the stream that `seed_from_u64` starts.
pub uninterp spec fn seeded_draw(seed: u64, n: nat) -> u64;

/// `Xoshiro256PlusPlus::seed_from_u64`: the values that the new generator will
/// return depend on `seed` alone.
#[verifier::external_body]
fn xoshiro_seeded(seed: u64) -> (generator: Xoshiro256PlusPlus)
    ensures
        forall|n: nat| #[trigger] upcoming(generator, n) == seeded_draw(seed, n),
{
    Xoshiro256PlusPlus::seed_from_u64(seed)
}

/// `Xoshiro256PlusPlus::next_u64`: returns the next value of the stream and
/// moves on by one.
#[verifier::external_body]
fn xoshiro_next(generator: &mut Xoshiro256PlusPlus) -> (value: u64)
    ensures
        value == upcoming(*old(generator), 0),
        forall|n: nat|
            #[trigger] upcoming(*final(generator), n) == upcoming(*old(generator), n + 1),
{
    generator.next_u64()
}

/// Offset basis of the 64-bit FNV-1a hash.
pub const FNV_OFFSET: u64 = 0xCBF2_9CE4_8422_2325;

/// Prime of the 64-bit FNV-1a hash.
pub const FNV_PRIME: u64 = 0x0000_0100_0000_01B3;

/// The 64-bit FNV-1a hash of `bytes`.
pub open spec fn fnv1a(bytes: Seq<u8>) -> u64
    decreases bytes.len(),
{
    if bytes.len() == 0 {
        FNV_OFFSET
    } else {
        vstd::wrapping::u64_specs::wrapping_mul(
            fnv1a(bytes.drop_last()) ^ (bytes.last() as u64),
            FNV_PRIME,
        )
    }
}

/// Root pseudo-random source of the node. The seed it was made with is kept,
/// so that sub-seeds do not depend on how much was drawn.
pub struct Prng {
    pub inner: Xoshiro256PlusPlus,
    pub seed: u64,
    pub drawn: Ghost<nat>,
}

impl Prng {
    /// The generator stands `drawn` values into the stream of `seed`.
    pub open spec fn wf(self) -> bool {
        forall|n: nat|
            #[trigger] upcoming(self.inner, n) == seeded_draw(self.seed, n + self.drawn@)
    }

    /// A source seeded with `seed`.
    pub fn new(seed: u64) -> (prng: Prng)
        ensures
            prng.wf(),
            prng.seed == seed,
            prng.drawn@ == 0,
    {
        Prng { inner: xoshiro_seeded(seed), seed, drawn: Ghost(0) }
    }

    /// The next 64-bit value of the stream.
    pub fn next_u64(&mut self) -> (value: u64)
        requires
            old(self).wf(),
        ensures
            final(self).wf(),
            value == seeded_draw(old(self).seed, old(self).drawn@),
            final(self).seed == old(self).seed,
            final(self).drawn@ == old(self).drawn@ + 1,
    {
        let ghost drawn = self.drawn@;
        let value: u64 = xoshiro_next(&mut self.inner);
        self.drawn = Ghost(drawn + 1);
        proof {
            assert forall|n: nat|
                #[trigger] upcoming(self.inner, n) == seeded_draw(
                    self.seed,
                    n + self.drawn@,
                ) by {
                assert(upcoming(old(self).inner, n + 1) == seeded_draw(
                    self.seed,
                    (n + 1) + drawn,
                ));
                assert((n + 1) + drawn == n + self.drawn@);
            }
            assert(upcoming(old(self).inner, 0) == seeded_draw(self.seed, 0 + drawn));
        }
        value
    }

    /// The sub-seed for `label`: a function of the seed and the label alone,
    /// however much was drawn before.
    pub fn derive_subseed(&self, label: &[u8]) -> (subseed: u64)
        ensures
            subseed == self.seed ^ fnv1a(label@),
    {
        let mut hash: u64 = FNV_OFFSET;
        let mut i: usize = 0;
        while i < label.len()
            invariant
                i <= label@.len(),
                hash == fnv1a(label@.take(i as int)),
            decreases label@.len() - i,
        {
            assert(label@.take(i + 1).drop_last() =~= label@.take(i as int));
            hash = (hash ^ (label[i] as u64)).wrapping_mul(FNV_PRIME);
            i = i + 1;
        }
        assert(label@.take(i as int) =~= label@);
        self.seed ^ hash
    }
}

} // verus!
