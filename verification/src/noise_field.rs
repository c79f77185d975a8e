//! The noise field's generator and its seed.
//!
//! The field is sampled in floating point, which this library does not do;
//! it holds the generator, made once from a seed, for its callers to sample.

use vstd::prelude::*;

verus! {

/// The Perlin noise generator of the `noise` crate. What is inside it is
/// opaque to the verifier.
#[verifier::external_type_specification]
#[verifier::external_body]
pub struct ExPerlin(noise::Perlin);

/// The generator that `noise::Perlin::new` makes from a seed.
pub uninterp spec fn perlin_of_seed(seed: u32) -> noise::Perlin;

/// `noise::Perlin::new`: the generator for a seed. It is made from the seed
/// alone, so one seed always gives the same generator.
#[verifier::external_body]
fn perlin_from_seed(seed: u32) -> (generator: noise::Perlin)
    ensures
        generator == perlin_of_seed(seed),
{
    noise::Perlin::new(seed)
}

/// `rand::thread_rng().gen()`: a 32-bit number from the thread's random
/// number generator. Nothing is known of it.
#[verifier::external_body]
fn random_seed() -> (seed: u32) {
    rand::Rng::gen(&mut rand::thread_rng())
}

/// The noise generator together with the seed it was made from. The pair is
/// made once and never changes, so the same point always samples alike.
pub struct PerlinInfo {
    seed: u32,
    generator: noise::Perlin,
}

impl PerlinInfo {
    /// The seed that the generator was made from.
    pub closed spec fn spec_seed(&self) -> u32 {
        self.seed
    }

    /// The generator.
    pub closed spec fn spec_generator(&self) -> noise::Perlin {
        self.generator
    }

    /// The generator is the one that belongs to the seed.
    pub open spec fn wf(&self) -> bool {
        self.spec_generator() == perlin_of_seed(self.spec_seed())
    }

    /// The noise field for a given seed.
    pub fn new(seed: u32) -> (info: Self)
        ensures
            info.wf(),
            info.spec_seed() == seed,
    {
        PerlinInfo { seed, generator: perlin_from_seed(seed) }
    }

    /// The noise field for a seed drawn at random.
    pub fn from_entropy() -> (info: Self)
        ensures
            info.wf(),
    {
        let seed: u32 = random_seed();
        PerlinInfo::new(seed)
    }

    /// The seed that the generator was made from.
    #[verifier::when_used_as_spec(spec_seed)]
    pub fn seed(&self) -> (seed: u32)
        ensures
            seed == self.spec_seed(),
    {
        self.seed
    }

    /// The generator, for sampling.
    pub fn generator(&self) -> (generator: &noise::Perlin)
        ensures
            *generator == self.spec_generator(),
    {
        &self.generator
    }
}

/// Two noise fields with the same seed hold the same generator.
pub proof fn lemma_seed_fixes_generator(a: PerlinInfo, b: PerlinInfo)
    requires
        a.wf(),
        b.wf(),
        a.spec_seed() == b.spec_seed(),
    ensures
        a.spec_generator() == b.spec_generator(),
{
}

} // verus!
