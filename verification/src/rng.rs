use vstd::prelude::*;
use std::hash::Hash;
use std::hash::Hasher;

verus! {

/// The SplitMix64 output function on index `index`, in 64-bit wrapping arithmetic.
pub open spec fn spec_split_mix_64(index: u64) -> u64 {
    let z0 = index.wrapping_add(0x9E3779B97F4A7C15u64);
    let z1 = (z0 ^ (z0 >> 30u64)).wrapping_mul(0xBF58476D1CE4E5B9u64);
    let z2 = (z1 ^ (z1 >> 27u64)).wrapping_mul(0x94D049BB133111EBu64);
    z2 ^ (z2 >> 31u64)
}

pub fn split_mix_64(index: u64) -> (r: u64)
    ensures
        r == spec_split_mix_64(index),
{
    let mut z = index.wrapping_add(0x9E3779B97F4A7C15u64);
    z = (z ^ (z >> 30u64)).wrapping_mul(0xBF58476D1CE4E5B9u64);
    z = (z ^ (z >> 27u64)).wrapping_mul(0x94D049BB133111EBu64);
    z ^ (z >> 31u64)
}

/// The value that a seeded generator gives for an input whose hash is `hash`.
pub open spec fn spec_gen(seed: u64, hash: u64) -> u64 {
    spec_split_mix_64(seed.wrapping_add(hash))
}

/// The index into a list of `len` choices that a generated value `g` selects.
pub open spec fn spec_choice_index(g: u64, len: nat) -> int {
    ((g % 0xFFFF_FFFFu64) as int) % (len as int)
}

/// The platform-independent hash of `x`: the Jenkins lookup3 hash (crate `hashers`) of the
/// little-endian byte stream that `DeterministicHasher` (crate `deterministic_hash`) feeds it.
/// What the hash is, is left unsaid: it depends on how the type writes itself.
#[verifier::external_body]
fn hash<T: Hash>(x: T) -> u64 {
    let mut hasher = deterministic_hash::DeterministicHasher::new(hashers::jenkins::Lookup3Hasher::default());
    x.hash(&mut hasher);
    hasher.finish()
}

/// A stateless random generator: every value is a function of the seed and an input key.
#[derive(Debug, Clone)]
pub struct FroggyRng {
    seed: u64,
}

impl FroggyRng {
    pub closed spec fn seed(&self) -> u64 {
        self.seed
    }

    pub fn new(seed: u64) -> (r: Self)
        ensures
            r.seed() == seed,
    {
        FroggyRng { seed }
    }

    /// A generator seeded by the hash of `x`; which hash a key of any `Hash` type gets is left
    /// unsaid, and `new` states the generator for a given seed.
    pub fn from_hash<T: Hash>(x: T) -> (r: Self) {
        Self::new(hash(x))
    }

    /// The value for an input whose hash is `hash`.
    pub fn gen_with_hash(&self, hash: u64) -> (r: u64)
        ensures
            r == spec_gen(self.seed(), hash),
    {
        let index = self.seed.wrapping_add(hash);
        split_mix_64(index)
    }

    /// The value for the input `x`: `gen_with_hash` at the hash of `x`. Which hash a key of
    /// any `Hash` type gets is left unsaid; `gen_with_hash` states the value for a given hash.
    pub fn gen<T: Hash>(&self, x: T) -> (r: u64) {
        let h = hash(x);
        self.gen_with_hash(h)
    }

    /// The choice that an input whose hash is `hash` selects.
    pub fn choose_with_hash<'a, X>(&self, hash: u64, choices: &'a [X]) -> (r: &'a X)
        requires
            choices@.len() > 0,
        ensures
            *r == choices@[spec_choice_index(spec_gen(self.seed(), hash), choices@.len())],
    {
        let g = self.gen_with_hash(hash);
        let index = g % 0xFFFF_FFFFu64;
        let i = (index as usize) % choices.len();
        &choices[i]
    }

    /// The choice that the input `x` selects: `choose_with_hash` at the hash of `x`, which is
    /// left unsaid as for `gen`; `choose_with_hash` states the choice for a given hash.
    pub fn choose_one<'a, T: Hash, X>(&self, x: T, choices: &'a [X]) -> (r: &'a X)
        requires
            choices@.len() > 0,
    {
        let h = hash(x);
        self.choose_with_hash(h, choices)
    }
}

} // verus!
