use vstd::prelude::*;
use froggy_rand::FroggyRand;
use crate::game::CoordPos;
use crate::map::RowId;
use crate::rng::{spec_choice_index, spec_split_mix_64};

verus! {

// A `froggy_rand::FroggyRand` is nothing but its public `seed`; this library holds the seed.

/// The lookup3 hash that `froggy_rand` takes of a string key.
pub uninterp spec fn str_key_hash(key: Seq<char>) -> u64;

/// The lookup3 hash that `froggy_rand` takes of the key `(seed, round_id, row)` of a map row.
pub uninterp spec fn row_key_hash(seed: u32, round_id: u8, row: u32) -> u64;

/// The lookup3 hash that `froggy_rand` takes of a tile `(x, y)`.
pub uninterp spec fn pos_key_hash(x: i32, y: i32) -> u64;

/// The lookup3 hash that `froggy_rand` takes of the key `(i, seed)` of a sub-generator.
pub uninterp spec fn subrand_key_hash(i: i32, seed: u64) -> u64;

/// The value `FroggyRand::gen` gives for a key with hash `h`: SplitMix64 at the seed plus `h`.
pub open spec fn froggy_gen(seed: u64, h: u64) -> u64 {
    spec_split_mix_64(seed.wrapping_add(h))
}

/// `gen_unit` is `(gen % 1_000_000) as f32 / 1_000_000.0`; for the thresholds this library
/// compares it with (0.15, 0.25, 0.5 and 0.6 as `f32`), `gen_unit < m / 1_000_000` holds
/// exactly when `gen % 1_000_000 < m`.
pub open spec fn unit_below(g: u64, millionths: u64) -> bool {
    g % 1_000_000 < millionths
}

/// `FroggyRand::from_hash((seed, round_id, row_id))`: the seed of the generator of a map row.
/// Its value is left unsaid beyond being the named hash of the three values.
#[verifier::external_body]
pub(crate) fn row_rand(seed: u32, round_id: u8, row_id: RowId) -> (r: u64)
    ensures
        r == row_key_hash(seed, round_id, row_id.0),
{
    FroggyRand::from_hash((seed, round_id, row_id)).seed
}

/// `FroggyRand::gen` with a string key: SplitMix64 at the seed plus the key's hash.
#[verifier::external_body]
pub(crate) fn gen_str(seed: u64, key: &str) -> (r: u64)
    ensures
        r == froggy_gen(seed, str_key_hash(key@)),
{
    FroggyRand::new(seed).gen(key)
}

/// `FroggyRand::gen` with a tile as key: SplitMix64 at the seed plus the tile's hash.
#[verifier::external_body]
pub(crate) fn gen_pos(seed: u64, pos: CoordPos) -> (r: u64)
    ensures
        r == froggy_gen(seed, pos_key_hash(pos.x, pos.y)),
{
    FroggyRand::new(seed).gen(pos)
}

/// `FroggyRand::choose` with a string key: the choice at `(gen % u32::MAX) % len`.
#[verifier::external_body]
pub(crate) fn choose_str<X: Copy>(seed: u64, key: &str, choices: &[X]) -> (r: X)
    requires
        choices@.len() > 0,
    ensures
        r == choices@[spec_choice_index(froggy_gen(seed, str_key_hash(key@)), choices@.len())],
{
    *FroggyRand::new(seed).choose(key, choices)
}

/// `FroggyRand::subrand(i)`: the seed of the generator keyed by `(i, seed)`.
#[verifier::external_body]
pub(crate) fn subrand(seed: u64, i: i32) -> (r: u64)
    ensures
        r == subrand_key_hash(i, seed),
{
    FroggyRand::new(seed).subrand(i).seed
}

} // verus!
