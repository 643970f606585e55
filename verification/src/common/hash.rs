//! Seeded hashing, and the profile that describes a hasher.

use super::input::DataInput;
use vstd::prelude::*;

verus! {

/// The index of the seed that single-hash sketches use.
pub const CANONICAL_HASH_SEED: usize = 5;

/// The seeds of the standard profile.
pub const SEED_LIST: [u64; 20] = [
    0xcafe3553,
    0xade3415118,
    0x8cc70208,
    0x2f024b2b,
    0x451a3df5,
    0x6a09e667,
    0xbb67ae85,
    0x3c6ef372,
    0xa54ff53a,
    0x510e527f,
    0x9b05688c,
    0x1f83d9ab,
    0x5be0cd19,
    0xcbbb9d5d,
    0x629a292a,
    0x9159015a,
    0x152fecd8,
    0x67332667,
    0x8eb44a87,
    0xdb0c2e0d,
];

/// A family of hash functions, one for each seed index.
pub trait SketchHasher {
    /// The 64-bit hash of `key` under seed index `d`. A hasher states which
    /// function it is; this body stands for one that does not.
    open spec fn hash64(d: int, key: DataInput<'_>) -> u64 {
        arbitrary()
    }

    /// The 128-bit hash of `key` under seed index `d`. A hasher states which
    /// function it is; this body stands for one that does not.
    open spec fn hash128(d: int, key: DataInput<'_>) -> u128 {
        arbitrary()
    }

    /// Hashes `key` to 64 bits under seed index `d`.
    fn hash64_seeded(d: usize, key: &DataInput<'_>) -> (hash: u64)
        ensures
            hash == Self::hash64(d as int, *key),
    ;

    /// Hashes `key` to 128 bits under seed index `d`.
    fn hash128_seeded(d: usize, key: &DataInput<'_>) -> (hash: u128)
        ensures
            hash == Self::hash128(d as int, *key),
    ;
}

/// How a hasher hashes, in terms that another implementation can follow. What
/// is stored under one profile is only read back under the same one.
pub trait HashProfile {
    /// The name of the profile.
    const PROFILE_ID: &'static str;

    /// The hash algorithm.
    const ALGORITHM: &'static str;

    /// How a seed index selects a seed.
    const SEED_DERIVATION: &'static str;

    /// How a value is turned into the bytes to hash.
    const INPUT_ENCODING: &'static str;

    /// The index of the seed that single-hash sketches use.
    const CANONICAL_SEED_INDEX: u32;

    /// The index of the seed that matrix sketches use.
    const MATRIX_SEED_INDEX: u32;

    /// The seeds. A profile states which they are; this body stands for one
    /// that does not.
    open spec fn seeds() -> Seq<u64> {
        arbitrary()
    }

    /// Lists the seeds. There are no more of them than a stored list can count.
    fn seed_list() -> (list: Vec<u64>)
        ensures
            list@ == Self::seeds(),
            list@.len() <= u32::MAX,
    ;
}

/// The value of `twox_hash::XxHash3_64::oneshot_with_seed` on a seed and the
/// bytes to hash.
pub uninterp spec fn xxh3_64(seed: u64, input: Seq<u8>) -> u64;

/// The value of `twox_hash::XxHash3_128::oneshot_with_seed` on a seed and the
/// bytes to hash.
pub uninterp spec fn xxh3_128(seed: u64, input: Seq<u8>) -> u128;

/// Calls `twox_hash::XxHash3_64::oneshot_with_seed`. It is trusted that the
/// result depends on the seed and the bytes alone.
#[verifier::external_body]
fn oneshot_64(seed: u64, input: &[u8]) -> (hash: u64)
    ensures
        hash == xxh3_64(seed, input@),
{
    twox_hash::XxHash3_64::oneshot_with_seed(seed, input)
}

/// Calls `twox_hash::XxHash3_128::oneshot_with_seed`. It is trusted that the
/// result depends on the seed and the bytes alone.
#[verifier::external_body]
fn oneshot_128(seed: u64, input: &[u8]) -> (hash: u128)
    ensures
        hash == xxh3_128(seed, input@),
{
    twox_hash::XxHash3_128::oneshot_with_seed(seed, input)
}

/// The standard hasher: XXH3, with seed index `d` standing for entry `d` of
/// [`SEED_LIST`], counted round.
#[derive(Clone, Copy, Debug)]
pub struct DefaultXxHasher;

/// The seed that a seed index stands for.
pub open spec fn seed_at(d: int) -> u64 {
    SEED_LIST@[d % 20]
}

/// Looks up the seed that a seed index stands for.
fn seed(d: usize) -> (s: u64)
    ensures
        s == seed_at(d as int),
{
    SEED_LIST[d % 20]
}

impl SketchHasher for DefaultXxHasher {
    open spec fn hash64(d: int, key: DataInput<'_>) -> u64 {
        xxh3_64(seed_at(d), key.encoding())
    }

    open spec fn hash128(d: int, key: DataInput<'_>) -> u128 {
        xxh3_128(seed_at(d), key.encoding())
    }

    fn hash64_seeded(d: usize, key: &DataInput<'_>) -> (hash: u64) {
        oneshot_64(seed(d), key.to_bytes().as_slice())
    }

    fn hash128_seeded(d: usize, key: &DataInput<'_>) -> (hash: u128) {
        oneshot_128(seed(d), key.to_bytes().as_slice())
    }
}

impl HashProfile for DefaultXxHasher {
    const PROFILE_ID: &'static str = "projectasap.default.v1";

    const ALGORITHM: &'static str = "xxh3_64_128";

    const SEED_DERIVATION: &'static str = "seed_list_index_wrap";

    const INPUT_ENCODING: &'static str = "projectasap.input.v1";

    const CANONICAL_SEED_INDEX: u32 = 5;

    const MATRIX_SEED_INDEX: u32 = 0;

    open spec fn seeds() -> Seq<u64> {
        SEED_LIST@
    }

    fn seed_list() -> (list: Vec<u64>) {
        let mut list: Vec<u64> = Vec::new();
        list.extend_from_slice(SEED_LIST.as_slice());
        assert(list@ =~= SEED_LIST@);
        list
    }
}

/// What the standard profile says.
pub proof fn law_standard_profile()
    ensures
        DefaultXxHasher::PROFILE_ID@ == "projectasap.default.v1"@,
        DefaultXxHasher::ALGORITHM@ == "xxh3_64_128"@,
        DefaultXxHasher::SEED_DERIVATION@ == "seed_list_index_wrap"@,
        DefaultXxHasher::INPUT_ENCODING@ == "projectasap.input.v1"@,
        DefaultXxHasher::seeds() == SEED_LIST@,
        DefaultXxHasher::CANONICAL_SEED_INDEX == CANONICAL_HASH_SEED,
        DefaultXxHasher::MATRIX_SEED_INDEX == 0,
{
}

/// A seed index stands for its entry of the seed list, counted round, and the
/// standard hasher is XXH3 under that seed, on the bytes of the key.
pub proof fn law_standard_hasher_is_seeded_xxh3(d: int, key: DataInput<'_>)
    requires
        d >= 0,
    ensures
        d < 20 ==> seed_at(d) == SEED_LIST@[d],
        seed_at(d + 20) == seed_at(d),
        DefaultXxHasher::hash64(d, key) == xxh3_64(seed_at(d), key.encoding()),
        DefaultXxHasher::hash128(d, key) == xxh3_128(seed_at(d), key.encoding()),
{
    if d < 20 {
        vstd::arithmetic::div_mod::lemma_small_mod(d as nat, 20);
    }
    vstd::arithmetic::div_mod::lemma_mod_add_multiples_vanish(d, 20);
    assert(20 + d == d + 20);
}

} // verus!
