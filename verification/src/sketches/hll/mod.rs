//! HyperLogLog: distinct counting with an array of small registers.
//!
//! A value is hashed once. The top `p` bits of the hash select one of `2^p`
//! registers, and the register keeps the largest rank it has seen: the
//! position of the first set bit among the bits that are left.
//!
//! [`rank`] splits a hash, [`storage`] holds registers of a fixed precision,
//! and [`wire`] is the stored form of the sketches here.

pub mod laws;
pub mod rank;
pub mod storage;
pub mod wire;

use crate::common::hash::{DefaultXxHasher, SketchHasher, CANONICAL_HASH_SEED};
use crate::common::input::DataInput;
use std::marker::PhantomData;
use storage::{HllBucketListP12, HllBucketListP14, HllRegisterStorage};
use vstd::arithmetic::power2::*;
use vstd::prelude::*;

verus! {

/// Marks the classic estimator.
#[derive(Clone, Copy, Debug)]
pub struct Classic;

/// Marks Ertl's maximum-likelihood estimator.
#[derive(Clone, Copy, Debug)]
pub struct ErtlMLE;

/// A register to raise, and the rank to raise it to.
#[derive(Clone, Copy, Debug)]
pub struct HllDelta {
    /// The register.
    pub pos: u16,
    /// The rank.
    pub value: u8,
}

/// The larger of two registers.
pub open spec fn larger(a: u8, b: u8) -> u8 {
    if a < b {
        b
    } else {
        a
    }
}

/// Registers after a rank has been recorded in one of them.
pub open spec fn record(registers: Seq<u8>, index: int, rank: u8) -> Seq<u8> {
    registers.update(index, larger(registers[index], rank))
}

/// Raises a register to a rank, unless it is there already.
fn raise<Registers: HllRegisterStorage>(registers: &mut Registers, index: usize, rank: u8)
    requires
        index < Registers::NUM_REGISTERS,
    ensures
        final(registers).registers() == record(old(registers).registers(), index as int, rank),
{
    proof {
        registers.lemma_len();
    }
    if registers.as_slice()[index] < rank {
        registers.set(index, rank);
    }
    assert(registers.registers() =~= record(old(registers).registers(), index as int, rank));
}

/// A HyperLogLog sketch, generic over the estimator, the register storage and
/// the hasher.
#[derive(Debug)]
pub struct HyperLogLogImpl<Variant, Registers: HllRegisterStorage, H: SketchHasher> {
    registers: Registers,
    _marker: PhantomData<Variant>,
    _hasher: PhantomData<H>,
}

/// A sketch of precision 14 under the standard hasher.
pub type HyperLogLog<Variant> = HyperLogLogImpl<Variant, HllBucketListP14, DefaultXxHasher>;

/// A sketch of precision 12 under the standard hasher.
pub type HyperLogLogP12<Variant> = HyperLogLogImpl<Variant, HllBucketListP12, DefaultXxHasher>;

impl<Variant, Registers: HllRegisterStorage, H: SketchHasher> View for HyperLogLogImpl<
    Variant,
    Registers,
    H,
> {
    type V = Seq<u8>;

    closed spec fn view(&self) -> Seq<u8> {
        self.registers.registers()
    }
}

impl<Variant, Registers: HllRegisterStorage, H: SketchHasher> Default for HyperLogLogImpl<
    Variant,
    Registers,
    H,
> {
    /// A sketch that has seen nothing.
    fn default() -> (sketch: Self)
        ensures
            sketch@ == Seq::new(Registers::NUM_REGISTERS as nat, |i: int| 0u8),
    {
        Self { registers: Registers::empty(), _marker: PhantomData, _hasher: PhantomData }
    }
}

/// The registers after `input` was seen.
pub open spec fn insert<Registers: HllRegisterStorage, H: SketchHasher>(
    registers: Seq<u8>,
    input: DataInput<'_>,
) -> Seq<u8> {
    let hash = H::hash64(CANONICAL_HASH_SEED as int, input);
    record(
        registers,
        rank::register_of(hash, Registers::PRECISION as int),
        rank::rank_of(hash, Registers::PRECISION as int) as u8,
    )
}

impl<Variant, Registers: HllRegisterStorage, H: SketchHasher> HyperLogLogImpl<
    Variant,
    Registers,
    H,
> {
    /// There are as many registers as the storage says.
    pub proof fn lemma_len(&self)
        ensures
            self@.len() == Registers::NUM_REGISTERS,
    {
        self.registers.lemma_len();
    }

    /// A sketch with the given registers.
    pub fn from_registers(registers: Registers) -> (sketch: Self)
        ensures
            sketch@ == registers.registers(),
    {
        Self { registers, _marker: PhantomData, _hasher: PhantomData }
    }

    /// Records that `input` was seen.
    pub fn insert(&mut self, input: &DataInput<'_>)
        ensures
            final(self)@ == insert::<Registers, H>(old(self)@, *input),
    {
        let hash: u64 = H::hash64_seeded(CANONICAL_HASH_SEED, input);
        proof {
            Registers::lemma_dimensions();
            lemma_precision_mask(Registers::PRECISION as u32);
        }
        let precision: u32 = Registers::PRECISION as u32;
        let (index, rank) = rank::register_and_rank(hash, precision, (1u64 << precision) - 1);
        raise(&mut self.registers, index, rank);
    }

    /// Raises one register, to any rank.
    pub fn apply_delta(&mut self, delta: HllDelta)
        requires
            delta.pos < Registers::NUM_REGISTERS,
        ensures
            final(self)@ == record(old(self)@, delta.pos as int, delta.value),
    {
        raise(&mut self.registers, delta.pos as usize, delta.value);
    }

    /// The registers.
    pub fn registers_as_slice(&self) -> (registers: &[u8])
        ensures
            registers@ == self@,
    {
        self.registers.as_slice()
    }

    /// The register storage.
    pub fn storage(&self) -> (registers: &Registers)
        ensures
            registers.registers() == self@,
    {
        &self.registers
    }
}

/// The mask of a precision.
proof fn lemma_precision_mask(precision: u32)
    requires
        1 <= precision <= 18,
    ensures
        1u64 << precision == pow2(precision as nat),
        pow2(precision as nat) >= 1,
{
    lemma2_to64();
    lemma_pow2_pos(precision as nat);
    if precision < 18 {
        lemma_pow2_strictly_increases(precision as nat, 18);
    }
    vstd::bits::lemma_u64_shl_is_mul(1, precision as u64);
    assert(1u64 << precision == 1u64 << (precision as u64)) by (bit_vector);
}

/// A HyperLogLog sketch with the running scalars of the historic inverse
/// probability estimator. The scalars are IEEE doubles, held by their bits.
#[derive(Debug)]
pub struct HyperLogLogHIPImpl<Registers: HllRegisterStorage> {
    /// The registers.
    pub registers: Registers,
    /// The sum of the inverse powers of the small ranks.
    pub kxq0: u64,
    /// The sum of the inverse powers of the large ranks.
    pub kxq1: u64,
    /// The estimate.
    pub est: u64,
}

/// A sketch of precision 14.
pub type HyperLogLogHIP = HyperLogLogHIPImpl<HllBucketListP14>;

/// A sketch of precision 12.
pub type HyperLogLogHIPP12 = HyperLogLogHIPImpl<HllBucketListP12>;

impl<Registers: HllRegisterStorage> Default for HyperLogLogHIPImpl<Registers> {
    /// A sketch that has seen nothing: the first sum is the number of registers
    /// (the double `2^p`, whose exponent field is `1023 + p`), the other two
    /// scalars are zero.
    fn default() -> (sketch: Self)
        ensures
            sketch.registers.registers() == Seq::new(
                Registers::NUM_REGISTERS as nat,
                |i: int| 0u8,
            ),
            sketch.kxq0 == (1023 + Registers::PRECISION) * 0x10_0000_0000_0000,
            sketch.kxq1 == 0,
            sketch.est == 0,
    {
        proof {
            Registers::lemma_dimensions();
        }
        Self {
            registers: Registers::empty(),
            kxq0: (1023 + Registers::PRECISION as u64) * 0x10_0000_0000_0000,
            kxq1: 0,
            est: 0,
        }
    }
}

} // verus!
