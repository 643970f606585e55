//! Register arrays of a fixed precision.

use vstd::arithmetic::power2::*;
use vstd::prelude::*;

verus! {

/// The registers of a HyperLogLog of a precision that the type fixes.
pub trait HllRegisterStorage: Sized {
    /// The precision `p`.
    const PRECISION: usize;

    /// The bits of a hash behind those that select the register.
    const REGISTER_BITS: usize;

    /// The number of registers.
    const NUM_REGISTERS: usize;

    /// The registers.
    spec fn registers(&self) -> Seq<u8>;

    /// How the constants hang together.
    proof fn lemma_dimensions()
        ensures
            1 <= Self::PRECISION <= 18,
            Self::REGISTER_BITS == 64 - Self::PRECISION,
            Self::NUM_REGISTERS == pow2(Self::PRECISION as nat),
    ;

    /// There are as many registers as the constant says.
    proof fn lemma_len(&self)
        ensures
            self.registers().len() == Self::NUM_REGISTERS,
    ;

    /// Registers that have seen nothing.
    fn empty() -> (storage: Self)
        ensures
            storage.registers() == Seq::new(Self::NUM_REGISTERS as nat, |i: int| 0u8),
    ;

    /// The registers, to read.
    fn as_slice(&self) -> (slice: &[u8])
        ensures
            slice@ == self.registers(),
    ;

    /// Overwrites one register.
    fn set(&mut self, index: usize, rank: u8)
        requires
            index < Self::NUM_REGISTERS,
        ensures
            final(self).registers() == old(self).registers().update(index as int, rank),
    ;
}

/// The 4096 registers of precision 12.
#[derive(Clone, Debug)]
pub struct HllBucketListP12 {
    registers: [u8; 4096],
}

/// The 16384 registers of precision 14.
#[derive(Clone, Debug)]
pub struct HllBucketListP14 {
    registers: [u8; 16384],
}

/// The registers of the default precision.
pub type HllBucketList = HllBucketListP14;

impl HllRegisterStorage for HllBucketListP12 {
    const PRECISION: usize = 12;

    const REGISTER_BITS: usize = 52;

    const NUM_REGISTERS: usize = 4096;

    closed spec fn registers(&self) -> Seq<u8> {
        self.registers@
    }

    proof fn lemma_dimensions() {
        lemma2_to64();
    }

    proof fn lemma_len(&self) {
    }

    fn empty() -> (storage: Self) {
        let storage: Self = Self { registers: [0;4096] };
        assert(storage.registers@ =~= Seq::new(4096, |i: int| 0u8));
        storage
    }

    fn as_slice(&self) -> (slice: &[u8]) {
        self.registers.as_slice()
    }

    fn set(&mut self, index: usize, rank: u8) {
        self.registers[index] = rank;
    }
}

impl HllRegisterStorage for HllBucketListP14 {
    const PRECISION: usize = 14;

    const REGISTER_BITS: usize = 50;

    const NUM_REGISTERS: usize = 16384;

    closed spec fn registers(&self) -> Seq<u8> {
        self.registers@
    }

    proof fn lemma_dimensions() {
        lemma2_to64();
    }

    proof fn lemma_len(&self) {
    }

    fn empty() -> (storage: Self) {
        let storage: Self = Self { registers: [0;16384] };
        assert(storage.registers@ =~= Seq::new(16384, |i: int| 0u8));
        storage
    }

    fn as_slice(&self) -> (slice: &[u8]) {
        self.registers.as_slice()
    }

    fn set(&mut self, index: usize, rank: u8) {
        self.registers[index] = rank;
    }
}

/// The constants of the two precisions.
pub proof fn law_storage_constants()
    ensures
        HllBucketListP12::PRECISION == 12,
        HllBucketListP12::REGISTER_BITS == 52,
        HllBucketListP12::NUM_REGISTERS == 4096,
        HllBucketListP14::PRECISION == 14,
        HllBucketListP14::REGISTER_BITS == 50,
        HllBucketListP14::NUM_REGISTERS == 16384,
{
}

} // verus!
