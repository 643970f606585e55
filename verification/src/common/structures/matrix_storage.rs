//! How one hash selects a column in every row of a matrix.
//!
//! A packed hash carries one lane of column bits per row: with `b` bits per
//! column index, row `r` reads the `b` bits from bit `r * b` on.

use vstd::arithmetic::div_mod::*;
use vstd::arithmetic::power2::*;
use vstd::bits::*;
use vstd::prelude::*;

verus! {

/// The bits that it takes to write any column index of a row of `cols`
/// columns, i.e. the logarithm of `cols` rounded up.
pub open spec fn column_bits(cols: nat) -> nat
    decreases cols,
{
    if cols <= 1 {
        0
    } else {
        1 + column_bits((cols + 1) / 2)
    }
}

/// The `bits` bits of `hash` from bit `at` on.
pub open spec fn bits_at(hash: nat, at: nat, bits: nat) -> nat {
    (hash / pow2(at)) % pow2(bits)
}

/// `b` bits are enough for `cols` columns, and no fewer are.
proof fn lemma_column_bits(cols: nat, b: nat)
    requires
        cols >= 1,
        cols <= pow2(b),
        b == 0 || pow2((b - 1) as nat) < cols,
    ensures
        column_bits(cols) == b,
    decreases b,
{
    lemma2_to64();
    if b > 0 {
        lemma_pow2_unfold(b);
        lemma_pow2_pos((b - 1) as nat);
        if b > 1 {
            lemma_pow2_unfold((b - 1) as nat);
        }
        lemma_column_bits((cols + 1) / 2, (b - 1) as nat);
    }
}

/// The column bits are enough for every column, and one fewer is not.
pub proof fn law_column_bits_cover(cols: nat)
    requires
        cols >= 1,
    ensures
        cols <= pow2(column_bits(cols)),
        cols > 1 ==> pow2((column_bits(cols) - 1) as nat) < cols,
    decreases cols,
{
    lemma2_to64();
    if cols > 1 {
        let half = (cols + 1) / 2;
        law_column_bits_cover(half);
        lemma_pow2_unfold(column_bits(cols));
        if half > 1 {
            lemma_pow2_unfold(column_bits(half));
        }
    }
}

/// A power of two needs exactly its exponent in column bits.
pub proof fn lemma_column_bits_of_power(b: nat)
    ensures
        column_bits(pow2(b)) == b,
{
    lemma_pow2_pos(b);
    if b > 0 {
        lemma_pow2_strictly_increases((b - 1) as nat, b);
    }
    lemma_column_bits(pow2(b), b);
}

/// The bit width of one column index.
pub fn mask_bits_for_cols(cols: usize) -> (bits: u32)
    requires
        cols > 0,
    ensures
        bits == column_bits(cols as nat),
        bits <= 64,
{
    let mut bits: u32 = 0;
    let mut covered: u128 = 1;
    proof {
        lemma2_to64();
        lemma2_to64_rest();
    }
    while covered < cols as u128
        invariant
            covered == pow2(bits as nat),
            covered <= 0x1_0000_0000_0000_0000,
            bits <= 64,
            bits == 64 ==> covered == 0x1_0000_0000_0000_0000,
            cols > 0,
            bits > 0 ==> pow2((bits - 1) as nat) < cols,
        decreases 0x2_0000_0000_0000_0000 - covered,
    {
        proof {
            lemma_pow2_unfold((bits + 1) as nat);
            lemma2_to64();
            lemma2_to64_rest();
            if bits == 63 {
                assert(covered == 0x8000_0000_0000_0000);
            }
            if bits < 63 {
                lemma_pow2_strictly_increases((bits + 1) as nat, 64);
            }
        }
        covered = covered * 2;
        bits = bits + 1;
    }
    proof {
        lemma_column_bits(cols as nat, bits as nat);
    }
    bits
}

/// A power of two.
pub open spec fn is_power(n: nat) -> bool {
    exists|e: nat| n == #[trigger] pow2(e)
}

/// Whether `n` is a power of two.
pub fn is_power_of_two(n: usize) -> (power: bool)
    requires
        n > 0,
    ensures
        power == is_power(n as nat),
{
    let bits: u32 = mask_bits_for_cols(n);
    proof {
        lemma_shifted_bit(bits);
        if is_power(n as nat) {
            let e = choose|e: nat| n as nat == pow2(e);
            lemma_column_bits_of_power(e);
        }
    }
    n as u128 == 1u128 << bits
}

/// A shifted bit is a power of two.
pub proof fn lemma_shifted_bit(b: u32)
    requires
        b < 128,
    ensures
        1u128 << b == pow2(b as nat),
    decreases b,
{
    lemma2_to64();
    if b == 0 {
        assert(1u128 << 0u32 == 1) by (bit_vector);
    } else {
        let c = (b - 1) as u32;
        lemma_shifted_bit(c);
        lemma_pow2_unfold(b as nat);
        assert(1u128 << b == 2 * (1u128 << c)) by (bit_vector)
            requires
                0 < b < 128,
                c == b - 1,
        ;
    }
}

/// Masking the low bits of a number is taking its remainder.
pub proof fn lemma_mask_is_remainder(x: u128, mask: u128, b: u32)
    requires
        b < 128,
        mask == pow2(b as nat) - 1,
    ensures
        (x & mask) == (x as nat) % pow2(b as nat),
    decreases b,
{
    lemma2_to64();
    lemma_pow2_pos(b as nat);
    if b == 0 {
        assert(x & 0 == 0) by (bit_vector);
    } else {
        let c = (b - 1) as u32;
        let half = x / 2;
        let low = (mask / 2) as u128;
        lemma_pow2_unfold(b as nat);
        lemma_mask_is_remainder(half, low, c);
        assert(mask == 2 * low + 1);
        assert((x & mask) == 2 * (half & low) + x % 2) by (bit_vector)
            requires
                mask == 2 * low + 1,
                half == x / 2,
                low <= 0x7FFF_FFFF_FFFF_FFFF_FFFF_FFFF_FFFF_FFFF,
        ;
        let p = pow2(c as nat) as int;
        lemma_pow2_pos(c as nat);
        lemma_mod_breakdown(x as int, 2, p);
        assert((x as int) % (2 * p) == 2 * ((x as int / 2) % p) + (x as int) % 2);
    }
}

/// A hash that carries a lane of column bits for each row.
pub trait MatrixFastHash {
    /// The lane of `row` in a hash that is read `mask_bits` bits per row.
    spec fn lane(&self, row: int, mask_bits: int) -> int;

    /// The hash is wide enough to hold the lane of `row`.
    spec fn has_lane(&self, row: int, mask_bits: int) -> bool;

    /// Reads the lane of `row`. `mask` has the low `mask_bits` bits set.
    fn row_hash(&self, row: usize, mask_bits: u32, mask: u128) -> (lane: u128)
        requires
            self.has_lane(row as int, mask_bits as int),
            mask_bits <= 64,
            mask == pow2(mask_bits as nat) - 1,
        ensures
            lane == self.lane(row as int, mask_bits as int),
    ;

    /// The column that the hash selects in `row` of a matrix with `cols`
    /// columns.
    fn col_for_row(&self, row: usize, cols: usize) -> (col: usize)
        requires
            cols > 0,
            self.has_lane(row as int, column_bits(cols as nat) as int),
        ensures
            col == self.lane(row as int, column_bits(cols as nat) as int) % cols as int,
            col < cols,
    {
        let mask_bits: u32 = mask_bits_for_cols(cols);
        proof {
            lemma_shifted_bit(mask_bits);
            lemma_pow2_pos(mask_bits as nat);
        }
        let mask: u128 = (1u128 << mask_bits) - 1;
        fold_to_col(self.row_hash(row, mask_bits, mask), cols)
    }
}

/// The column that `hash` selects in `row`: its lane, folded into the width.
pub open spec fn column<H: MatrixFastHash + ?Sized>(hash: &H, row: int, cols: int) -> int {
    hash.lane(row, column_bits(cols as nat) as int) % cols
}

/// Folds a lane into a column index. A lane that is one already is kept as it
/// is, which a power-of-two width makes of every lane.
pub fn fold_to_col(raw: u128, cols: usize) -> (col: usize)
    requires
        cols > 0,
    ensures
        col == raw as int % cols as int,
        col < cols,
{
    if raw < cols as u128 {
        proof {
            lemma_small_mod(raw as nat, cols as nat);
        }
        raw as usize
    } else {
        (raw % cols as u128) as usize
    }
}

/// Reads `mask_bits` bits of `hash` from bit `at` on.
fn read_bits(hash: u128, at: u32, mask_bits: u32, mask: u128) -> (bits: u128)
    requires
        at < 128,
        mask_bits <= 64,
        mask == pow2(mask_bits as nat) - 1,
    ensures
        bits == bits_at(hash as nat, at as nat, mask_bits as nat),
{
    let shifted: u128 = hash >> at;
    proof {
        lemma_u128_shr_is_div(hash, at as u128);
        assert(hash >> at == hash >> (at as u128)) by (bit_vector);
        lemma_mask_is_remainder(shifted, mask, mask_bits);
    }
    shifted & mask
}

/// A lane of a 128-bit hash exists while it starts inside the hash.
impl MatrixFastHash for u128 {
    open spec fn lane(&self, row: int, mask_bits: int) -> int {
        bits_at(*self as nat, (row * mask_bits) as nat, mask_bits as nat) as int
    }

    open spec fn has_lane(&self, row: int, mask_bits: int) -> bool {
        row * mask_bits < 128
    }

    fn row_hash(&self, row: usize, mask_bits: u32, mask: u128) -> (lane: u128) {
        let at: u32 = lane_start(row, mask_bits, 128);
        read_bits(*self, at, mask_bits, mask)
    }
}

/// A lane of a 64-bit hash exists while it starts inside the hash.
impl MatrixFastHash for u64 {
    open spec fn lane(&self, row: int, mask_bits: int) -> int {
        bits_at(*self as nat, (row * mask_bits) as nat, mask_bits as nat) as int
    }

    open spec fn has_lane(&self, row: int, mask_bits: int) -> bool {
        row * mask_bits < 64
    }

    fn row_hash(&self, row: usize, mask_bits: u32, mask: u128) -> (lane: u128) {
        let at: u32 = lane_start(row, mask_bits, 64);
        read_bits(*self as u128, at, mask_bits, mask)
    }
}

/// The bit that a lane starts at.
fn lane_start(row: usize, mask_bits: u32, width: u32) -> (at: u32)
    requires
        row * mask_bits < width,
    ensures
        at == row * mask_bits,
{
    if mask_bits == 0 {
        assert(row * mask_bits == 0) by (nonlinear_arith)
            requires
                mask_bits == 0,
        ;
        0
    } else {
        assert(row <= row * mask_bits) by (nonlinear_arith)
            requires
                mask_bits >= 1,
        ;
        row as u32 * mask_bits
    }
}

/// A packed hash, as wide as the matrix that it addresses needs it.
#[derive(Clone, Copy, Debug, PartialEq, Eq)]
pub enum MatrixHashType {
    /// All lanes in 64 bits.
    Packed64(u64),
    /// All lanes in 128 bits.
    Packed128(u128),
}

impl MatrixFastHash for MatrixHashType {
    open spec fn lane(&self, row: int, mask_bits: int) -> int {
        match self {
            MatrixHashType::Packed64(hash) => hash.lane(row, mask_bits),
            MatrixHashType::Packed128(hash) => hash.lane(row, mask_bits),
        }
    }

    open spec fn has_lane(&self, row: int, mask_bits: int) -> bool {
        match self {
            MatrixHashType::Packed64(hash) => hash.has_lane(row, mask_bits),
            MatrixHashType::Packed128(hash) => hash.has_lane(row, mask_bits),
        }
    }

    fn row_hash(&self, row: usize, mask_bits: u32, mask: u128) -> (lane: u128) {
        match self {
            MatrixHashType::Packed64(hash) => hash.row_hash(row, mask_bits, mask),
            MatrixHashType::Packed128(hash) => hash.row_hash(row, mask_bits, mask),
        }
    }
}

/// A lane is a field of the hash: row `r` reads the `bits` bits from bit
/// `r * bits` on, of a hash of either width, and there is such a field while it
/// starts inside the hash.
pub proof fn law_lanes_are_bit_fields(narrow: u64, wide: u128, row: int, bits: int)
    requires
        row >= 0,
        bits >= 0,
    ensures
        MatrixFastHash::lane(&narrow, row, bits) == (narrow as nat / pow2((row * bits) as nat))
            % pow2(bits as nat),
        MatrixFastHash::lane(&wide, row, bits) == (wide as nat / pow2((row * bits) as nat)) % pow2(
            bits as nat,
        ),
        MatrixFastHash::has_lane(&narrow, row, bits) <==> row * bits < 64,
        MatrixFastHash::has_lane(&wide, row, bits) <==> row * bits < 128,
        MatrixFastHash::lane(&MatrixHashType::Packed64(narrow), row, bits) == MatrixFastHash::lane(
            &narrow,
            row,
            bits,
        ),
        MatrixFastHash::lane(&MatrixHashType::Packed128(wide), row, bits) == MatrixFastHash::lane(
            &wide,
            row,
            bits,
        ),
        MatrixFastHash::has_lane(&MatrixHashType::Packed64(narrow), row, bits) <==> row * bits
            < 64,
        MatrixFastHash::has_lane(&MatrixHashType::Packed128(wide), row, bits) <==> row * bits
            < 128,
{
}

/// A power-of-two width takes a lane as its column, so every column is selected
/// by the bits of its row alone; any other width takes what is left of the lane
/// modulo the width.
pub proof fn law_column_is_the_lane_of_its_row(wide: u128, row: int, cols: int, b: nat)
    requires
        row >= 0,
        cols >= 1,
    ensures
        cols == pow2(b) ==> column(&wide, row, cols) == (wide as nat / pow2((row * b) as nat))
            % pow2(b),
        0 <= column(&wide, row, cols) < cols,
        column(&wide, row, cols) == MatrixFastHash::lane(
            &wide,
            row,
            column_bits(cols as nat) as int,
        ) % cols,
{
    let bits = column_bits(cols as nat);
    lemma_mod_bound(MatrixFastHash::lane(&wide, row, bits as int), cols);
    if cols == pow2(b) {
        lemma_column_bits_of_power(b);
        let lane = (wide as nat / pow2((row * b) as nat)) % pow2(b);
        lemma_pow2_pos(b);
        lemma_mod_bound((wide as nat / pow2((row * b) as nat)) as int, pow2(b) as int);
        lemma_small_mod(lane, pow2(b));
    }
}

/// A number is a power of two exactly where its column bits use every index.
pub proof fn law_powers_of_two(n: nat, e: nat)
    requires
        n >= 1,
    ensures
        n == pow2(e) ==> is_power(n) && column_bits(n) == e,
        is_power(n) <==> n == pow2(column_bits(n)),
{
    if n == pow2(e) {
        lemma_column_bits_of_power(e);
    }
    if is_power(n) {
        let f = choose|f: nat| n == #[trigger] pow2(f);
        lemma_column_bits_of_power(f);
    }
}

} // verus!
