//! The register and the rank that a hash stands for.

use vstd::arithmetic::div_mod::*;
use vstd::arithmetic::logarithm::*;
use vstd::arithmetic::power2::*;
use vstd::bits::*;
use vstd::prelude::*;
use vstd::std_specs::bits::*;

verus! {

/// The register that a 64-bit hash selects: its top `precision` bits.
pub open spec fn register_of(hash: u64, precision: int) -> int {
    hash as int / pow2((64 - precision) as nat) as int
}

/// The bits of a 64-bit hash behind those that select the register.
pub open spec fn rest_of(hash: u64, precision: int) -> int {
    hash as int % pow2((64 - precision) as nat) as int
}

/// The position of the first set bit among the low `bits` bits of `rest`,
/// counted from one at the top; one more than `bits` where none is set.
pub open spec fn first_set(rest: int, bits: int) -> int {
    if rest == 0 {
        bits + 1
    } else {
        bits - log(2, rest)
    }
}

/// The rank of a 64-bit hash.
pub open spec fn rank_of(hash: u64, precision: int) -> int {
    first_set(rest_of(hash, precision), 64 - precision)
}

/// A number between two powers of two has the lower exponent as its
/// logarithm.
proof fn lemma_log_between(n: int, e: nat)
    requires
        pow2(e) <= n < pow2(e + 1),
    ensures
        log(2, n) == e,
    decreases e,
{
    lemma2_to64();
    if e == 0 {
        lemma_log0(2, n);
    } else {
        lemma_pow2_unfold(e);
        lemma_pow2_unfold(e + 1);
        lemma_pow2_pos((e - 1) as nat);
        lemma_log_s(2, n);
        lemma_log_between(n / 2, (e - 1) as nat);
    }
}

/// A rank is at least one, and at most one more than the bits it counts.
pub proof fn lemma_rank_bounds(hash: u64, precision: int)
    requires
        1 <= precision <= 63,
    ensures
        1 <= rank_of(hash, precision) <= 64 - precision + 1,
        0 <= register_of(hash, precision) < pow2(precision as nat),
{
    let bits = (64 - precision) as nat;
    lemma_pow2_pos(bits);
    let rest = rest_of(hash, precision);
    lemma_mod_bound(hash as int, pow2(bits) as int);
    if rest > 0 {
        lemma_log_nonnegative(2, rest);
        lemma_log_below(rest, bits);
    }
    lemma2_to64_rest();
    lemma_pow2_adds(precision as nat, bits);
    let unit = pow2(bits) as int;
    let count = pow2(precision as nat) as int;
    lemma_div_pos_is_pos(hash as int, unit);
    lemma_fundamental_div_mod(hash as int, unit);
    lemma_mod_bound(hash as int, unit);
    let q = hash as int / unit;
    assert(q < count) by (nonlinear_arith)
        requires
            unit * q <= hash as int,
            hash < count * unit,
            unit > 0,
    ;
}

/// A positive number below a power of two has a smaller logarithm.
proof fn lemma_log_below(n: int, e: nat)
    requires
        0 < n < pow2(e),
    ensures
        log(2, n) < e,
    decreases e,
{
    lemma2_to64();
    if e > 0 {
        lemma_pow2_unfold(e);
        if n < pow2((e - 1) as nat) {
            lemma_log_below(n, (e - 1) as nat);
        } else {
            lemma_log_between(n, (e - 1) as nat);
        }
    }
}

/// What a number of leading zeros says about a number.
proof fn lemma_leading_zeros(x: u64)
    requires
        x > 0,
    ensures
        0 <= u64_leading_zeros(x) < 64,
        pow2((63 - u64_leading_zeros(x)) as nat) <= x < pow2((64 - u64_leading_zeros(x)) as nat),
{
    axiom_u64_leading_zeros(x);
    let zeros = u64_leading_zeros(x) as u64;
    let low = (63 - zeros) as u64;
    let shifted = x >> low;
    assert(shifted & 1 != 0 ==> shifted >= 1) by (bit_vector);
    lemma_u64_shr_is_div(x, low);
    lemma_pow2_pos(low as nat);
    let p = pow2(low as nat) as int;
    assert(x >= p) by (nonlinear_arith)
        requires
            x as int / p >= 1,
            p > 0,
            x >= 0,
    ;
    lemma2_to64_rest();
    if zeros > 0 {
        let high = (64 - zeros) as u64;
        lemma_u64_shr_is_div(x, high);
        lemma_pow2_pos(high as nat);
        let q = pow2(high as nat) as int;
        assert(x < q) by (nonlinear_arith)
            requires
                x as int / q == 0,
                q > 0,
                x >= 0,
        ;
    }
}

/// Splits a hash into the register it selects and the rank it records there.
///
/// `p_mask` has the low `precision` bits set. It fills the bits that the
/// register index was shifted out of, so the rank of a hash without a set bit
/// behind the index stops there.
pub fn register_and_rank(hash: u64, precision: u32, p_mask: u64) -> (place: (usize, u8))
    requires
        1 <= precision <= 18,
        p_mask == pow2(precision as nat) - 1,
    ensures
        place.0 == register_of(hash, precision as int),
        place.1 == rank_of(hash, precision as int),
        place.0 < pow2(precision as nat),
        1 <= place.1 <= 64 - precision + 1,
{
    let register_bits: u32 = 64 - precision;
    let ghost p = precision as int;
    proof {
        lemma_rank_bounds(hash, p);
        lemma2_to64();
        lemma2_to64_rest();
        if precision < 18 {
            lemma_pow2_strictly_increases(precision as nat, 18);
        }
        // The register.
        let shift = register_bits as u64;
        lemma_u64_shr_is_div(hash, shift);
        assert(hash >> register_bits == hash >> shift) by (bit_vector)
            requires
                register_bits == shift,
        ;
        lemma_u64_low_bits_mask_is_mod(hash >> register_bits, precision as nat);
        lemma_small_mod((hash >> register_bits) as nat, pow2(precision as nat));
        // The bits behind it, moved to the top.
        lemma_u64_low_bits_mask_is_mod(hash, register_bits as nat);
        lemma_u64_pow2_no_overflow(register_bits as nat);
        let low = low_bits_mask(register_bits as nat) as u64;
        let rest = hash & low;
        lemma_pow2_adds(register_bits as nat, precision as nat);
        lemma_mod_bound(hash as int, pow2(register_bits as nat) as int);
        let unit = pow2(precision as nat) as int;
        let top = pow2(register_bits as nat) as int;
        assert(rest as int * unit <= top * unit - unit) by (nonlinear_arith)
            requires
                0 <= rest < top,
                unit > 0,
        ;
        lemma_u64_shl_is_mul(rest, precision as u64);
        lemma_u64_shl_is_mul(1, register_bits as u64);
        let one = 1u64 << (register_bits as u64);
        assert(hash << precision == rest << (precision as u64)) by (bit_vector)
            requires
                1 <= precision <= 18,
                register_bits == 64 - precision,
                one == 1u64 << (register_bits as u64),
                low == one - 1,
                rest == hash & low,
        ;
        // Its leading zeros.
        let x = ((hash << precision) + p_mask) as u64;
        lemma_leading_zeros(x);
        let e = 63 - u64_leading_zeros(x);
        if rest == 0 {
            lemma_pow2_unfold(precision as nat);
            lemma_pow2_unique(e as nat, (p - 1) as nat, x as int);
        } else {
            lemma_scaled_log(rest as int, p as nat, x as int, e as nat);
        }
    }
    let index: usize = ((hash >> register_bits) & p_mask) as usize;
    let rank: u8 = ((hash << precision) + p_mask).leading_zeros() as u8 + 1;
    (index, rank)
}

/// A number lies between one pair of neighbouring powers of two only.
proof fn lemma_pow2_unique(a: nat, b: nat, x: int)
    requires
        pow2(a) <= x < pow2(a + 1),
        pow2(b) <= x < pow2(b + 1),
    ensures
        a == b,
{
    lemma_log_between(x, a);
    lemma_log_between(x, b);
}

/// Moving a number up by `p` bits, and filling those, adds `p` to its
/// logarithm.
proof fn lemma_scaled_log(rest: int, p: nat, x: int, e: nat)
    requires
        rest > 0,
        x == rest * pow2(p) + pow2(p) - 1,
        pow2(e) <= x < pow2(e + 1),
    ensures
        log(2, rest) == e - p,
{
    let unit = pow2(p) as int;
    lemma_pow2_pos(p);
    assert(rest * unit >= unit) by (nonlinear_arith)
        requires
            rest >= 1,
            unit > 0,
    ;
    if e < p {
        if e + 1 < p {
            lemma_pow2_strictly_increases(e + 1, p);
        }
        assert(false);
    }
    let d = (e - p) as nat;
    lemma_pow2_adds(p, d);
    lemma_pow2_adds(p, d + 1);
    let low = pow2(d) as int;
    let high = pow2(d + 1) as int;
    assert(low <= rest < high) by (nonlinear_arith)
        requires
            unit * low <= rest * unit + unit - 1,
            rest * unit + unit - 1 < unit * high,
            unit > 0,
    ;
    lemma_log_between(rest, d);
}

/// A positive number lies between the power of two of its logarithm and the
/// next.
proof fn lemma_log_brackets(n: int)
    requires
        n > 0,
    ensures
        log(2, n) >= 0,
        pow2(log(2, n) as nat) <= n < pow2((log(2, n) + 1) as nat),
    decreases n,
{
    lemma2_to64();
    if n < 2 {
        lemma_log0(2, n);
    } else {
        lemma_log_s(2, n);
        lemma_log_brackets(n / 2);
        let e = log(2, n / 2);
        lemma_pow2_unfold((e + 1) as nat);
        lemma_pow2_unfold((e + 2) as nat);
    }
}

/// A hash is split at one bit: the register is its top `precision` bits, read as
/// a number, and the rank counts from one to the first set bit of the rest. A
/// rest without a set bit has the one rank that no other has, one more than it
/// has bits.
pub proof fn law_rank_is_the_first_set_bit(hash: u64, precision: int)
    requires
        1 <= precision <= 63,
    ensures
        ({
            let bits = 64 - precision;
            let unit = pow2(bits as nat);
            let register = register_of(hash, precision);
            let rank = rank_of(hash, precision);
            let rest = hash - register * unit;
            &&& 0 <= register < pow2(precision as nat)
            &&& 0 <= rest < unit
            &&& 1 <= rank <= bits + 1
            &&& rest == 0 <==> rank == bits + 1
            &&& rest > 0 ==> pow2((bits - rank) as nat) <= rest < pow2((bits - rank + 1) as nat)
        }),
{
    let bits = (64 - precision) as nat;
    lemma_rank_bounds(hash, precision);
    lemma_pow2_pos(bits);
    let unit = pow2(bits) as int;
    lemma_fundamental_div_mod(hash as int, unit);
    lemma_mod_bound(hash as int, unit);
    let register = register_of(hash, precision);
    assert(unit * register == register * unit) by (nonlinear_arith);
    let rest = rest_of(hash, precision);
    if rest > 0 {
        lemma_log_brackets(rest);
        lemma_log_below(rest, bits);
    }
}

} // verus!
