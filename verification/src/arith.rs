//! Integer powers.

use vstd::arithmetic::div_mod::*;
use vstd::arithmetic::power::*;
use vstd::arithmetic::power2::*;
use vstd::prelude::*;

verus! {

/// `base` raised to `exp`, for the powers that fit a `u64`.
pub fn power(base: u64, exp: u8) -> (r: u64)
    requires
        base >= 1,
        pow(base as int, exp as nat) <= u64::MAX,
    ensures
        r == pow(base as int, exp as nat),
{
    let mut value: u64 = 1;
    let mut done: u8 = 0;
    proof {
        lemma_pow0(base as int);
    }
    while done < exp
        invariant
            done <= exp,
            base >= 1,
            value == pow(base as int, done as nat),
            pow(base as int, exp as nat) <= u64::MAX,
        decreases exp - done,
    {
        proof {
            lemma_pow_step(base as int, done as nat);
            lemma_pow_increases(base as nat, (done + 1) as nat, exp as nat);
        }
        value = base * value;
        done = done + 1;
    }
    value
}

/// One more factor of `b`.
pub proof fn lemma_pow_step(b: int, e: nat)
    ensures
        pow(b, e + 1) == b * pow(b, e),
{
    reveal(pow);
}

/// A power of a base of two or more at least doubles with each factor.
pub proof fn lemma_pow_doubles(b: int, e: nat)
    requires
        b >= 2,
    ensures
        pow(b, e) >= 1,
        pow(b, e + 1) >= 2 * pow(b, e),
{
    lemma_pow_positive(b, e);
    lemma_pow_step(b, e);
    let x = pow(b, e);
    assert(b * x >= 2 * x) by (nonlinear_arith)
        requires
            b >= 2,
            x >= 1,
    ;
}

/// A power of a base of two or more is at least the same power of two.
pub proof fn lemma_pow_at_least_two(b: int, e: nat)
    requires
        b >= 2,
    ensures
        pow(b, e) >= pow(2, e),
    decreases e,
{
    if e == 0 {
        lemma_pow0(b);
        lemma_pow0(2);
    } else {
        lemma_pow_at_least_two(b, (e - 1) as nat);
        lemma_pow_doubles(b, (e - 1) as nat);
        lemma_pow_step(2, (e - 1) as nat);
    }
}

/// A power of a base of two or more that fits 32 bits has an exponent below 32.
pub proof fn lemma_exponent_below_32(b: int, e: nat)
    requires
        b >= 2,
        pow(b, e) <= 0xFFFF_FFFF,
    ensures
        e < 32,
{
    if e >= 32 {
        lemma_pow_at_least_two(b, e);
        lemma_pow_increases(2, 32, e);
        assert(pow(2, 32) == 0x1_0000_0000) by {
            vstd::arithmetic::power2::lemma2_to64();
            vstd::arithmetic::power2::lemma_pow2(32);
        }
    }
}

/// A power of two that divides a product with an odd factor divides the other
/// factor.
pub proof fn lemma_odd_factor(d: int, odd: int, k: nat)
    requires
        odd % 2 == 1,
        (d * odd) % (pow2(k) as int) == 0,
    ensures
        d % (pow2(k) as int) == 0,
    decreases k,
{
    lemma_pow2_pos(k);
    if k == 0 {
        lemma2_to64();
    } else {
        let half = pow2((k - 1) as nat) as int;
        lemma_pow2_unfold(k);
        lemma_pow2_pos((k - 1) as nat);
        let q = (d * odd) / (2 * half);
        lemma_fundamental_div_mod(d * odd, 2 * half);
        let r = odd / 2;
        assert(d * odd == 2 * (d * r) + d) by (nonlinear_arith)
            requires
                odd == 2 * r + 1,
        ;
        assert((2 * half) * q == 2 * (half * q)) by (nonlinear_arith);
        let e = d / 2;
        assert(d == 2 * e);
        assert(d * odd == 2 * (e * odd)) by (nonlinear_arith)
            requires
                d == 2 * e,
        ;
        assert(e * odd == q * half) by (nonlinear_arith)
            requires
                e * odd == half * q,
        ;
        lemma_mod_multiples_basic(q, half);
        lemma_odd_factor(e, odd, (k - 1) as nat);
        let f = e / half;
        lemma_fundamental_div_mod(e, half);
        assert(d == f * (2 * half)) by (nonlinear_arith)
            requires
                d == 2 * e,
                e == half * f,
        ;
        lemma_mod_multiples_basic(f, 2 * half);
    }
}

/// Modulo `2^64`, an odd multiplier keeps different numbers different.
pub proof fn lemma_odd_product_apart(x: int, y: int, odd: int)
    requires
        0 <= x <= u64::MAX,
        0 <= y <= u64::MAX,
        odd % 2 == 1,
        (x * odd) % 0x1_0000_0000_0000_0000 == (y * odd) % 0x1_0000_0000_0000_0000,
    ensures
        x == y,
{
    let whole: int = 0x1_0000_0000_0000_0000;
    lemma2_to64_rest();
    let (low, high) = if x < y {
        (x, y)
    } else {
        (y, x)
    };
    lemma_sub_mod_noop(high * odd, low * odd, whole);
    lemma_small_mod(0, whole as nat);
    assert(high * odd - low * odd == (high - low) * odd) by (nonlinear_arith);
    lemma_odd_factor(high - low, odd, 64);
    lemma_small_mod((high - low) as nat, whole as nat);
}

} // verus!
