//! What a sketch takes in.

use vstd::prelude::*;
use vstd::string::*;

verus! {

/// A value handed to a sketch.
#[derive(Clone, Copy, Debug)]
pub enum DataInput<'a> {
    /// A number.
    U64(u64),
    /// Text.
    Str(&'a str),
}

/// The `k` low bytes of `n`, least significant first.
pub open spec fn le_bytes(n: nat, k: nat) -> Seq<u8>
    decreases k,
{
    if k == 0 {
        Seq::empty()
    } else {
        seq![(n % 256) as u8] + le_bytes(n / 256, (k - 1) as nat)
    }
}

impl DataInput<'_> {
    /// The bytes that stand for a value when it is hashed: a number as its
    /// eight bytes, least significant first, and text as its UTF-8 encoding.
    pub open spec fn encoding(self) -> Seq<u8> {
        match self {
            DataInput::U64(n) => le_bytes(n as nat, 8),
            DataInput::Str(text) => text.spec_bytes(),
        }
    }

    /// The bytes to hash.
    pub fn to_bytes(&self) -> (bytes: Vec<u8>)
        ensures
            bytes@ == self.encoding(),
    {
        let mut bytes: Vec<u8> = Vec::new();
        match self {
            DataInput::U64(n) => {
                let mut rest: u64 = *n;
                let mut left: u8 = 8;
                assert(bytes@ + le_bytes(*n as nat, 8) =~= le_bytes(*n as nat, 8));
                while left > 0
                    invariant
                        left <= 8,
                        bytes@ + le_bytes(rest as nat, left as nat) == le_bytes(*n as nat, 8),
                    decreases left,
                {
                    let ghost before = bytes@;
                    let byte: u8 = (rest % 256) as u8;
                    bytes.push(byte);
                    assert(before + le_bytes(rest as nat, left as nat) =~= bytes@ + le_bytes(
                        (rest / 256) as nat,
                        (left - 1) as nat,
                    ));
                    rest = rest / 256;
                    left = left - 1;
                }
                assert(bytes@ + le_bytes(rest as nat, 0) =~= bytes@);
            },
            DataInput::Str(text) => {
                bytes.extend_from_slice(text.as_bytes());
                assert(bytes@ =~= text.spec_bytes());
            },
        }
        bytes
    }
}

/// The bytes of a number are its digits to the base 256, least significant
/// first.
proof fn lemma_le_digits(n: nat, k: nat, i: int)
    requires
        0 <= i < k,
    ensures
        le_bytes(n, k).len() == k,
        le_bytes(n, k)[i] == (n / (vstd::arithmetic::power::pow(256, i as nat) as nat)) % 256,
    decreases k,
{
    vstd::arithmetic::power::lemma_pow0(256);
    lemma_le_len(n, k);
    lemma_le_len(n / 256, (k - 1) as nat);
    if i == 0 {
        assert(n / 1 == n);
    } else {
        lemma_le_digits(n / 256, (k - 1) as nat, i - 1);
        let unit = vstd::arithmetic::power::pow(256, (i - 1) as nat);
        vstd::arithmetic::power::lemma_pow_positive(256, (i - 1) as nat);
        crate::arith::lemma_pow_step(256, (i - 1) as nat);
        vstd::arithmetic::div_mod::lemma_div_denominator(n as int, 256, unit);
        assert(le_bytes(n, k)[i] == le_bytes(n / 256, (k - 1) as nat)[i - 1]);
    }
}

proof fn lemma_le_len(n: nat, k: nat)
    ensures
        le_bytes(n, k).len() == k,
    decreases k,
{
    if k > 0 {
        lemma_le_len(n / 256, (k - 1) as nat);
    }
}

/// Two numbers of `k` bytes with the same bytes are the same.
proof fn lemma_le_determines(m: nat, n: nat, k: nat)
    requires
        m < vstd::arithmetic::power::pow(256, k),
        n < vstd::arithmetic::power::pow(256, k),
        le_bytes(m, k) == le_bytes(n, k),
    ensures
        m == n,
    decreases k,
{
    vstd::arithmetic::power::lemma_pow0(256);
    if k > 0 {
        crate::arith::lemma_pow_step(256, (k - 1) as nat);
        lemma_le_len(m / 256, (k - 1) as nat);
        lemma_le_len(n / 256, (k - 1) as nat);
        assert(le_bytes(m, k)[0] == (m % 256) as u8 && le_bytes(n, k)[0] == (n % 256) as u8);
        assert(m % 256 == n % 256);
        assert(le_bytes(m / 256, (k - 1) as nat) =~= le_bytes(m, k).subrange(1, k as int));
        assert(le_bytes(n / 256, (k - 1) as nat) =~= le_bytes(n, k).subrange(1, k as int));
        lemma_le_determines(m / 256, n / 256, (k - 1) as nat);
    }
}

/// A value is hashed whole: the bytes that stand for a text determine the text,
/// and those that stand for a number determine the number. So two different
/// texts, however alike they begin, are hashed as different bytes.
pub proof fn law_encoding_determines_the_value(a: &str, b: &str, m: u64, n: u64)
    ensures
        DataInput::Str(a).encoding() == DataInput::Str(b).encoding() ==> a.spec_bytes()
            == b.spec_bytes(),
        DataInput::U64(m).encoding() == DataInput::U64(n).encoding() ==> m == n,
{
    if DataInput::U64(m).encoding() == DataInput::U64(n).encoding() {
        vstd::arithmetic::power::lemma_pow0(256);
        crate::arith::lemma_pow_step(256, 0);
        crate::arith::lemma_pow_step(256, 1);
        crate::arith::lemma_pow_step(256, 2);
        crate::arith::lemma_pow_step(256, 3);
        crate::arith::lemma_pow_step(256, 4);
        crate::arith::lemma_pow_step(256, 5);
        crate::arith::lemma_pow_step(256, 6);
        crate::arith::lemma_pow_step(256, 7);
        lemma_le_determines(m as nat, n as nat, 8);
    }
}

/// Text is hashed as its UTF-8 bytes, all of them and no others, and a number as
/// eight bytes, the least significant first.
pub proof fn law_encoding_is_the_bytes_of_the_value(text: &str, n: u64, i: int)
    requires
        0 <= i < 8,
    ensures
        DataInput::Str(text).encoding().len() == text.spec_bytes().len(),
        forall|j: int|
            0 <= j < text.spec_bytes().len() ==> #[trigger] DataInput::Str(text).encoding()[j]
                == text.spec_bytes()[j],
        DataInput::U64(n).encoding().len() == 8,
        DataInput::U64(n).encoding()[i] == (n as nat / (vstd::arithmetic::power::pow(
            256,
            i as nat,
        ) as nat)) % 256,
{
    lemma_le_digits(n as nat, 8, i);
}

} // verus!
