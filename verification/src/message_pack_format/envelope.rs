//! The ASAPv1 envelope: a self-delimiting frame around a stored sketch.
//!
//! Layout, in order:
//!
//! - the magic bytes `ASAPv1`
//! - the version, one byte
//! - the length of the kind id, one byte, and the kind id
//! - the length of the metadata and the length of the payload, eight bytes
//!   each, most significant first
//! - the metadata
//! - the payload

use vstd::prelude::*;
use vstd::string::*;

verus! {

/// `ASAPv1` in ASCII.
pub const MAGIC: [u8; 6] = [0x41, 0x53, 0x41, 0x50, 0x76, 0x31];

/// The version of the layout.
pub const VERSION: u8 = 0x01;

/// The `k` low bytes of `n`, most significant first.
pub open spec fn be_bytes(n: nat, k: nat) -> Seq<u8>
    decreases k,
{
    if k == 0 {
        Seq::empty()
    } else {
        be_bytes(n / 256, (k - 1) as nat).push((n % 256) as u8)
    }
}

/// The number that bytes stand for, most significant first.
pub open spec fn be_value(bytes: Seq<u8>) -> nat
    decreases bytes.len(),
{
    if bytes.len() == 0 {
        0
    } else {
        256 * be_value(bytes.drop_last()) + bytes.last() as nat
    }
}

/// The envelope of a kind id, metadata and a payload.
pub open spec fn framed(kind_id: Seq<u8>, metadata: Seq<u8>, payload: Seq<u8>) -> Seq<u8> {
    MAGIC@ + seq![VERSION, kind_id.len() as u8] + kind_id + be_bytes(metadata.len(), 8) + be_bytes(
        payload.len(),
        8,
    ) + metadata + payload
}

/// Why bytes are not an envelope.
#[derive(Clone, Copy, Debug, PartialEq, Eq)]
pub enum EnvelopeError {
    /// They end before the layout does.
    Truncated,
    /// They go on behind the layout.
    TrailingBytes,
    /// They do not start with the magic bytes.
    BadMagic,
    /// They are of another version.
    UnsupportedVersion {
        /// The version they give.
        version: u8,
    },
}

/// The position behind the kind id.
pub open spec fn kind_end(bytes: Seq<u8>) -> int {
    8 + bytes[7]
}

/// The length of the metadata.
pub open spec fn metadata_len(bytes: Seq<u8>) -> nat {
    be_value(bytes.subrange(kind_end(bytes), kind_end(bytes) + 8))
}

/// The length of the payload.
pub open spec fn payload_len(bytes: Seq<u8>) -> nat {
    be_value(bytes.subrange(kind_end(bytes) + 8, kind_end(bytes) + 16))
}

/// The kind id of an envelope.
pub open spec fn kind_of(bytes: Seq<u8>) -> Seq<u8> {
    bytes.subrange(8, kind_end(bytes))
}

/// The metadata of an envelope.
pub open spec fn metadata_of(bytes: Seq<u8>) -> Seq<u8> {
    bytes.subrange(kind_end(bytes) + 16, kind_end(bytes) + 16 + metadata_len(bytes))
}

/// The payload of an envelope.
pub open spec fn payload_of(bytes: Seq<u8>) -> Seq<u8> {
    bytes.subrange(kind_end(bytes) + 16 + metadata_len(bytes), bytes.len() as int)
}

/// The first thing that is wrong with bytes that should be an envelope, if
/// anything is.
pub open spec fn fault(bytes: Seq<u8>) -> Option<EnvelopeError> {
    if bytes.len() < 8 {
        Some(EnvelopeError::Truncated)
    } else if bytes.subrange(0, 6) != MAGIC@ {
        Some(EnvelopeError::BadMagic)
    } else if bytes[6] != VERSION {
        Some(EnvelopeError::UnsupportedVersion { version: bytes[6] })
    } else if bytes.len() < kind_end(bytes) + 16 {
        Some(EnvelopeError::Truncated)
    } else if bytes.len() < kind_end(bytes) + 16 + metadata_len(bytes) + payload_len(bytes) {
        Some(EnvelopeError::Truncated)
    } else if bytes.len() > kind_end(bytes) + 16 + metadata_len(bytes) + payload_len(bytes) {
        Some(EnvelopeError::TrailingBytes)
    } else {
        None
    }
}

/// The text of an [`EnvelopeError`].
pub open spec fn error_text(error: EnvelopeError) -> Seq<char> {
    match error {
        EnvelopeError::Truncated => "ASAPv1 envelope: truncated"@,
        EnvelopeError::TrailingBytes => "ASAPv1 envelope: trailing bytes"@,
        EnvelopeError::BadMagic => "ASAPv1 envelope: bad magic"@,
        EnvelopeError::UnsupportedVersion { version } => "ASAPv1 envelope: unsupported version "@
            + crate::text::decimal(version as nat),
    }
}

impl EnvelopeError {
    /// What is wrong, in words.
    pub fn message(&self) -> (text: String)
        ensures
            text@ == error_text(*self),
    {
        match self {
            EnvelopeError::Truncated => "ASAPv1 envelope: truncated".to_owned(),
            EnvelopeError::TrailingBytes => "ASAPv1 envelope: trailing bytes".to_owned(),
            EnvelopeError::BadMagic => "ASAPv1 envelope: bad magic".to_owned(),
            EnvelopeError::UnsupportedVersion { version } => {
                let mut text: String = "ASAPv1 envelope: unsupported version ".to_owned();
                crate::text::push_decimal(&mut text, *version as u64);
                text
            },
        }
    }
}

/// The bytes of a number stand for it.
proof fn lemma_value_of_bytes(n: nat, k: nat)
    requires
        n < vstd::arithmetic::power::pow(256, k),
    ensures
        be_value(be_bytes(n, k)) == n,
        be_bytes(n, k).len() == k,
    decreases k,
{
    vstd::arithmetic::power::lemma_pow0(256);
    if k > 0 {
        crate::arith::lemma_pow_step(256, (k - 1) as nat);
        lemma_value_of_bytes(n / 256, (k - 1) as nat);
        assert(be_bytes(n, k).drop_last() =~= be_bytes(n / 256, (k - 1) as nat));
    }
}

/// A number is stood for by no other bytes of one length.
proof fn lemma_bytes_of_value(bytes: Seq<u8>)
    ensures
        be_bytes(be_value(bytes), bytes.len()) == bytes,
        be_value(bytes) < vstd::arithmetic::power::pow(256, bytes.len()),
    decreases bytes.len(),
{
    vstd::arithmetic::power::lemma_pow0(256);
    if bytes.len() == 0 {
        assert(be_bytes(0, 0) =~= bytes);
    } else {
        crate::arith::lemma_pow_step(256, (bytes.len() - 1) as nat);
        lemma_bytes_of_value(bytes.drop_last());
        let high = be_value(bytes.drop_last());
        let low = bytes.last() as nat;
        assert((256 * high + low) / 256 == high && (256 * high + low) % 256 == low);
        assert(be_bytes(be_value(bytes), bytes.len()) =~= bytes);
    }
}

/// A 64-bit number fits eight bytes.
proof fn lemma_eight_bytes(n: u64)
    ensures
        n < vstd::arithmetic::power::pow(256, 8),
{
    vstd::arithmetic::power::lemma_pow0(256);
    crate::arith::lemma_pow_step(256, 0);
    crate::arith::lemma_pow_step(256, 1);
    crate::arith::lemma_pow_step(256, 2);
    crate::arith::lemma_pow_step(256, 3);
    crate::arith::lemma_pow_step(256, 4);
    crate::arith::lemma_pow_step(256, 5);
    crate::arith::lemma_pow_step(256, 6);
    crate::arith::lemma_pow_step(256, 7);
}

/// Appends the `k` low bytes of `n`, most significant first.
fn push_be(out: &mut Vec<u8>, n: u64, k: u8)
    ensures
        final(out)@ == old(out)@ + be_bytes(n as nat, k as nat),
    decreases k,
{
    if k > 0 {
        push_be(out, n / 256, k - 1);
        out.push((n % 256) as u8);
    }
    assert(out@ =~= old(out)@ + be_bytes(n as nat, k as nat));
}

/// Reads eight bytes as a number, most significant first.
fn read_be(bytes: &[u8]) -> (n: u64)
    requires
        bytes@.len() == 8,
    ensures
        n == be_value(bytes@),
{
    let mut n: u64 = 0;
    let mut i: usize = 0;
    assert(bytes@.take(0) =~= Seq::empty());
    while i < 8
        invariant
            i <= 8,
            bytes@.len() == 8,
            n == be_value(bytes@.take(i as int)),
            i <= 7 ==> n < 0x100_0000_0000_0000,
            i <= 6 ==> n < 0x1_0000_0000_0000,
            i <= 5 ==> n < 0x100_0000_0000,
            i <= 4 ==> n < 0x1_0000_0000,
            i <= 3 ==> n < 0x100_0000,
            i <= 2 ==> n < 0x1_0000,
            i <= 1 ==> n < 0x100,
            i == 0 ==> n == 0,
        decreases 8 - i,
    {
        n = 256 * n + bytes[i] as u64;
        i = i + 1;
        proof {
            assert(bytes@.take(i as int).drop_last() =~= bytes@.take(i - 1));
        }
    }
    assert(bytes@.take(8) =~= bytes@);
    n
}

/// Frames a kind id, metadata and a payload.
pub fn encode(kind_id: &[u8], metadata: &[u8], payload: &[u8]) -> (bytes: Vec<u8>)
    requires
        kind_id@.len() <= 255,
    ensures
        bytes@ == framed(kind_id@, metadata@, payload@),
{
    let mut bytes: Vec<u8> = Vec::new();
    bytes.extend_from_slice(MAGIC.as_slice());
    bytes.push(VERSION);
    bytes.push(kind_id.len() as u8);
    bytes.extend_from_slice(kind_id);
    push_be(&mut bytes, metadata.len() as u64, 8);
    push_be(&mut bytes, payload.len() as u64, 8);
    bytes.extend_from_slice(metadata);
    bytes.extend_from_slice(payload);
    assert(bytes@ =~= framed(kind_id@, metadata@, payload@));
    bytes
}

/// Takes an envelope apart into its kind id, metadata and payload.
pub fn split(bytes: &[u8]) -> (parts: Result<(&[u8], &[u8], &[u8]), EnvelopeError>)
    ensures
        match parts {
            Ok((kind_id, metadata, payload)) => {
                &&& fault(bytes@) is None
                &&& kind_id@ == kind_of(bytes@)
                &&& metadata@ == metadata_of(bytes@)
                &&& payload@ == payload_of(bytes@)
            },
            Err(error) => fault(bytes@) == Some(error),
        },
{
    if bytes.len() < 8 {
        return Err(EnvelopeError::Truncated);
    }
    let magic: bool = starts_with_magic(bytes);
    if !magic {
        return Err(EnvelopeError::BadMagic);
    }
    if bytes[6] != VERSION {
        return Err(EnvelopeError::UnsupportedVersion { version: bytes[6] });
    }
    let kind_len: usize = bytes[7] as usize;
    if bytes.len() - 8 < kind_len || bytes.len() - 8 - kind_len < 16 {
        return Err(EnvelopeError::Truncated);
    }
    let kind_end: usize = 8 + kind_len;
    let start: usize = kind_end + 16;
    let metadata_len: u64 = read_be(&bytes[kind_end..kind_end + 8]);
    let payload_len: u64 = read_be(&bytes[kind_end + 8..start]);
    let rest: u64 = (bytes.len() - start) as u64;
    if metadata_len > rest || payload_len > rest - metadata_len {
        return Err(EnvelopeError::Truncated);
    }
    if payload_len < rest - metadata_len {
        return Err(EnvelopeError::TrailingBytes);
    }
    let end: usize = start + metadata_len as usize;
    let kind_id: &[u8] = &bytes[8..kind_end];
    let metadata: &[u8] = &bytes[start..end];
    let payload: &[u8] = &bytes[end..bytes.len()];
    Ok((kind_id, metadata, payload))
}

/// Whether the first six bytes are the magic ones.
fn starts_with_magic(bytes: &[u8]) -> (starts: bool)
    requires
        bytes@.len() >= 6,
    ensures
        starts == (bytes@.subrange(0, 6) == MAGIC@),
{
    let mut i: usize = 0;
    while i < 6
        invariant
            i <= 6,
            bytes@.len() >= 6,
            forall|j: int| 0 <= j < i ==> #[trigger] bytes@[j] == MAGIC@[j],
        decreases 6 - i,
    {
        if bytes[i] != MAGIC[i] {
            assert(bytes@.subrange(0, 6)[i as int] != MAGIC@[i as int]);
            return false;
        }
        i = i + 1;
    }
    assert(bytes@.subrange(0, 6) =~= MAGIC@);
    true
}

/// Splitting what was framed gives back the kind id, the metadata and the
/// payload.
pub proof fn law_split_undoes_encode(kind_id: Seq<u8>, metadata: Seq<u8>, payload: Seq<u8>)
    requires
        kind_id.len() <= 255,
        metadata.len() <= u64::MAX,
        payload.len() <= u64::MAX,
    ensures
        fault(framed(kind_id, metadata, payload)) is None,
        kind_of(framed(kind_id, metadata, payload)) == kind_id,
        metadata_of(framed(kind_id, metadata, payload)) == metadata,
        payload_of(framed(kind_id, metadata, payload)) == payload,
{
    let bytes = framed(kind_id, metadata, payload);
    lemma_eight_bytes(metadata.len() as u64);
    lemma_eight_bytes(payload.len() as u64);
    lemma_value_of_bytes(metadata.len(), 8);
    lemma_value_of_bytes(payload.len(), 8);
    assert(bytes.subrange(0, 6) =~= MAGIC@);
    assert(bytes[6] == VERSION);
    assert(bytes[7] == kind_id.len());
    assert(bytes.subrange(kind_end(bytes), kind_end(bytes) + 8) =~= be_bytes(metadata.len(), 8));
    assert(bytes.subrange(kind_end(bytes) + 8, kind_end(bytes) + 16) =~= be_bytes(
        payload.len(),
        8,
    ));
    assert(kind_of(bytes) =~= kind_id);
    assert(metadata_of(bytes) =~= metadata);
    assert(payload_of(bytes) =~= payload);
}

/// Framing what was split gives back the bytes: an envelope holds nothing but
/// its three parts, and can be taken apart in one way only.
pub proof fn law_encode_undoes_split(bytes: Seq<u8>)
    requires
        fault(bytes) is None,
    ensures
        framed(kind_of(bytes), metadata_of(bytes), payload_of(bytes)) == bytes,
{
    let first = bytes.subrange(kind_end(bytes), kind_end(bytes) + 8);
    let second = bytes.subrange(kind_end(bytes) + 8, kind_end(bytes) + 16);
    lemma_bytes_of_value(first);
    lemma_bytes_of_value(second);
    let again = framed(kind_of(bytes), metadata_of(bytes), payload_of(bytes));
    assert(again.len() == bytes.len());
    assert forall|i: int| 0 <= i < bytes.len() implies #[trigger] again[i] == bytes[i] by {
        if i < 6 {
            assert(bytes.subrange(0, 6)[i] == MAGIC@[i]);
        } else if kind_end(bytes) <= i < kind_end(bytes) + 8 {
            assert(first[i - kind_end(bytes)] == bytes[i]);
        } else if kind_end(bytes) + 8 <= i < kind_end(bytes) + 16 {
            assert(second[i - kind_end(bytes) - 8] == bytes[i]);
        }
    }
    assert(again =~= bytes);
}

/// A length is written in its digits to the base 256, the most significant
/// first.
pub proof fn law_lengths_are_big_endian(n: nat, k: nat, i: int)
    requires
        0 <= i < k,
    ensures
        be_bytes(n, k).len() == k,
        be_bytes(n, k)[i] == (n / (vstd::arithmetic::power::pow(
            256,
            (k - 1 - i) as nat,
        ) as nat)) % 256,
    decreases k,
{
    vstd::arithmetic::power::lemma_pow0(256);
    lemma_be_len(n, k);
    lemma_be_len(n / 256, (k - 1) as nat);
    if i == k - 1 {
        assert(n / 1 == n);
    } else {
        law_lengths_are_big_endian(n / 256, (k - 1) as nat, i);
        let e = (k - 2 - i) as nat;
        let unit = vstd::arithmetic::power::pow(256, e);
        vstd::arithmetic::power::lemma_pow_positive(256, e);
        crate::arith::lemma_pow_step(256, e);
        vstd::arithmetic::div_mod::lemma_div_denominator(n as int, 256, unit);
    }
}

proof fn lemma_be_len(n: nat, k: nat)
    ensures
        be_bytes(n, k).len() == k,
    decreases k,
{
    if k > 0 {
        lemma_be_len(n / 256, (k - 1) as nat);
    }
}

/// An envelope holds its parts one behind the other: six magic bytes, the
/// version, the length of the kind id and the kind id, the two lengths in eight
/// bytes each, the metadata and the payload.
pub proof fn law_envelope_layout(kind_id: Seq<u8>, metadata: Seq<u8>, payload: Seq<u8>)
    requires
        kind_id.len() <= 255,
    ensures
        ({
            let bytes = framed(kind_id, metadata, payload);
            let k = kind_id.len() as int;
            let m = metadata.len() as int;
            &&& bytes.len() == 24 + k + m + payload.len()
            &&& bytes.subrange(0, 6) == seq![0x41u8, 0x53u8, 0x41u8, 0x50u8, 0x76u8, 0x31u8]
            &&& bytes[6] == 1
            &&& bytes[7] == k
            &&& bytes.subrange(8, 8 + k) == kind_id
            &&& bytes.subrange(8 + k, 16 + k) == be_bytes(metadata.len(), 8)
            &&& bytes.subrange(16 + k, 24 + k) == be_bytes(payload.len(), 8)
            &&& bytes.subrange(24 + k, 24 + k + m) == metadata
            &&& bytes.subrange(24 + k + m, bytes.len() as int) == payload
        }),
{
    let bytes = framed(kind_id, metadata, payload);
    let k = kind_id.len() as int;
    let m = metadata.len() as int;
    lemma_be_len(metadata.len(), 8);
    lemma_be_len(payload.len(), 8);
    assert(bytes.subrange(0, 6) =~= seq![0x41u8, 0x53u8, 0x41u8, 0x50u8, 0x76u8, 0x31u8]);
    assert(bytes.subrange(8, 8 + k) =~= kind_id);
    assert(bytes.subrange(8 + k, 16 + k) =~= be_bytes(metadata.len(), 8));
    assert(bytes.subrange(16 + k, 24 + k) =~= be_bytes(payload.len(), 8));
    assert(bytes.subrange(24 + k, 24 + k + m) =~= metadata);
    assert(bytes.subrange(24 + k + m, bytes.len() as int) =~= payload);
}

/// An envelope that lost its end is refused as truncated, wherever it was cut.
pub proof fn law_cut_envelope_is_truncated(
    kind_id: Seq<u8>,
    metadata: Seq<u8>,
    payload: Seq<u8>,
    cut: int,
)
    requires
        kind_id.len() <= 255,
        metadata.len() <= u64::MAX,
        payload.len() <= u64::MAX,
        0 <= cut < framed(kind_id, metadata, payload).len(),
    ensures
        fault(framed(kind_id, metadata, payload).take(cut)) == Some(EnvelopeError::Truncated),
{
    let whole = framed(kind_id, metadata, payload);
    let bytes = whole.take(cut);
    law_split_undoes_encode(kind_id, metadata, payload);
    law_envelope_layout(kind_id, metadata, payload);
    if cut >= 8 {
        assert(bytes.subrange(0, 6) =~= whole.subrange(0, 6));
        let end = kind_end(whole);
        if cut >= end + 16 {
            assert(bytes.subrange(end, end + 8) =~= whole.subrange(end, end + 8));
            assert(bytes.subrange(end + 8, end + 16) =~= whole.subrange(end + 8, end + 16));
        }
    }
}

/// An envelope that something was added to is refused for what trails it.
pub proof fn law_extended_envelope_has_trailing_bytes(
    kind_id: Seq<u8>,
    metadata: Seq<u8>,
    payload: Seq<u8>,
    extra: Seq<u8>,
)
    requires
        kind_id.len() <= 255,
        metadata.len() <= u64::MAX,
        payload.len() <= u64::MAX,
        extra.len() > 0,
    ensures
        fault(framed(kind_id, metadata, payload) + extra) == Some(EnvelopeError::TrailingBytes),
{
    let whole = framed(kind_id, metadata, payload);
    let bytes = whole + extra;
    law_split_undoes_encode(kind_id, metadata, payload);
    law_envelope_layout(kind_id, metadata, payload);
    let end = kind_end(whole);
    assert(bytes.subrange(0, 6) =~= whole.subrange(0, 6));
    assert(bytes.subrange(end, end + 8) =~= whole.subrange(end, end + 8));
    assert(bytes.subrange(end + 8, end + 16) =~= whole.subrange(end + 8, end + 16));
}

/// Bytes that start otherwise than an envelope, or are of another version, are
/// refused for that, whatever follows.
pub proof fn law_foreign_bytes_are_told_apart(bytes: Seq<u8>)
    requires
        bytes.len() >= 8,
    ensures
        bytes.subrange(0, 6) != seq![0x41u8, 0x53u8, 0x41u8, 0x50u8, 0x76u8, 0x31u8] ==> fault(
            bytes,
        ) == Some(EnvelopeError::BadMagic),
        bytes.subrange(0, 6) == seq![0x41u8, 0x53u8, 0x41u8, 0x50u8, 0x76u8, 0x31u8] && bytes[6]
            != 1 ==> fault(bytes) == Some(EnvelopeError::UnsupportedVersion { version: bytes[6] }),
{
    assert(MAGIC@ =~= seq![0x41u8, 0x53u8, 0x41u8, 0x50u8, 0x76u8, 0x31u8]);
}

} // verus!
