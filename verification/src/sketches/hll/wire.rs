//! ASAPv1 wire serialization for the HyperLogLog sketches.
//!
//! A stored sketch is an [`envelope`] around two MessagePack values: metadata
//! that describe how the sketch was hashed, as a map, and the registers, as an
//! array with one `bin`. A decoder knows which sketch it wants: bytes of
//! another kind, another hash profile, another precision, or with a register
//! that no insert could have produced, are refused.

use super::storage::HllRegisterStorage;
use super::{Classic, ErtlMLE, HyperLogLogHIPImpl, HyperLogLogImpl};
use crate::common::bytes::same_bytes;
use crate::common::hash::{DefaultXxHasher, HashProfile, SketchHasher};
use crate::message_pack_format::envelope;
use crate::text;
use serde::ser::SerializeStruct;
use vstd::prelude::*;
use vstd::string::*;

verus! {

/// The kind id family of the HyperLogLog sketches.
pub const HLL_KIND_FAMILY: u8 = 0x01;

/// The kind id of a sketch with the classic estimator.
pub const HLL_KIND_CLASSIC: [u8; 2] = [HLL_KIND_FAMILY, 0x01];

/// The kind id of a sketch with Ertl's estimator.
pub const HLL_KIND_ERTL_MLE: [u8; 2] = [HLL_KIND_FAMILY, 0x02];

/// The kind id of a sketch with the historic inverse probability estimator.
pub const HLL_KIND_HIP: [u8; 2] = [HLL_KIND_FAMILY, 0x03];

/// Maps an in-memory HLL estimator variant to its ASAPv1 `kind_id`.
pub trait HllWireVariant {
    /// The `[family, variant]` kind_id for this estimator.
    const WIRE_KIND_ID: [u8; 2];
}

impl HllWireVariant for Classic {
    const WIRE_KIND_ID: [u8; 2] = HLL_KIND_CLASSIC;
}

impl HllWireVariant for ErtlMLE {
    const WIRE_KIND_ID: [u8; 2] = HLL_KIND_ERTL_MLE;
}

/// The kind ids of the estimators, no two of which are the same.
pub proof fn law_kinds_differ()
    ensures
        Classic::WIRE_KIND_ID == HLL_KIND_CLASSIC,
        ErtlMLE::WIRE_KIND_ID == HLL_KIND_ERTL_MLE,
        HLL_KIND_CLASSIC@ == seq![1u8, 1u8],
        HLL_KIND_ERTL_MLE@ == seq![1u8, 2u8],
        HLL_KIND_HIP@ == seq![1u8, 3u8],
        HLL_KIND_CLASSIC@ != HLL_KIND_ERTL_MLE@,
        HLL_KIND_CLASSIC@ != HLL_KIND_HIP@,
        HLL_KIND_ERTL_MLE@ != HLL_KIND_HIP@,
{
    assert(HLL_KIND_CLASSIC@ =~= seq![1u8, 1u8]);
    assert(HLL_KIND_ERTL_MLE@ =~= seq![1u8, 2u8]);
    assert(HLL_KIND_HIP@ =~= seq![1u8, 3u8]);
    assert(seq![1u8, 1u8][1] == 1 && seq![1u8, 2u8][1] == 2 && seq![1u8, 3u8][1] == 3);
}

/// Descriptor metadata of a stored sketch, in the order in which the fields are
/// written. They carry the full hash profile (including the seed list, so the
/// bytes are self-describing) plus the seed index in use and the one structural
/// parameter, the precision.
#[derive(Debug)]
pub struct HllMetadata {
    /// The version of the metadata.
    pub metadata_version: u8,
    /// The name of the hash profile.
    pub hash_profile_id: String,
    /// The hash algorithm.
    pub hash_algorithm: String,
    /// How a seed index selects a seed.
    pub seed_derivation: String,
    /// How a value is turned into the bytes to hash.
    pub input_encoding: String,
    /// The seeds.
    pub seed_list: Vec<u64>,
    /// The index of the seed in use.
    pub canonical_seed_index: u32,
    /// The precision.
    pub precision: u32,
}

/// What [`HllMetadata`] hold.
#[verifier::ext_equal]
pub struct MetadataModel {
    pub metadata_version: u8,
    pub hash_profile_id: Seq<char>,
    pub hash_algorithm: Seq<char>,
    pub seed_derivation: Seq<char>,
    pub input_encoding: Seq<char>,
    pub seed_list: Seq<u64>,
    pub canonical_seed_index: u32,
    pub precision: u32,
}

impl View for HllMetadata {
    type V = MetadataModel;

    open spec fn view(&self) -> MetadataModel {
        MetadataModel {
            metadata_version: self.metadata_version,
            hash_profile_id: self.hash_profile_id@,
            hash_algorithm: self.hash_algorithm@,
            seed_derivation: self.seed_derivation@,
            input_encoding: self.input_encoding@,
            seed_list: self.seed_list@,
            canonical_seed_index: self.canonical_seed_index,
            precision: self.precision,
        }
    }
}

/// The metadata of a sketch of a precision, hashed under a profile.
pub open spec fn profile_metadata<H: HashProfile>(precision: u32) -> MetadataModel {
    MetadataModel {
        metadata_version: 1,
        hash_profile_id: H::PROFILE_ID@,
        hash_algorithm: H::ALGORITHM@,
        seed_derivation: H::SEED_DERIVATION@,
        input_encoding: H::INPUT_ENCODING@,
        seed_list: H::seeds(),
        canonical_seed_index: H::CANONICAL_SEED_INDEX,
        precision,
    }
}

/// Builds the HLL descriptor metadata from the hasher's [`HashProfile`], so the
/// wire bytes truthfully describe how the sketch was hashed.
pub fn hll_metadata<H: HashProfile>(precision: u32) -> (metadata: HllMetadata)
    ensures
        metadata@ == profile_metadata::<H>(precision),
        metadata.seed_list@.len() <= u32::MAX,
{
    HllMetadata {
        metadata_version: 1,
        hash_profile_id: H::PROFILE_ID.to_owned(),
        hash_algorithm: H::ALGORITHM.to_owned(),
        seed_derivation: H::SEED_DERIVATION.to_owned(),
        input_encoding: H::INPUT_ENCODING.to_owned(),
        seed_list: H::seed_list(),
        canonical_seed_index: H::CANONICAL_SEED_INDEX,
        precision,
    }
}

/// The metadata of the standard profile.
pub fn standard_hll_metadata(precision: u32) -> (metadata: HllMetadata)
    ensures
        metadata@ == profile_metadata::<DefaultXxHasher>(precision),
        metadata.seed_list@.len() <= u32::MAX,
{
    hll_metadata::<DefaultXxHasher>(precision)
}

/// Whether two lists hold the same seeds.
fn same_seeds(a: &Vec<u64>, b: &Vec<u64>) -> (same: bool)
    ensures
        same == (a@ == b@),
{
    if a.len() != b.len() {
        return false;
    }
    let mut i: usize = 0;
    while i < a.len()
        invariant
            i <= a@.len(),
            a@.len() == b@.len(),
            forall|j: int| 0 <= j < i ==> #[trigger] a@[j] == b@[j],
        decreases a@.len() - i,
    {
        if a[i] != b[i] {
            return false;
        }
        i = i + 1;
    }
    assert(a@ =~= b@);
    true
}

impl HllMetadata {
    /// Whether two descriptors say the same.
    pub fn same(&self, other: &Self) -> (same: bool)
        ensures
            same == (self@ == other@),
    {
        self.metadata_version == other.metadata_version && self.hash_profile_id
            == other.hash_profile_id && self.hash_algorithm == other.hash_algorithm
            && self.seed_derivation == other.seed_derivation && self.input_encoding
            == other.input_encoding && same_seeds(&self.seed_list, &other.seed_list)
            && self.canonical_seed_index == other.canonical_seed_index && self.precision
            == other.precision
    }
}

/// The error of `rmp_serde`'s encoders.
#[verifier::external_type_specification]
#[verifier::external_body]
pub struct ExEncodeError(rmp_serde::encode::Error);

/// The error of `rmp_serde`'s decoders.
#[verifier::external_type_specification]
#[verifier::external_body]
pub struct ExDecodeError(rmp_serde::decode::Error);

/// Why a sketch has no encoding.
#[derive(Debug)]
pub enum WireEncodeError {
    /// The encoder failed.
    Codec(rmp_serde::encode::Error),
    /// The sketch is in a state that no insert could have produced.
    Syntax(String),
}

/// Why bytes are not the sketch that was asked for. `E` is the error of the
/// reader that the MessagePack values are read with.
#[derive(Debug)]
pub enum WireDecodeError<E> {
    /// A MessagePack value could not be read.
    Codec(E),
    /// Anything else, in words.
    Uncategorized(String),
}

/// What a [`WireDecodeError`] says.
pub enum DecodeFailure<E> {
    Codec(E),
    Text(Seq<char>),
}

impl<E> View for WireDecodeError<E> {
    type V = DecodeFailure<E>;

    open spec fn view(&self) -> DecodeFailure<E> {
        match self {
            WireDecodeError::Codec(error) => DecodeFailure::Codec(*error),
            WireDecodeError::Uncategorized(text) => DecodeFailure::Text(text@),
        }
    }
}

/// The largest rank that an insert can produce.
pub open spec fn max_rank<Registers: HllRegisterStorage>() -> int {
    Registers::REGISTER_BITS + 1
}

/// The first register above `max`, if there is one.
pub open spec fn first_over(registers: Seq<u8>, max: int) -> Option<u8>
    decreases registers.len(),
{
    if registers.len() == 0 {
        None
    } else {
        match first_over(registers.drop_last(), max) {
            Some(rank) => Some(rank),
            None => if registers.last() > max {
                Some(registers.last())
            } else {
                None
            },
        }
    }
}

/// What is wrong with registers that hold an impossible rank.
pub open spec fn range_problem<Registers: HllRegisterStorage>(registers: Seq<u8>) -> Option<
    Seq<char>,
> {
    match first_over(registers, max_rank::<Registers>()) {
        Some(rank) => Some(
            "HLL register value "@ + text::decimal(rank as nat) + " exceeds the maximum rank "@
                + text::decimal(max_rank::<Registers>() as nat) + " at precision "@
                + text::decimal(Registers::PRECISION as nat),
        ),
        None => None,
    }
}

/// Rejects a register bin holding a rank no insert could have produced. A
/// register holds a rank of at most `REGISTER_BITS + 1`, so a byte above that
/// bound is an impossible state. Both directions call this, so the encode and
/// decode predicates cannot drift.
pub fn check_register_range<Registers: HllRegisterStorage>(registers: &[u8]) -> (result: Result<
    (),
    String,
>)
    ensures
        match result {
            Ok(()) => range_problem::<Registers>(registers@) is None,
            Err(problem) => range_problem::<Registers>(registers@) == Some(problem@),
        },
{
    proof {
        Registers::lemma_dimensions();
    }
    let max: u8 = (Registers::REGISTER_BITS + 1) as u8;
    let mut i: usize = 0;
    assert(registers@.take(0) =~= Seq::empty());
    while i < registers.len()
        invariant
            i <= registers@.len(),
            max == max_rank::<Registers>(),
            first_over(registers@.take(i as int), max as int) is None,
        decreases registers@.len() - i,
    {
        let rank: u8 = registers[i];
        proof {
            assert(registers@.take(i + 1).drop_last() =~= registers@.take(i as int));
        }
        if rank > max {
            proof {
                lemma_first_over_stays(registers@, i + 1, max as int);
            }
            let mut problem: String = "HLL register value ".to_owned();
            text::push_decimal(&mut problem, rank as u64);
            problem.append(" exceeds the maximum rank ");
            text::push_decimal(&mut problem, max as u64);
            problem.append(" at precision ");
            text::push_decimal(&mut problem, Registers::PRECISION as u64);
            return Err(problem);
        }
        i = i + 1;
    }
    assert(registers@.take(registers@.len() as int) =~= registers@);
    Ok(())
}

/// What is first in a part is first in the whole.
proof fn lemma_first_over_stays(registers: Seq<u8>, k: int, max: int)
    requires
        0 <= k <= registers.len(),
        first_over(registers.take(k), max) is Some,
    ensures
        first_over(registers, max) == first_over(registers.take(k), max),
    decreases registers.len() - k,
{
    if k == registers.len() {
        assert(registers.take(k) =~= registers);
    } else {
        assert(registers.take(k + 1).drop_last() =~= registers.take(k));
        lemma_first_over_stays(registers, k + 1, max);
    }
}

/// The register bin to serialize, or an error when the sketch holds a rank no
/// insert could have produced -- such a sketch has no encoding rather than bytes
/// its own decoder would refuse.
pub fn registers_to_bytes<Registers: HllRegisterStorage>(registers: &Registers) -> (result: Result<
    Vec<u8>,
    WireEncodeError,
>)
    ensures
        match range_problem::<Registers>(registers.registers()) {
            Some(problem) => result matches Err(WireEncodeError::Syntax(text)) && text@
                == "ASAPv1 HLL envelope: "@ + problem,
            None => result matches Ok(bytes) && bytes@ == registers.registers(),
        },
{
    let slice: &[u8] = registers.as_slice();
    match check_register_range::<Registers>(slice) {
        Err(problem) => {
            let mut text: String = "ASAPv1 HLL envelope: ".to_owned();
            text.append(problem.as_str());
            Err(WireEncodeError::Syntax(text))
        },
        Ok(()) => {
            let mut bytes: Vec<u8> = Vec::new();
            bytes.extend_from_slice(slice);
            assert(bytes@ =~= slice@);
            Ok(bytes)
        },
    }
}

/// What is wrong with a register bin that is read back.
pub open spec fn bin_problem<Registers: HllRegisterStorage>(registers: Seq<u8>) -> Option<
    Seq<char>,
> {
    if registers.len() != Registers::NUM_REGISTERS {
        Some(
            "HLL register length mismatch: stored "@ + text::decimal(registers.len())
                + ", expected "@ + text::decimal(Registers::NUM_REGISTERS as nat),
        )
    } else {
        range_problem::<Registers>(registers)
    }
}

/// Rebuilds register storage from the payload's register bin.
pub fn registers_from_bytes<Registers: HllRegisterStorage, E>(registers: &[u8]) -> (result: Result<
    Registers,
    WireDecodeError<E>,
>)
    ensures
        match bin_problem::<Registers>(registers@) {
            Some(problem) => result matches Err(error) && error@ == DecodeFailure::<E>::Text(
                problem,
            ),
            None => result matches Ok(storage) && storage.registers() == registers@,
        },
{
    if registers.len() != Registers::NUM_REGISTERS {
        let mut problem: String = "HLL register length mismatch: stored ".to_owned();
        text::push_decimal(&mut problem, registers.len() as u64);
        problem.append(", expected ");
        text::push_decimal(&mut problem, Registers::NUM_REGISTERS as u64);
        return Err(WireDecodeError::Uncategorized(problem));
    }
    match check_register_range::<Registers>(registers) {
        Err(problem) => Err(WireDecodeError::Uncategorized(problem)),
        Ok(()) => {
            let mut out: Registers = Registers::empty();
            let mut i: usize = 0;
            while i < registers.len()
                invariant
                    i <= registers@.len(),
                    registers@.len() == Registers::NUM_REGISTERS,
                    out.registers().len() == registers@.len(),
                    forall|j: int| 0 <= j < i ==> #[trigger] out.registers()[j] == registers@[j],
                decreases registers@.len() - i,
            {
                out.set(i, registers[i]);
                i = i + 1;
            }
            assert(out.registers() =~= registers@);
            Ok(out)
        },
    }
}

/// The header of a MessagePack `bin` of `len` bytes: the shortest of its three
/// forms.
pub open spec fn bin_header(len: nat) -> Seq<u8> {
    if len < 0x100 {
        seq![0xC4u8] + envelope::be_bytes(len, 1)
    } else if len < 0x1_0000 {
        seq![0xC5u8] + envelope::be_bytes(len, 2)
    } else {
        seq![0xC6u8] + envelope::be_bytes(len, 4)
    }
}

/// The payload of a plain sketch: a MessagePack array with one element, a `bin`
/// of the registers.
pub open spec fn plain_payload(registers: Seq<u8>) -> Seq<u8> {
    seq![0x91u8] + bin_header(registers.len()) + registers
}

/// The keys under which the fields of a descriptor are stored, in the order in
/// which they are written.
pub const METADATA_KEYS: [&'static str; 8] = [
    "metadata_version",
    "hash_profile_id",
    "hash_algorithm",
    "seed_derivation",
    "input_encoding",
    "seed_list",
    "canonical_seed_index",
    "precision",
];

/// The names in a list of keys.
pub open spec fn key_names(keys: Seq<&'static str>) -> Seq<Seq<char>> {
    Seq::new(keys.len(), |i: int| keys[i]@)
}

/// The MessagePack map that `rmp_serde` writes for a descriptor: the eight
/// fields under the eight keys, in this order.
pub uninterp spec fn metadata_map(
    keys: Seq<Seq<char>>,
    metadata_version: u8,
    hash_profile_id: Seq<char>,
    hash_algorithm: Seq<char>,
    seed_derivation: Seq<char>,
    input_encoding: Seq<char>,
    seed_list: Seq<u64>,
    canonical_seed_index: u32,
    precision: u32,
) -> Seq<u8>;

/// The stored form of a descriptor.
pub open spec fn metadata_bytes(metadata: MetadataModel) -> Seq<u8> {
    metadata_map(
        key_names(METADATA_KEYS@),
        metadata.metadata_version,
        metadata.hash_profile_id,
        metadata.hash_algorithm,
        metadata.seed_derivation,
        metadata.input_encoding,
        metadata.seed_list,
        metadata.canonical_seed_index,
        metadata.precision,
    )
}

/// Writes a descriptor as a MessagePack map with `rmp_serde::Serializer`, in
/// its mode that writes a struct with its field names. It is trusted that the
/// bytes depend on the keys and on the eight fields alone, and that writing
/// into a `Vec` succeeds. A seed list beyond 32 bits is left out: the array
/// header could not hold its length.
#[verifier::external_body]
fn write_metadata(keys: [&'static str; 8], metadata: &HllMetadata) -> (result: Result<
    Vec<u8>,
    rmp_serde::encode::Error,
>)
    requires
        metadata.seed_list@.len() <= u32::MAX,
    ensures
        result is Ok,
        result matches Ok(bytes) ==> bytes@ == metadata_map(
            key_names(keys@),
            metadata.metadata_version,
            metadata.hash_profile_id@,
            metadata.hash_algorithm@,
            metadata.seed_derivation@,
            metadata.input_encoding@,
            metadata.seed_list@,
            metadata.canonical_seed_index,
            metadata.precision,
        ),
{
    let mut out = rmp_serde::Serializer::new(Vec::new()).with_struct_map();
    let mut map = serde::Serializer::serialize_struct(&mut out, "HllMetadata", 8)?;
    map.serialize_field(keys[0], &metadata.metadata_version)?;
    map.serialize_field(keys[1], &metadata.hash_profile_id)?;
    map.serialize_field(keys[2], &metadata.hash_algorithm)?;
    map.serialize_field(keys[3], &metadata.seed_derivation)?;
    map.serialize_field(keys[4], &metadata.input_encoding)?;
    map.serialize_field(keys[5], &metadata.seed_list)?;
    map.serialize_field(keys[6], &metadata.canonical_seed_index)?;
    map.serialize_field(keys[7], &metadata.precision)?;
    map.end()?;
    Ok(out.into_inner())
}

/// Writes registers with `rmp_serde::Serializer`, as an array with one `bin`. It
/// is trusted that the bytes are the array header, the `bin` header and the
/// registers, and that writing into a `Vec` succeeds. A length beyond 32 bits
/// is left out: the `bin` header could not hold it.
#[verifier::external_body]
fn write_plain_payload(registers: &[u8]) -> (result: Result<Vec<u8>, rmp_serde::encode::Error>)
    requires
        registers@.len() <= u32::MAX,
    ensures
        result is Ok,
        result matches Ok(bytes) ==> bytes@ == plain_payload(registers@),
{
    let mut out = rmp_serde::Serializer::new(Vec::new());
    serde::Serialize::serialize(&(serde_bytes::Bytes::new(registers),), &mut out)?;
    Ok(out.into_inner())
}

/// The `bin` that `rmp_serde::from_slice` reads from a MessagePack array with
/// one element, or `None` where it refuses the bytes.
pub uninterp spec fn array_with_bin(payload: Seq<u8>) -> Option<Seq<u8>>;

/// Reads a payload with `rmp_serde::from_slice`, as an array with one `bin`. It
/// is trusted that what is read, or that nothing is, depends on the bytes
/// alone, and that from the stored form of registers it is the registers. Which
/// error comes of other bytes is not claimed.
#[verifier::external_body]
fn read_array_with_bin(payload: &[u8]) -> (result: Result<Vec<u8>, rmp_serde::decode::Error>)
    ensures
        result is Ok <==> array_with_bin(payload@) is Some,
        result is Ok ==> array_with_bin(payload@) == Some(result->Ok_0@),
        forall|registers: Seq<u8>|
            registers.len() <= u32::MAX && payload@ == #[trigger] plain_payload(registers)
                ==> result is Ok && result->Ok_0@ == registers,
{
    let (bin,) = rmp_serde::from_slice::<(serde_bytes::ByteBuf,)>(payload)?;
    Ok(bin.into_vec())
}

/// The bytes start as a MessagePack array does.
pub open spec fn is_array(payload: Seq<u8>) -> bool {
    payload.len() > 0 && (0x90 <= payload[0] <= 0x9F || payload[0] == 0xDC || payload[0] == 0xDD)
}

/// What is read of the payload of a plain sketch. An array is read as one with a
/// `bin`, and registers are read back from their stored form; any other value
/// is for `read_other` to read.
pub open spec fn plain_reads_to<P: Fn(&[u8]) -> Result<Vec<u8>, rmp_serde::decode::Error>>(
    payload: Seq<u8>,
    read_other: P,
    read: Result<Vec<u8>, rmp_serde::decode::Error>,
) -> bool {
    if is_array(payload) {
        &&& read is Ok <==> array_with_bin(payload) is Some
        &&& read is Ok ==> array_with_bin(payload) == Some(read->Ok_0@)
        &&& forall|registers: Seq<u8>|
            registers.len() <= u32::MAX && payload == #[trigger] plain_payload(registers)
                ==> read is Ok && read->Ok_0@ == registers
    } else {
        exists|slice: &[u8]|
            slice@ == payload && #[trigger] call_ensures(read_other, (slice,), read)
    }
}

/// Reads the register bin of a plain payload. It is stored as an array, which
/// is read here. A struct can also be given as a map from its field names, and
/// `read_other` reads that.
pub fn read_plain_payload<P>(payload: &[u8], read_other: P) -> (read: Result<
    Vec<u8>,
    rmp_serde::decode::Error,
>) where P: Fn(&[u8]) -> Result<Vec<u8>, rmp_serde::decode::Error>
    requires
        forall|slice: &[u8]|
            !is_array(payload@) && slice@ == payload@ ==> #[trigger] call_requires(
                read_other,
                (slice,),
            ),
    ensures
        plain_reads_to(payload@, read_other, read),
{
    if payload.len() > 0 && (0x90 <= payload[0] && payload[0] <= 0x9F || payload[0] == 0xDC
        || payload[0] == 0xDD) {
        read_array_with_bin(payload)
    } else {
        read_other(payload)
    }
}

/// Frames what the writers of the metadata and of the payload gave. An error of
/// the first comes before one of the second.
pub fn seal(
    kind_id: &[u8],
    metadata: Result<Vec<u8>, rmp_serde::encode::Error>,
    payload: Result<Vec<u8>, rmp_serde::encode::Error>,
) -> (result: Result<Vec<u8>, WireEncodeError>)
    requires
        kind_id@.len() <= 255,
    ensures
        match (metadata, payload) {
            (Ok(metadata), Ok(payload)) => result matches Ok(bytes) && bytes@ == envelope::framed(
                kind_id@,
                metadata@,
                payload@,
            ),
            (Err(error), _) => result == Err::<Vec<u8>, WireEncodeError>(
                WireEncodeError::Codec(error),
            ),
            (Ok(_), Err(error)) => result == Err::<Vec<u8>, WireEncodeError>(
                WireEncodeError::Codec(error),
            ),
        },
{
    let metadata: Vec<u8> = match metadata {
        Ok(metadata) => metadata,
        Err(error) => {
            return Err(WireEncodeError::Codec(error));
        },
    };
    match payload {
        Ok(payload) => Ok(envelope::encode(kind_id, metadata.as_slice(), payload.as_slice())),
        Err(error) => Err(WireEncodeError::Codec(error)),
    }
}

/// What is wrong with the frame of bytes that should be of a kind.
pub open spec fn frame_problem(bytes: Seq<u8>, kind_id: Seq<u8>) -> Option<Seq<char>> {
    match envelope::fault(bytes) {
        Some(error) => Some(envelope::error_text(error)),
        None => if envelope::kind_of(bytes) != kind_id {
            Some(
                "HLL kind_id mismatch: stored "@ + text::list_text(
                    text::byte_values(envelope::kind_of(bytes)),
                ) + ", expected "@ + text::list_text(text::byte_values(kind_id)),
            )
        } else {
            None
        },
    }
}

/// What is wrong with metadata that were read, if they should describe a sketch
/// of a precision under the profile of `H`.
pub open spec fn metadata_problem<H: HashProfile, E>(
    read: Result<HllMetadata, E>,
    precision: u32,
) -> Option<DecodeFailure<E>> {
    match read {
        Err(error) => Some(DecodeFailure::Codec(error)),
        Ok(metadata) => if metadata@ != profile_metadata::<H>(precision) {
            Some(DecodeFailure::Text("ASAPv1 HLL envelope: metadata mismatch"@))
        } else {
            None
        },
    }
}

/// Checks metadata that were read against the profile of `H`, so bytes hashed
/// under a different profile are rejected (fail closed).
pub fn check_metadata<H: HashProfile, E>(
    read: Result<HllMetadata, E>,
    precision: u32,
) -> (result: Result<(), WireDecodeError<E>>)
    ensures
        match metadata_problem::<H, E>(read, precision) {
            Some(problem) => result matches Err(error) && error@ == problem,
            None => result is Ok,
        },
{
    match read {
        Err(error) => Err(WireDecodeError::Codec(error)),
        Ok(metadata) => {
            if !metadata.same(&hll_metadata::<H>(precision)) {
                Err(
                    WireDecodeError::Uncategorized(
                        "ASAPv1 HLL envelope: metadata mismatch".to_owned(),
                    ),
                )
            } else {
                Ok(())
            }
        },
    }
}

/// Validates the envelope for a known target and returns the raw payload bytes.
/// `read_metadata` reads the MessagePack map; an unknown key, or one that is
/// missing, is for it to refuse.
pub fn validated_hll_payload<'a, H: HashProfile, E, M>(
    bytes: &'a [u8],
    expected_kind_id: &[u8],
    expected_precision: u32,
    read_metadata: M,
) -> (result: Result<&'a [u8], WireDecodeError<E>>) where
    M: Fn(&[u8]) -> Result<HllMetadata, E>,

    requires
        forall|metadata: &[u8]|
            frame_problem(bytes@, expected_kind_id@) is None && metadata@ == envelope::metadata_of(
                bytes@,
            ) ==> #[trigger] call_requires(read_metadata, (metadata,)),
    ensures
        match frame_problem(bytes@, expected_kind_id@) {
            Some(problem) => result matches Err(error) && error@ == DecodeFailure::<E>::Text(
                problem,
            ),
            None => exists|metadata: &[u8], read: Result<HllMetadata, E>|
                {
                    &&& #[trigger] call_ensures(read_metadata, (metadata,), read)
                    &&& metadata@ == envelope::metadata_of(bytes@)
                    &&& match metadata_problem::<H, E>(read, expected_precision) {
                        Some(problem) => result matches Err(error) && error@ == problem,
                        None => result matches Ok(payload) && payload@ == envelope::payload_of(
                            bytes@,
                        ),
                    }
                },
        },
{
    let (kind_id, metadata, payload) = match envelope::split(bytes) {
        Ok(parts) => parts,
        Err(error) => {
            return Err(WireDecodeError::Uncategorized(error.message()));
        },
    };
    if !same_bytes(kind_id, expected_kind_id) {
        let mut problem: String = "HLL kind_id mismatch: stored ".to_owned();
        text::push_bytes(&mut problem, kind_id);
        problem.append(", expected ");
        text::push_bytes(&mut problem, expected_kind_id);
        return Err(WireDecodeError::Uncategorized(problem));
    }
    let read: Result<HllMetadata, E> = read_metadata(metadata);
    match check_metadata::<H, E>(read, expected_precision) {
        Ok(()) => Ok(payload),
        Err(error) => Err(error),
    }
}

/// What comes of the register bin that was read from a payload.
pub open spec fn rebuilt<Registers: HllRegisterStorage, E>(read: Result<Vec<u8>, E>) -> Result<
    Seq<u8>,
    DecodeFailure<E>,
> {
    match read {
        Err(error) => Err(DecodeFailure::Codec(error)),
        Ok(registers) => match bin_problem::<Registers>(registers@) {
            Some(problem) => Err(DecodeFailure::Text(problem)),
            None => Ok(registers@),
        },
    }
}

/// There are far fewer registers than a `bin` can hold.
pub proof fn lemma_register_count<Registers: HllRegisterStorage>()
    ensures
        Registers::NUM_REGISTERS <= 0x40000,
{
    Registers::lemma_dimensions();
    vstd::arithmetic::power2::lemma2_to64();
    if Registers::PRECISION < 18 {
        vstd::arithmetic::power2::lemma_pow2_strictly_increases(Registers::PRECISION as nat, 18);
    }
}

/// The bytes that a sketch is stored as.
pub open spec fn stored<Variant: HllWireVariant, Registers: HllRegisterStorage, H: HashProfile>(
    registers: Seq<u8>,
) -> Seq<u8> {
    envelope::framed(
        Variant::WIRE_KIND_ID@,
        metadata_bytes(profile_metadata::<H>(Registers::PRECISION as u32)),
        plain_payload(registers),
    )
}

/// What the decoder of a sketch makes of bytes, given what its readers make of
/// the metadata and of a payload that is no array.
pub open spec fn decodes_to<
    Variant: HllWireVariant,
    Registers: HllRegisterStorage,
    H: SketchHasher + HashProfile,
    M: Fn(&[u8]) -> Result<HllMetadata, rmp_serde::decode::Error>,
    P: Fn(&[u8]) -> Result<Vec<u8>, rmp_serde::decode::Error>,
>(
    bytes: Seq<u8>,
    read_metadata: M,
    read_other: P,
    result: Result<
        HyperLogLogImpl<Variant, Registers, H>,
        WireDecodeError<rmp_serde::decode::Error>,
    >,
) -> bool {
    match frame_problem(bytes, Variant::WIRE_KIND_ID@) {
        Some(problem) => result matches Err(error) && error@ == DecodeFailure::<
            rmp_serde::decode::Error,
        >::Text(problem),
        None => exists|metadata: &[u8], read: Result<HllMetadata, rmp_serde::decode::Error>|
            {
                &&& #[trigger] call_ensures(read_metadata, (metadata,), read)
                &&& metadata@ == envelope::metadata_of(bytes)
                &&& match metadata_problem::<H, rmp_serde::decode::Error>(
                    read,
                    Registers::PRECISION as u32,
                ) {
                    Some(problem) => result matches Err(error) && error@ == problem,
                    None => exists|bin: Result<Vec<u8>, rmp_serde::decode::Error>|
                        {
                            &&& #[trigger] plain_reads_to(
                                envelope::payload_of(bytes),
                                read_other,
                                bin,
                            )
                            &&& match rebuilt::<Registers, rmp_serde::decode::Error>(bin) {
                                Ok(registers) => result matches Ok(sketch) && sketch@ == registers,
                                Err(problem) => result matches Err(error) && error@ == problem,
                            }
                        },
                }
            },
    }
}

impl<Variant, Registers: HllRegisterStorage, H: SketchHasher> HyperLogLogImpl<
    Variant,
    Registers,
    H,
> {
    /// Serializes the sketch into an ASAPv1 MessagePack envelope. The metadata is
    /// derived from the hasher's [`HashProfile`], so it truthfully describes how
    /// the sketch was hashed.
    ///
    /// A register above the maximum rank for this precision is an error rather
    /// than bytes that would be refused on decode.
    pub fn serialize_to_bytes(&self) -> (result: Result<Vec<u8>, WireEncodeError>) where
        Variant: HllWireVariant,
        H: HashProfile,

        ensures
            match range_problem::<Registers>(self@) {
                Some(problem) => result matches Err(WireEncodeError::Syntax(text)) && text@
                    == "ASAPv1 HLL envelope: "@ + problem,
                None => result matches Ok(bytes) && bytes@ == stored::<Variant, Registers, H>(
                    self@,
                ),
            },
    {
        proof {
            lemma_register_count::<Registers>();
            self.lemma_len();
        }
        let registers: Vec<u8> = match registers_to_bytes(self.storage()) {
            Ok(registers) => registers,
            Err(error) => {
                return Err(error);
            },
        };
        let metadata = write_metadata(
            METADATA_KEYS,
            &hll_metadata::<H>(Registers::PRECISION as u32),
        );
        let payload = write_plain_payload(registers.as_slice());
        let kind_id: [u8; 2] = Variant::WIRE_KIND_ID;
        seal(kind_id.as_slice(), metadata, payload)
    }

    /// Deserializes a sketch from an ASAPv1 MessagePack envelope. Bytes whose
    /// metadata does not match this hasher's [`HashProfile`] are rejected.
    ///
    /// `read_metadata` reads the MessagePack map of the metadata. The payload is
    /// an array, and `read_other` reads the register bin of one that is not.
    pub fn deserialize_from_bytes<M, P>(bytes: &[u8], read_metadata: M, read_other: P) -> (
    result: Result<Self, WireDecodeError<rmp_serde::decode::Error>>) where
        Variant: HllWireVariant,
        H: HashProfile,
        M: Fn(&[u8]) -> Result<HllMetadata, rmp_serde::decode::Error>,
        P: Fn(&[u8]) -> Result<Vec<u8>, rmp_serde::decode::Error>,

        requires
            forall|metadata: &[u8]|
                frame_problem(bytes@, Variant::WIRE_KIND_ID@) is None && metadata@
                    == envelope::metadata_of(bytes@) ==> #[trigger] call_requires(
                    read_metadata,
                    (metadata,),
                ),
            forall|payload: &[u8]|
                frame_problem(bytes@, Variant::WIRE_KIND_ID@) is None && payload@
                    == envelope::payload_of(bytes@) && !is_array(payload@)
                    ==> #[trigger] call_requires(read_other, (payload,)),
        ensures
            decodes_to::<Variant, Registers, H, M, P>(bytes@, read_metadata, read_other, result),
    {
        let kind_id: [u8; 2] = Variant::WIRE_KIND_ID;
        let payload: &[u8] = match validated_hll_payload::<H, rmp_serde::decode::Error, M>(
            bytes,
            kind_id.as_slice(),
            Registers::PRECISION as u32,
            read_metadata,
        ) {
            Ok(payload) => payload,
            Err(error) => {
                return Err(error);
            },
        };
        let bin: Result<Vec<u8>, rmp_serde::decode::Error> = read_plain_payload(
            payload,
            read_other,
        );
        match bin {
            Err(error) => Err(WireDecodeError::Codec(error)),
            Ok(registers) => match registers_from_bytes::<Registers, rmp_serde::decode::Error>(
                registers.as_slice(),
            ) {
                Ok(storage) => Ok(Self::from_registers(storage)),
                Err(error) => Err(error),
            },
        }
    }
}

/// What a HIP payload holds: the register bin, and the bits of the three running
/// scalars in the order in which they are written.
#[derive(Debug)]
pub struct HipPayload {
    /// The registers.
    pub registers: Vec<u8>,
    /// The sum of the inverse powers of the small ranks.
    pub hip_kxq0: u64,
    /// The sum of the inverse powers of the large ranks.
    pub hip_kxq1: u64,
    /// The estimate.
    pub hip_est: u64,
}

impl HipPayload {
    /// The payload is what a sketch holds.
    pub open spec fn holds<Registers: HllRegisterStorage>(
        self,
        sketch: HyperLogLogHIPImpl<Registers>,
    ) -> bool {
        &&& self.registers@ == sketch.registers.registers()
        &&& self.hip_kxq0 == sketch.kxq0
        &&& self.hip_kxq1 == sketch.kxq1
        &&& self.hip_est == sketch.est
    }
}

/// What the encoder of a HIP sketch makes of it, given what the writer makes of
/// the payload: the writer alone decides whether a sketch in range has an
/// encoding.
pub open spec fn hip_encodes_to<
    Registers: HllRegisterStorage,
    W: Fn(HipPayload) -> Result<Vec<u8>, rmp_serde::encode::Error>,
>(
    sketch: HyperLogLogHIPImpl<Registers>,
    write_payload: W,
    result: Result<Vec<u8>, WireEncodeError>,
) -> bool {
    match range_problem::<Registers>(sketch.registers.registers()) {
        Some(problem) => result matches Err(WireEncodeError::Syntax(text)) && text@
            == "ASAPv1 HLL envelope: "@ + problem,
        None => exists|payload: HipPayload, written: Result<Vec<u8>, rmp_serde::encode::Error>|
            {
                &&& #[trigger] call_ensures(write_payload, (payload,), written)
                &&& payload.holds(sketch)
                &&& match written {
                    Ok(written) => result matches Ok(bytes) && bytes@ == envelope::framed(
                        HLL_KIND_HIP@,
                        metadata_bytes(
                            profile_metadata::<DefaultXxHasher>(Registers::PRECISION as u32),
                        ),
                        written@,
                    ),
                    Err(error) => result == Err::<Vec<u8>, WireEncodeError>(
                        WireEncodeError::Codec(error),
                    ),
                }
            },
    }
}

/// What the decoder of a HIP sketch makes of bytes, given what its readers make
/// of the metadata and of the payload in them.
pub open spec fn hip_decodes_to<
    Registers: HllRegisterStorage,
    E,
    M: Fn(&[u8]) -> Result<HllMetadata, E>,
    P: Fn(&[u8]) -> Result<HipPayload, E>,
>(
    bytes: Seq<u8>,
    read_metadata: M,
    read_payload: P,
    result: Result<HyperLogLogHIPImpl<Registers>, WireDecodeError<E>>,
) -> bool {
    match frame_problem(bytes, HLL_KIND_HIP@) {
        Some(problem) => result matches Err(error) && error@ == DecodeFailure::<E>::Text(problem),
        None => exists|metadata: &[u8], read: Result<HllMetadata, E>|
            {
                &&& #[trigger] call_ensures(read_metadata, (metadata,), read)
                &&& metadata@ == envelope::metadata_of(bytes)
                &&& match metadata_problem::<DefaultXxHasher, E>(
                    read,
                    Registers::PRECISION as u32,
                ) {
                    Some(problem) => result matches Err(error) && error@ == problem,
                    None => exists|payload: &[u8], hip: Result<HipPayload, E>|
                        {
                            &&& #[trigger] call_ensures(read_payload, (payload,), hip)
                            &&& payload@ == envelope::payload_of(bytes)
                            &&& hip_outcome(hip, result)
                        },
                }
            },
    }
}

impl<Registers: HllRegisterStorage> HyperLogLogHIPImpl<Registers> {
    /// Serializes the sketch into an ASAPv1 MessagePack envelope.
    ///
    /// A register above the maximum rank for this precision is an error rather
    /// than bytes that would be refused on decode.
    ///
    /// `write_payload` writes the payload as a MessagePack array: the registers
    /// as a `bin`, then the three scalars.
    pub fn serialize_to_bytes<W>(&self, write_payload: W) -> (result: Result<
        Vec<u8>,
        WireEncodeError,
    >) where W: Fn(HipPayload) -> Result<Vec<u8>, rmp_serde::encode::Error>
        requires
            forall|payload: HipPayload|
                payload.holds(*self) ==> #[trigger] call_requires(write_payload, (payload,)),
        ensures
            hip_encodes_to(*self, write_payload, result),
    {
        let registers: Vec<u8> = match registers_to_bytes(&self.registers) {
            Ok(registers) => registers,
            Err(error) => {
                return Err(error);
            },
        };
        let metadata = write_metadata(
            METADATA_KEYS,
            &standard_hll_metadata(Registers::PRECISION as u32),
        );
        let written = write_payload(
            HipPayload {
                registers,
                hip_kxq0: self.kxq0,
                hip_kxq1: self.kxq1,
                hip_est: self.est,
            },
        );
        seal(HLL_KIND_HIP.as_slice(), metadata, written)
    }

    /// Deserializes a sketch from an ASAPv1 MessagePack envelope.
    ///
    /// `read_metadata` reads the MessagePack map of the metadata, and
    /// `read_payload` the payload.
    pub fn deserialize_from_bytes<E, M, P>(bytes: &[u8], read_metadata: M, read_payload: P) -> (
    result: Result<Self, WireDecodeError<E>>) where
        M: Fn(&[u8]) -> Result<HllMetadata, E>,
        P: Fn(&[u8]) -> Result<HipPayload, E>,

        requires
            forall|metadata: &[u8]|
                frame_problem(bytes@, HLL_KIND_HIP@) is None && metadata@ == envelope::metadata_of(
                    bytes@,
                ) ==> #[trigger] call_requires(read_metadata, (metadata,)),
            forall|payload: &[u8]|
                frame_problem(bytes@, HLL_KIND_HIP@) is None && payload@ == envelope::payload_of(
                    bytes@,
                ) ==> #[trigger] call_requires(read_payload, (payload,)),
        ensures
            hip_decodes_to(bytes@, read_metadata, read_payload, result),
    {
        let payload: &[u8] = match validated_hll_payload::<DefaultXxHasher, E, M>(
            bytes,
            HLL_KIND_HIP.as_slice(),
            Registers::PRECISION as u32,
            read_metadata,
        ) {
            Ok(payload) => payload,
            Err(error) => {
                return Err(error);
            },
        };
        let hip: Result<HipPayload, E> = read_payload(payload);
        match hip {
            Err(error) => Err(WireDecodeError::Codec(error)),
            Ok(hip) => match registers_from_bytes::<Registers, E>(hip.registers.as_slice()) {
                Ok(registers) => Ok(
                    Self { registers, kxq0: hip.hip_kxq0, kxq1: hip.hip_kxq1, est: hip.hip_est },
                ),
                Err(error) => Err(error),
            },
        }
    }
}

/// What comes of a HIP payload that was read.
pub open spec fn hip_outcome<Registers: HllRegisterStorage, E>(
    read: Result<HipPayload, E>,
    result: Result<HyperLogLogHIPImpl<Registers>, WireDecodeError<E>>,
) -> bool {
    match read {
        Err(error) => result matches Err(problem) && problem@ == DecodeFailure::<E>::Codec(error),
        Ok(hip) => match bin_problem::<Registers>(hip.registers@) {
            Some(text) => result matches Err(problem) && problem@ == DecodeFailure::<E>::Text(
                text,
            ),
            None => result matches Ok(sketch) && hip.holds(sketch),
        },
    }
}

} // verus!
