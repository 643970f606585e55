//! What holds of HyperLogLog sketches and of their stored form.

use super::rank;
use super::storage::HllRegisterStorage;
use super::wire;
use super::wire::{
    HipPayload, HllMetadata, HllWireVariant, MetadataModel, WireDecodeError, WireEncodeError,
};
use super::{HyperLogLogHIPImpl, HyperLogLogImpl};
use crate::common::hash::{DefaultXxHasher, HashProfile, SketchHasher, CANONICAL_HASH_SEED};
use crate::common::input::DataInput;
use crate::message_pack_format::envelope;
use vstd::prelude::*;

verus! {

/// Recording a rank twice is recording it once, and the order of two records
/// does not matter.
pub proof fn law_records_are_a_union(registers: Seq<u8>, a: int, x: u8, b: int, y: u8)
    requires
        0 <= a < registers.len(),
        0 <= b < registers.len(),
    ensures
        super::record(super::record(registers, a, x), a, x) == super::record(registers, a, x),
        super::record(super::record(registers, a, x), b, y) == super::record(
            super::record(registers, b, y),
            a,
            x,
        ),
{
    assert(super::record(super::record(registers, a, x), a, x) =~= super::record(registers, a, x));
    assert(super::record(super::record(registers, a, x), b, y) =~= super::record(
        super::record(registers, b, y),
        a,
        x,
    ));
}

/// No register is over the bound exactly where every register is within it.
proof fn lemma_none_over(registers: Seq<u8>, max: int)
    ensures
        wire::first_over(registers, max) is None <==> forall|i: int|
            0 <= i < registers.len() ==> #[trigger] registers[i] <= max,
    decreases registers.len(),
{
    if registers.len() > 0 {
        let rest = registers.drop_last();
        lemma_none_over(rest, max);
        if wire::first_over(registers, max) is None {
            assert forall|i: int| 0 <= i < registers.len() implies #[trigger] registers[i]
                <= max by {
                if i < rest.len() {
                    assert(rest[i] <= max);
                }
            }
        } else if wire::first_over(rest, max) is None {
            assert(registers[registers.len() - 1] > max);
        } else {
            let i = choose|i: int| 0 <= i < rest.len() && rest[i] > max;
            assert(registers[i] > max);
        }
    }
}

/// An empty sketch has an encoding, and an insert keeps it that way: an insert
/// never produces a rank that is out of range.
pub proof fn law_inserts_stay_in_range<Registers: HllRegisterStorage, H: SketchHasher>(
    registers: Seq<u8>,
    input: DataInput<'_>,
)
    requires
        registers.len() == Registers::NUM_REGISTERS,
    ensures
        wire::range_problem::<Registers>(
            Seq::new(Registers::NUM_REGISTERS as nat, |i: int| 0u8),
        ) is None,
        wire::range_problem::<Registers>(registers) is None ==> wire::range_problem::<Registers>(
            super::insert::<Registers, H>(registers, input),
        ) is None,
{
    Registers::lemma_dimensions();
    let max = wire::max_rank::<Registers>();
    lemma_none_over(Seq::new(Registers::NUM_REGISTERS as nat, |i: int| 0u8), max);
    lemma_none_over(registers, max);
    let hash = H::hash64(CANONICAL_HASH_SEED as int, input);
    rank::lemma_rank_bounds(hash, Registers::PRECISION as int);
    lemma_none_over(super::insert::<Registers, H>(registers, input), max);
}

/// The two directions hold registers to one bound: what a sketch holds is
/// accepted by its decoder exactly where it has an encoding.
pub proof fn law_bounds_do_not_drift<Registers: HllRegisterStorage>(registers: Seq<u8>)
    requires
        registers.len() == Registers::NUM_REGISTERS,
    ensures
        wire::bin_problem::<Registers>(registers) == wire::range_problem::<Registers>(registers),
{
}

/// The reader reads metadata back: from the bytes that they are stored as, it
/// reads what was stored.
pub open spec fn reads_metadata_back<E, M: Fn(&[u8]) -> Result<HllMetadata, E>>(
    read_metadata: M,
    written: MetadataModel,
) -> bool {
    forall|metadata: &[u8], read: Result<HllMetadata, E>|
        metadata@ == wire::metadata_bytes(written) && #[trigger] call_ensures(
            read_metadata,
            (metadata,),
            read,
        ) ==> (read matches Ok(back) && back@ == written)
}

/// What one sketch is stored as, another decodes exactly where both are of one
/// kind, one hash profile and one precision, and then it has the registers that
/// were stored. Everything else is refused. The reader of the metadata only has
/// to read back what was written.
pub proof fn law_what_is_stored_is_read_back<
    StoredVariant: HllWireVariant,
    StoredRegisters: HllRegisterStorage,
    G: HashProfile,
    Variant: HllWireVariant,
    Registers: HllRegisterStorage,
    H: SketchHasher + HashProfile,
    M: Fn(&[u8]) -> Result<HllMetadata, rmp_serde::decode::Error>,
    P: Fn(&[u8]) -> Result<Vec<u8>, rmp_serde::decode::Error>,
>(
    registers: Seq<u8>,
    bytes: Vec<u8>,
    read_metadata: M,
    read_other: P,
    result: Result<
        HyperLogLogImpl<Variant, Registers, H>,
        WireDecodeError<rmp_serde::decode::Error>,
    >,
)
    requires
        registers.len() == StoredRegisters::NUM_REGISTERS,
        wire::range_problem::<StoredRegisters>(registers) is None,
        bytes@ == wire::stored::<StoredVariant, StoredRegisters, G>(registers),
        reads_metadata_back::<rmp_serde::decode::Error, M>(
            read_metadata,
            wire::profile_metadata::<G>(StoredRegisters::PRECISION as u32),
        ),
        wire::decodes_to::<Variant, Registers, H, M, P>(
            bytes@,
            read_metadata,
            read_other,
            result,
        ),
    ensures
        result is Ok <==> {
            &&& StoredVariant::WIRE_KIND_ID@ == Variant::WIRE_KIND_ID@
            &&& wire::profile_metadata::<G>(StoredRegisters::PRECISION as u32)
                == wire::profile_metadata::<H>(Registers::PRECISION as u32)
        },
        result matches Ok(sketch) ==> sketch@ == registers,
{
    Registers::lemma_dimensions();
    StoredRegisters::lemma_dimensions();
    wire::lemma_register_count::<StoredRegisters>();
    let kind_id = StoredVariant::WIRE_KIND_ID@;
    let written = wire::profile_metadata::<G>(StoredRegisters::PRECISION as u32);
    let metadata = wire::metadata_bytes(written);
    let payload = wire::plain_payload(registers);
    assert(bytes.len() == bytes@.len());
    assert(metadata.len() <= bytes@.len() && payload.len() <= bytes@.len());
    envelope::law_split_undoes_encode(kind_id, metadata, payload);
    assert(wire::is_array(payload));
    if kind_id == Variant::WIRE_KIND_ID@ {
        let (slice, read) = choose|
            slice: &[u8],
            read: Result<HllMetadata, rmp_serde::decode::Error>,
        |
            {
                &&& #[trigger] call_ensures(read_metadata, (slice,), read)
                &&& slice@ == metadata
                &&& match wire::metadata_problem::<H, rmp_serde::decode::Error>(
                    read,
                    Registers::PRECISION as u32,
                ) {
                    Some(problem) => result matches Err(error) && error@ == problem,
                    None => exists|bin: Result<Vec<u8>, rmp_serde::decode::Error>|
                        {
                            &&& #[trigger] wire::plain_reads_to(payload, read_other, bin)
                            &&& match wire::rebuilt::<Registers, rmp_serde::decode::Error>(bin) {
                                Ok(registers) => result matches Ok(sketch) && sketch@ == registers,
                                Err(problem) => result matches Err(error) && error@ == problem,
                            }
                        },
                }
            };
        assert(read matches Ok(back) && back@ == written);
    }
}

/// A decoder refuses the bytes of every other kind.
pub proof fn law_other_kind_is_refused(
    kind_id: Seq<u8>,
    metadata: Seq<u8>,
    payload: Seq<u8>,
    expected: Seq<u8>,
)
    requires
        kind_id.len() <= 255,
        metadata.len() <= u64::MAX,
        payload.len() <= u64::MAX,
        kind_id != expected,
    ensures
        wire::frame_problem(envelope::framed(kind_id, metadata, payload), expected) is Some,
{
    envelope::law_split_undoes_encode(kind_id, metadata, payload);
}

/// A decoder refuses what was hashed under another profile, or stored at another
/// precision.
pub proof fn law_other_profile_or_precision_is_refused<G: HashProfile, H: HashProfile, E>(
    metadata: HllMetadata,
    stored: u32,
    expected: u32,
)
    requires
        metadata@ == wire::profile_metadata::<G>(stored),
        stored != expected || G::PROFILE_ID@ != H::PROFILE_ID@ || G::seeds() != H::seeds(),
    ensures
        wire::metadata_problem::<H, E>(Ok(metadata), expected) is Some,
{
}

/// The reader of HIP payloads reads back what the writer wrote, scalars
/// included.
pub open spec fn reads_hip_back<
    E,
    W: Fn(HipPayload) -> Result<Vec<u8>, rmp_serde::encode::Error>,
    P: Fn(&[u8]) -> Result<HipPayload, E>,
>(write_payload: W, read_payload: P) -> bool {
    forall|
        payload: HipPayload,
        written: Result<Vec<u8>, rmp_serde::encode::Error>,
        slice: &[u8],
        read: Result<HipPayload, E>,
    |
        #[trigger] call_ensures(write_payload, (payload,), written) && (written matches Ok(bytes)
            && slice@ == bytes@) && #[trigger] call_ensures(read_payload, (slice,), read) ==> (
        read matches Ok(back) && {
            &&& back.registers@ == payload.registers@
            &&& back.hip_kxq0 == payload.hip_kxq0
            &&& back.hip_kxq1 == payload.hip_kxq1
            &&& back.hip_est == payload.hip_est
        })
}

/// A HIP sketch is read back as it was written: the decoder takes the bytes of
/// the encoder and gives back the registers and the three scalars. The readers
/// only have to read back what the writers wrote.
pub proof fn law_hip_sketch_is_read_back<
    Registers: HllRegisterStorage,
    E,
    W: Fn(HipPayload) -> Result<Vec<u8>, rmp_serde::encode::Error>,
    M: Fn(&[u8]) -> Result<HllMetadata, E>,
    P: Fn(&[u8]) -> Result<HipPayload, E>,
>(
    sketch: HyperLogLogHIPImpl<Registers>,
    write_payload: W,
    encoded: Result<Vec<u8>, WireEncodeError>,
    bytes: Vec<u8>,
    read_metadata: M,
    read_payload: P,
    result: Result<HyperLogLogHIPImpl<Registers>, WireDecodeError<E>>,
)
    requires
        wire::hip_encodes_to(sketch, write_payload, encoded),
        encoded == Ok::<Vec<u8>, WireEncodeError>(bytes),
        reads_metadata_back::<E, M>(
            read_metadata,
            wire::profile_metadata::<DefaultXxHasher>(Registers::PRECISION as u32),
        ),
        reads_hip_back::<E, W, P>(write_payload, read_payload),
        wire::hip_decodes_to(bytes@, read_metadata, read_payload, result),
    ensures
        result matches Ok(back) && same_hip(back, sketch),
{
    sketch.registers.lemma_len();
    let written = wire::profile_metadata::<DefaultXxHasher>(Registers::PRECISION as u32);
    let metadata = wire::metadata_bytes(written);
    let (payload, stored) = choose|
        payload: HipPayload,
        stored: Result<Vec<u8>, rmp_serde::encode::Error>,
    |
        {
            &&& #[trigger] call_ensures(write_payload, (payload,), stored)
            &&& payload.holds(sketch)
            &&& stored matches Ok(stored) && bytes@ == envelope::framed(
                wire::HLL_KIND_HIP@,
                metadata,
                stored@,
            )
        };
    let tail = stored->Ok_0@;
    assert(bytes.len() == bytes@.len());
    assert(metadata.len() <= bytes@.len() && tail.len() <= bytes@.len());
    envelope::law_split_undoes_encode(wire::HLL_KIND_HIP@, metadata, tail);
    let (slice, read) = choose|slice: &[u8], read: Result<HllMetadata, E>|
        {
            &&& #[trigger] call_ensures(read_metadata, (slice,), read)
            &&& slice@ == metadata
            &&& match wire::metadata_problem::<DefaultXxHasher, E>(
                read,
                Registers::PRECISION as u32,
            ) {
                Some(problem) => result matches Err(error) && error@ == problem,
                None => exists|payload: &[u8], hip: Result<HipPayload, E>|
                    {
                        &&& #[trigger] call_ensures(read_payload, (payload,), hip)
                        &&& payload@ == tail
                        &&& wire::hip_outcome(hip, result)
                    },
            }
        };
    assert(read matches Ok(back) && back@ == written);
    let (inner, hip) = choose|inner: &[u8], hip: Result<HipPayload, E>|
        {
            &&& #[trigger] call_ensures(read_payload, (inner,), hip)
            &&& inner@ == tail
            &&& wire::hip_outcome(hip, result)
        };
    assert(call_ensures(write_payload, (payload,), stored));
    assert(hip is Ok);
}

/// Two HIP sketches hold the same registers and the same scalars.
pub open spec fn same_hip<Registers: HllRegisterStorage>(
    a: HyperLogLogHIPImpl<Registers>,
    b: HyperLogLogHIPImpl<Registers>,
) -> bool {
    &&& a.registers.registers() == b.registers.registers()
    &&& a.kxq0 == b.kxq0
    &&& a.kxq1 == b.kxq1
    &&& a.est == b.est
}

/// The writer writes what holds the same in the same way.
pub open spec fn writes_hip_alike<
    W: Fn(HipPayload) -> Result<Vec<u8>, rmp_serde::encode::Error>,
>(write_payload: W) -> bool {
    forall|
        a: HipPayload,
        x: Result<Vec<u8>, rmp_serde::encode::Error>,
        b: HipPayload,
        y: Result<Vec<u8>, rmp_serde::encode::Error>,
    |
        a.registers@ == b.registers@ && a.hip_kxq0 == b.hip_kxq0 && a.hip_kxq1 == b.hip_kxq1
            && a.hip_est == b.hip_est && #[trigger] call_ensures(write_payload, (a,), x)
            && #[trigger] call_ensures(write_payload, (b,), y) ==> match (x, y) {
            (Ok(x), Ok(y)) => x@ == y@,
            (Err(_), Err(_)) => true,
            _ => false,
        }
}

/// A HIP sketch that was read back is stored as the same bytes again.
pub proof fn law_hip_sketch_is_stored_the_same_again<
    Registers: HllRegisterStorage,
    W: Fn(HipPayload) -> Result<Vec<u8>, rmp_serde::encode::Error>,
>(
    sketch: HyperLogLogHIPImpl<Registers>,
    back: HyperLogLogHIPImpl<Registers>,
    write_payload: W,
    first: Result<Vec<u8>, WireEncodeError>,
    again: Result<Vec<u8>, WireEncodeError>,
)
    requires
        same_hip(back, sketch),
        writes_hip_alike(write_payload),
        wire::hip_encodes_to(sketch, write_payload, first),
        wire::hip_encodes_to(back, write_payload, again),
    ensures
        first is Ok <==> again is Ok,
        first matches Ok(bytes) ==> (again matches Ok(more) && more@ == bytes@),
{
}

/// Recording a rank raises one register to it, unless the register is higher
/// already, and touches no other.
pub proof fn law_record_raises_one_register(registers: Seq<u8>, index: int, rank: u8, j: int)
    requires
        0 <= index < registers.len(),
        0 <= j < registers.len(),
    ensures
        super::record(registers, index, rank).len() == registers.len(),
        j != index ==> super::record(registers, index, rank)[j] == registers[j],
        j == index && rank <= registers[j] ==> super::record(registers, index, rank)[j]
            == registers[j],
        j == index && rank >= registers[j] ==> super::record(registers, index, rank)[j] == rank,
{
}

/// Whatever is inserted, text or number, is recorded: its hash under the
/// canonical seed selects one register, which is raised to the rank of the hash
/// unless it is higher already. No other register changes.
pub proof fn law_every_input_is_recorded<Registers: HllRegisterStorage, H: SketchHasher>(
    registers: Seq<u8>,
    input: DataInput<'_>,
    j: int,
)
    requires
        registers.len() == Registers::NUM_REGISTERS,
        0 <= j < registers.len(),
    ensures
        ({
            let after = super::insert::<Registers, H>(registers, input);
            let hash = H::hash64(5, input);
            let selected = rank::register_of(hash, Registers::PRECISION as int);
            let rank = rank::rank_of(hash, Registers::PRECISION as int);
            &&& after.len() == registers.len()
            &&& 0 <= selected < registers.len()
            &&& j != selected ==> after[j] == registers[j]
            &&& j == selected ==> after[j] >= rank && after[j] >= registers[j]
            &&& j == selected ==> after[j] == rank || after[j] == registers[j]
        }),
{
    Registers::lemma_dimensions();
    let hash = H::hash64(5, input);
    rank::lemma_rank_bounds(hash, Registers::PRECISION as int);
}

/// The registers of a sketch that has seen `inputs`, one after another.
pub open spec fn insert_all<Registers: HllRegisterStorage, H: SketchHasher>(
    registers: Seq<u8>,
    inputs: Seq<DataInput<'_>>,
) -> Seq<u8>
    decreases inputs.len(),
{
    if inputs.len() == 0 {
        registers
    } else {
        super::insert::<Registers, H>(
            insert_all::<Registers, H>(registers, inputs.drop_last()),
            inputs.last(),
        )
    }
}

/// A register after a stream is the largest rank among the inputs of the stream
/// that select it, and zero if none does. So it depends on which inputs were
/// seen alone, not on their order or on how often.
pub proof fn law_registers_are_the_largest_ranks<Registers: HllRegisterStorage, H: SketchHasher>(
    inputs: Seq<DataInput<'_>>,
    j: int,
)
    requires
        0 <= j < Registers::NUM_REGISTERS,
    ensures
        ({
            let empty = Seq::new(Registers::NUM_REGISTERS as nat, |i: int| 0u8);
            let after = insert_all::<Registers, H>(empty, inputs);
            let p = Registers::PRECISION as int;
            &&& after.len() == Registers::NUM_REGISTERS
            &&& forall|i: int|
                0 <= i < inputs.len() && rank::register_of(
                    H::hash64(5, #[trigger] inputs[i]),
                    p,
                ) == j ==> rank::rank_of(H::hash64(5, inputs[i]), p) <= after[j]
            &&& after[j] > 0 ==> exists|i: int|
                0 <= i < inputs.len() && rank::register_of(
                    H::hash64(5, #[trigger] inputs[i]),
                    p,
                ) == j && rank::rank_of(H::hash64(5, inputs[i]), p) == after[j]
        }),
    decreases inputs.len(),
{
    let empty = Seq::new(Registers::NUM_REGISTERS as nat, |i: int| 0u8);
    let p = Registers::PRECISION as int;
    if inputs.len() > 0 {
        let earlier = inputs.drop_last();
        law_registers_are_the_largest_ranks::<Registers, H>(earlier, j);
        let before = insert_all::<Registers, H>(empty, earlier);
        let after = insert_all::<Registers, H>(empty, inputs);
        law_every_input_is_recorded::<Registers, H>(before, inputs.last(), j);
        let hash = H::hash64(5, inputs.last());
        assert forall|i: int|
            0 <= i < inputs.len() && rank::register_of(H::hash64(5, #[trigger] inputs[i]), p)
                == j implies rank::rank_of(H::hash64(5, inputs[i]), p) <= after[j] by {
            if i < earlier.len() {
                assert(earlier[i] == inputs[i]);
            }
        }
        if after[j] > 0 {
            if rank::register_of(hash, p) == j && after[j] == rank::rank_of(hash, p) {
                assert(inputs[inputs.len() - 1] == inputs.last());
            } else {
                let i = choose|i: int|
                    0 <= i < earlier.len() && rank::register_of(
                        H::hash64(5, #[trigger] earlier[i]),
                        p,
                    ) == j && rank::rank_of(H::hash64(5, earlier[i]), p) == before[j];
                assert(earlier[i] == inputs[i]);
            }
        }
    }
}

/// Registers are stored and read back exactly where every one of them is a rank
/// that a hash can have: at most one more than the bits behind the register
/// index.
pub proof fn law_range_is_that_of_ranks<Registers: HllRegisterStorage>(registers: Seq<u8>)
    ensures
        wire::range_problem::<Registers>(registers) is None <==> forall|i: int|
            0 <= i < registers.len() ==> #[trigger] registers[i] <= 65 - Registers::PRECISION,
        wire::bin_problem::<Registers>(registers) is None <==> registers.len()
            == Registers::NUM_REGISTERS && forall|i: int|
            0 <= i < registers.len() ==> #[trigger] registers[i] <= 65 - Registers::PRECISION,
{
    Registers::lemma_dimensions();
    lemma_none_over(registers, wire::max_rank::<Registers>());
}

/// The register that is complained of is the first one out of range.
pub proof fn law_first_register_out_of_range_is_named(registers: Seq<u8>, max: int)
    ensures
        wire::first_over(registers, max) matches Some(rank) ==> exists|i: int|
            {
                &&& 0 <= i < registers.len()
                &&& #[trigger] registers[i] == rank
                &&& rank > max
                &&& forall|j: int| 0 <= j < i ==> #[trigger] registers[j] <= max
            },
    decreases registers.len(),
{
    if registers.len() > 0 {
        let rest = registers.drop_last();
        law_first_register_out_of_range_is_named(rest, max);
        lemma_none_over(rest, max);
        if wire::first_over(rest, max) is Some {
            let rank = wire::first_over(rest, max)->Some_0;
            let i = choose|i: int|
                {
                    &&& 0 <= i < rest.len()
                    &&& #[trigger] rest[i] == rank
                    &&& rank > max
                    &&& forall|j: int| 0 <= j < i ==> #[trigger] rest[j] <= max
                };
            assert(registers[i] == rank);
            assert forall|j: int| 0 <= j < i implies #[trigger] registers[j] <= max by {
                assert(rest[j] <= max);
            }
        } else if registers.last() > max {
            let i = registers.len() - 1;
            assert(registers[i] == registers.last());
            assert forall|j: int| 0 <= j < i implies #[trigger] registers[j] <= max by {
                assert(rest[j] <= max);
            }
        }
    }
}

/// Metadata tell profiles and precisions apart by everything that the hashes
/// depend on: they are the same exactly where all of it is.
pub proof fn law_metadata_tell_profiles_apart<G: HashProfile, H: HashProfile>(a: u32, b: u32)
    ensures
        wire::profile_metadata::<G>(a) == wire::profile_metadata::<H>(b) <==> {
            &&& G::PROFILE_ID@ == H::PROFILE_ID@
            &&& G::ALGORITHM@ == H::ALGORITHM@
            &&& G::SEED_DERIVATION@ == H::SEED_DERIVATION@
            &&& G::INPUT_ENCODING@ == H::INPUT_ENCODING@
            &&& G::seeds() == H::seeds()
            &&& G::CANONICAL_SEED_INDEX == H::CANONICAL_SEED_INDEX
            &&& a == b
        },
        wire::profile_metadata::<G>(a).metadata_version == 1,
{
}

/// A descriptor that was read is accepted exactly where each of its fields is
/// what the profile and the precision ask for.
pub proof fn law_metadata_are_held_to_the_profile<H: HashProfile, E>(
    metadata: HllMetadata,
    precision: u32,
    error: E,
)
    ensures
        wire::metadata_problem::<H, E>(Ok(metadata), precision) is None <==> {
            &&& metadata.metadata_version == 1
            &&& metadata.hash_profile_id@ == H::PROFILE_ID@
            &&& metadata.hash_algorithm@ == H::ALGORITHM@
            &&& metadata.seed_derivation@ == H::SEED_DERIVATION@
            &&& metadata.input_encoding@ == H::INPUT_ENCODING@
            &&& metadata.seed_list@ == H::seeds()
            &&& metadata.canonical_seed_index == H::CANONICAL_SEED_INDEX
            &&& metadata.precision == precision
        },
        wire::metadata_problem::<H, E>(Err(error), precision) == Some(
            wire::DecodeFailure::Codec(error),
        ),
{
}

/// A frame is accepted exactly where the bytes are an envelope of the kind that
/// is asked for.
pub proof fn law_frame_is_an_envelope_of_the_kind(bytes: Seq<u8>, kind_id: Seq<u8>)
    requires
        kind_id.len() <= 255,
        bytes.len() <= u64::MAX,
    ensures
        wire::frame_problem(bytes, kind_id) is None <==> exists|metadata: Seq<u8>, payload: Seq<u8>|
            bytes == #[trigger] envelope::framed(kind_id, metadata, payload),
{
    if wire::frame_problem(bytes, kind_id) is None {
        envelope::law_encode_undoes_split(bytes);
        assert(bytes == envelope::framed(
            kind_id,
            envelope::metadata_of(bytes),
            envelope::payload_of(bytes),
        ));
    }
    if exists|metadata: Seq<u8>, payload: Seq<u8>|
        bytes == #[trigger] envelope::framed(kind_id, metadata, payload) {
        let (metadata, payload) = choose|metadata: Seq<u8>, payload: Seq<u8>|
            bytes == #[trigger] envelope::framed(kind_id, metadata, payload);
        assert(metadata.len() <= bytes.len() && payload.len() <= bytes.len());
        envelope::law_split_undoes_encode(kind_id, metadata, payload);
    }
}

/// What is decoded is a sketch: bytes are only accepted as an envelope of the
/// right kind, with metadata that were read as those of the profile and the
/// precision, and then every register of the sketch is a rank that a hash can
/// have.
pub proof fn law_decoded_sketch_is_valid<
    Variant: HllWireVariant,
    Registers: HllRegisterStorage,
    H: SketchHasher + HashProfile,
    M: Fn(&[u8]) -> Result<HllMetadata, rmp_serde::decode::Error>,
    P: Fn(&[u8]) -> Result<Vec<u8>, rmp_serde::decode::Error>,
>(
    bytes: Vec<u8>,
    read_metadata: M,
    read_other: P,
    result: Result<
        HyperLogLogImpl<Variant, Registers, H>,
        WireDecodeError<rmp_serde::decode::Error>,
    >,
)
    requires
        wire::decodes_to::<Variant, Registers, H, M, P>(
            bytes@,
            read_metadata,
            read_other,
            result,
        ),
    ensures
        result matches Ok(sketch) ==> {
            &&& sketch@.len() == Registers::NUM_REGISTERS
            &&& forall|i: int|
                0 <= i < sketch@.len() ==> #[trigger] sketch@[i] <= 65 - Registers::PRECISION
            &&& exists|metadata: Seq<u8>, payload: Seq<u8>|
                bytes@ == #[trigger] envelope::framed(Variant::WIRE_KIND_ID@, metadata, payload)
            &&& exists|slice: &[u8], read: Result<HllMetadata, rmp_serde::decode::Error>|
                {
                    &&& #[trigger] call_ensures(read_metadata, (slice,), read)
                    &&& slice@ == envelope::metadata_of(bytes@)
                    &&& read matches Ok(metadata) && metadata@ == wire::profile_metadata::<H>(
                        Registers::PRECISION as u32,
                    )
                }
        },
{
    assert(bytes.len() == bytes@.len());
    law_frame_is_an_envelope_of_the_kind(bytes@, Variant::WIRE_KIND_ID@);
    if result is Ok {
        let sketch = result->Ok_0;
        law_range_is_that_of_ranks::<Registers>(sketch@);
    }
}

/// A HIP payload holds a sketch field by field: the registers, and each scalar
/// under its own name.
pub proof fn law_hip_payload_is_the_sketch<Registers: HllRegisterStorage>(
    payload: HipPayload,
    sketch: HyperLogLogHIPImpl<Registers>,
)
    ensures
        payload.holds(sketch) <==> {
            &&& payload.registers@ == sketch.registers.registers()
            &&& payload.hip_kxq0 == sketch.kxq0
            &&& payload.hip_kxq1 == sketch.kxq1
            &&& payload.hip_est == sketch.est
        },
{
}

/// What a HIP payload becomes: a sketch that holds the same, exactly where there
/// are as many registers as the precision asks for and each is a rank that a
/// hash can have.
pub proof fn law_hip_payload_is_checked<Registers: HllRegisterStorage, E>(
    read: Result<HipPayload, E>,
    result: Result<HyperLogLogHIPImpl<Registers>, WireDecodeError<E>>,
)
    requires
        wire::hip_outcome(read, result),
    ensures
        result is Ok <==> (read matches Ok(payload) && payload.registers@.len()
            == Registers::NUM_REGISTERS && forall|i: int|
            0 <= i < payload.registers@.len() ==> #[trigger] payload.registers@[i] <= 65
                - Registers::PRECISION),
        result matches Ok(sketch) ==> (read matches Ok(payload) && {
            &&& sketch.registers.registers() == payload.registers@
            &&& sketch.kxq0 == payload.hip_kxq0
            &&& sketch.kxq1 == payload.hip_kxq1
            &&& sketch.est == payload.hip_est
        }),
{
    if read is Ok {
        law_range_is_that_of_ranks::<Registers>(read->Ok_0.registers@);
    }
}

/// A HIP sketch has an encoding exactly where each of its registers is a rank
/// that a hash can have and the writer wrote its payload; and then the bytes are
/// an envelope of the HIP kind.
pub proof fn law_hip_encodes_only_ranks<
    Registers: HllRegisterStorage,
    W: Fn(HipPayload) -> Result<Vec<u8>, rmp_serde::encode::Error>,
>(
    sketch: HyperLogLogHIPImpl<Registers>,
    write_payload: W,
    result: Result<Vec<u8>, WireEncodeError>,
)
    requires
        wire::hip_encodes_to(sketch, write_payload, result),
    ensures
        ({
            let ranks = forall|i: int|
                0 <= i < sketch.registers.registers().len()
                    ==> #[trigger] sketch.registers.registers()[i] <= 65 - Registers::PRECISION;
            &&& result is Ok ==> ranks
            &&& !ranks ==> (result matches Err(WireEncodeError::Syntax(_)))
            &&& ranks ==> exists|
                payload: HipPayload,
                written: Result<Vec<u8>, rmp_serde::encode::Error>,
            |
                {
                    &&& #[trigger] call_ensures(write_payload, (payload,), written)
                    &&& payload.holds(sketch)
                    &&& written is Ok <==> result is Ok
                }
            &&& result matches Ok(bytes) ==> exists|metadata: Seq<u8>, payload: Seq<u8>|
                bytes@ == #[trigger] envelope::framed(wire::HLL_KIND_HIP@, metadata, payload)
        }),
{
    law_range_is_that_of_ranks::<Registers>(sketch.registers.registers());
}

/// What is decoded is a HIP sketch: bytes are only accepted as an envelope of
/// the HIP kind, with metadata that were read as those of the standard profile
/// and the precision, and then every register is a rank that a hash can have.
pub proof fn law_decoded_hip_sketch_is_valid<
    Registers: HllRegisterStorage,
    E,
    M: Fn(&[u8]) -> Result<HllMetadata, E>,
    P: Fn(&[u8]) -> Result<HipPayload, E>,
>(
    bytes: Vec<u8>,
    read_metadata: M,
    read_payload: P,
    result: Result<HyperLogLogHIPImpl<Registers>, WireDecodeError<E>>,
)
    requires
        wire::hip_decodes_to(bytes@, read_metadata, read_payload, result),
    ensures
        result matches Ok(sketch) ==> {
            &&& forall|i: int|
                0 <= i < sketch.registers.registers().len()
                    ==> #[trigger] sketch.registers.registers()[i] <= 65 - Registers::PRECISION
            &&& exists|metadata: Seq<u8>, payload: Seq<u8>|
                bytes@ == #[trigger] envelope::framed(wire::HLL_KIND_HIP@, metadata, payload)
            &&& exists|slice: &[u8], read: Result<HllMetadata, E>|
                {
                    &&& #[trigger] call_ensures(read_metadata, (slice,), read)
                    &&& slice@ == envelope::metadata_of(bytes@)
                    &&& read matches Ok(metadata) && metadata@ == wire::profile_metadata::<
                        DefaultXxHasher,
                    >(Registers::PRECISION as u32)
                }
        },
{
    assert(bytes.len() == bytes@.len());
    wire::law_kinds_differ();
    law_frame_is_an_envelope_of_the_kind(bytes@, wire::HLL_KIND_HIP@);
    if result is Ok {
        let sketch = result->Ok_0;
        law_range_is_that_of_ranks::<Registers>(sketch.registers.registers());
    }
}

} // verus!
