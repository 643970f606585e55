use asap_sketchlib::message_pack_format::envelope;
use asap_sketchlib::sketches::hll::rank::register_and_rank;
use asap_sketchlib::sketches::hll::storage::{
    HllBucketListP12, HllBucketListP14, HllRegisterStorage,
};
use asap_sketchlib::sketches::hll::wire::{
    check_metadata, check_register_range, read_plain_payload, registers_from_bytes, registers_to_bytes, seal,
    standard_hll_metadata, HipPayload, HllMetadata, HllWireVariant, WireDecodeError,
    WireEncodeError, HLL_KIND_CLASSIC, HLL_KIND_ERTL_MLE, HLL_KIND_HIP, METADATA_KEYS,
};
use asap_sketchlib::sketches::hll::{
    Classic, ErtlMLE, HllDelta, HyperLogLog, HyperLogLogHIP, HyperLogLogHIPImpl, HyperLogLogHIPP12,
    HyperLogLogImpl, HyperLogLogP12,
};
use asap_sketchlib::{
    DataInput, DefaultXxHasher, HashProfile, SketchHasher, CANONICAL_HASH_SEED,
};
use serde::de::{Deserializer, Error, MapAccess, Visitor};
use serde::ser::{SerializeStruct, Serializer};
use std::collections::BTreeMap;

type RmpDecodeError = rmp_serde::decode::Error;

const ERROR_TOLERANCE: f64 = 0.02;
const SERDE_SAMPLE: usize = 100_000;
const P14_MAX: u8 = (HllBucketListP14::REGISTER_BITS + 1) as u8; // 51
const P12_MAX: u8 = (HllBucketListP12::REGISTER_BITS + 1) as u8; // 53

/// Metadata as a MessagePack map, with every key known and present.
struct Meta(HllMetadata);

struct MetaVisitor;

impl<'de> Visitor<'de> for MetaVisitor {
    type Value = Meta;

    fn expecting(&self, f: &mut std::fmt::Formatter) -> std::fmt::Result {
        f.write_str("a map of HLL metadata")
    }

    fn visit_map<A: MapAccess<'de>>(self, mut map: A) -> Result<Meta, A::Error> {
        let mut metadata_version = None;
        let mut hash_profile_id = None;
        let mut hash_algorithm = None;
        let mut seed_derivation = None;
        let mut input_encoding = None;
        let mut seed_list = None;
        let mut canonical_seed_index = None;
        let mut precision = None;
        while let Some(key) = map.next_key::<String>()? {
            match key.as_str() {
                "metadata_version" => metadata_version = Some(map.next_value()?),
                "hash_profile_id" => hash_profile_id = Some(map.next_value()?),
                "hash_algorithm" => hash_algorithm = Some(map.next_value()?),
                "seed_derivation" => seed_derivation = Some(map.next_value()?),
                "input_encoding" => input_encoding = Some(map.next_value()?),
                "seed_list" => seed_list = Some(map.next_value()?),
                "canonical_seed_index" => canonical_seed_index = Some(map.next_value()?),
                "precision" => precision = Some(map.next_value()?),
                other => return Err(A::Error::custom(format!("unknown field `{other}`"))),
            }
        }
        let missing = || A::Error::custom("missing field");
        Ok(Meta(HllMetadata {
            metadata_version: metadata_version.ok_or_else(missing)?,
            hash_profile_id: hash_profile_id.ok_or_else(missing)?,
            hash_algorithm: hash_algorithm.ok_or_else(missing)?,
            seed_derivation: seed_derivation.ok_or_else(missing)?,
            input_encoding: input_encoding.ok_or_else(missing)?,
            seed_list: seed_list.ok_or_else(missing)?,
            canonical_seed_index: canonical_seed_index.ok_or_else(missing)?,
            precision: precision.ok_or_else(missing)?,
        }))
    }
}

impl<'de> serde::Deserialize<'de> for Meta {
    fn deserialize<D: Deserializer<'de>>(deserializer: D) -> Result<Self, D::Error> {
        deserializer.deserialize_map(MetaVisitor)
    }
}

/// Metadata as a MessagePack map, with one unknown key at the end if asked for.
struct WriteMeta<'a> {
    metadata: &'a HllMetadata,
    bogus: bool,
}

impl serde::Serialize for WriteMeta<'_> {
    fn serialize<S: Serializer>(&self, serializer: S) -> Result<S::Ok, S::Error> {
        let m = self.metadata;
        let mut map = serializer.serialize_struct("HllMetadata", 8 + self.bogus as usize)?;
        map.serialize_field("metadata_version", &m.metadata_version)?;
        map.serialize_field("hash_profile_id", &m.hash_profile_id)?;
        map.serialize_field("hash_algorithm", &m.hash_algorithm)?;
        map.serialize_field("seed_derivation", &m.seed_derivation)?;
        map.serialize_field("input_encoding", &m.input_encoding)?;
        map.serialize_field("seed_list", &m.seed_list)?;
        map.serialize_field("canonical_seed_index", &m.canonical_seed_index)?;
        map.serialize_field("precision", &m.precision)?;
        if self.bogus {
            map.serialize_field("bogus_field", &7u8)?;
        }
        map.end()
    }
}

fn read_metadata(bytes: &[u8]) -> Result<HllMetadata, RmpDecodeError> {
    rmp_serde::from_slice::<Meta>(bytes).map(|m| m.0)
}

/// Reads the register bin of a payload that is a map.
fn read_plain(bytes: &[u8]) -> Result<Vec<u8>, RmpDecodeError> {
    let mut map = rmp_serde::from_slice::<BTreeMap<String, serde_bytes::ByteBuf>>(bytes)?;
    match map.remove("registers") {
        Some(registers) => Ok(registers.into_vec()),
        None => Err(Error::missing_field("registers")),
    }
}

fn write_hip(payload: HipPayload) -> Result<Vec<u8>, rmp_serde::encode::Error> {
    rmp_serde::to_vec(&(
        serde_bytes::Bytes::new(&payload.registers),
        f64::from_bits(payload.hip_kxq0),
        f64::from_bits(payload.hip_kxq1),
        f64::from_bits(payload.hip_est),
    ))
}

fn read_hip(bytes: &[u8]) -> Result<HipPayload, RmpDecodeError> {
    rmp_serde::from_slice::<(serde_bytes::ByteBuf, f64, f64, f64)>(bytes).map(|p| HipPayload {
        registers: p.0.into_vec(),
        hip_kxq0: p.1.to_bits(),
        hip_kxq1: p.2.to_bits(),
        hip_est: p.3.to_bits(),
    })
}

/// The text of a refusal that the library worded itself.
fn refusal(error: WireDecodeError<RmpDecodeError>) -> String {
    match error {
        WireDecodeError::Uncategorized(text) => text,
        WireDecodeError::Codec(error) => panic!("a codec error: {error}"),
    }
}

/// The text of an encode error that the library worded itself.
fn complaint(error: WireEncodeError) -> String {
    match error {
        WireEncodeError::Syntax(text) => text,
        WireEncodeError::Codec(error) => panic!("a codec error: {error}"),
    }
}

/// A register-based estimate, enough to compare two sketches with.
fn register_estimate(registers: &[u8]) -> f64 {
    let m = registers.len() as f64;
    let sum: f64 = registers.iter().map(|&r| 2f64.powi(-(r as i32))).sum();
    0.7213 / (1.0 + 1.079 / m) * m * m / sum
}

// A minimal harness so that the round-trip tests can drive any (variant x
// precision) sketch generically.
trait HllSerializable: Default {
    fn push(&mut self, input: &DataInput);
    fn estimate(&self) -> f64;
    fn to_bytes(&self) -> Result<Vec<u8>, WireEncodeError>;
    fn from_bytes(bytes: &[u8]) -> Result<Self, WireDecodeError<RmpDecodeError>>;
}

impl<V: HllWireVariant, R: HllRegisterStorage, H: SketchHasher + HashProfile> HllSerializable
    for HyperLogLogImpl<V, R, H>
{
    fn push(&mut self, input: &DataInput) {
        self.insert(input);
    }

    fn estimate(&self) -> f64 {
        register_estimate(self.registers_as_slice())
    }

    fn to_bytes(&self) -> Result<Vec<u8>, WireEncodeError> {
        self.serialize_to_bytes()
    }

    fn from_bytes(bytes: &[u8]) -> Result<Self, WireDecodeError<RmpDecodeError>> {
        Self::deserialize_from_bytes(bytes, read_metadata, read_plain)
    }
}

impl<R: HllRegisterStorage> HllSerializable for HyperLogLogHIPImpl<R> {
    fn push(&mut self, input: &DataInput) {
        let hash = DefaultXxHasher::hash64_seeded(CANONICAL_HASH_SEED, input);
        let p = R::PRECISION as u32;
        let (index, rank) = register_and_rank(hash, p, (1u64 << p) - 1);
        let old = self.registers.as_slice()[index];
        if rank <= old {
            return;
        }
        let mut kxq = [f64::from_bits(self.kxq0), f64::from_bits(self.kxq1)];
        let est = f64::from_bits(self.est) + R::NUM_REGISTERS as f64 / (kxq[0] + kxq[1]);
        kxq[(old >= 32) as usize] -= 2f64.powi(-(old as i32));
        kxq[(rank >= 32) as usize] += 2f64.powi(-(rank as i32));
        self.registers.set(index, rank);
        self.kxq0 = kxq[0].to_bits();
        self.kxq1 = kxq[1].to_bits();
        self.est = est.to_bits();
    }

    fn estimate(&self) -> f64 {
        f64::from_bits(self.est)
    }

    fn to_bytes(&self) -> Result<Vec<u8>, WireEncodeError> {
        self.serialize_to_bytes(write_hip)
    }

    fn from_bytes(bytes: &[u8]) -> Result<Self, WireDecodeError<RmpDecodeError>> {
        Self::deserialize_from_bytes(bytes, read_metadata, read_hip)
    }
}

fn assert_serialization_round_trip<S: HllSerializable>(name: &str) {
    let mut sketch = S::default();
    for value in 0..SERDE_SAMPLE {
        let input = DataInput::U64(value as u64);
        sketch.push(&input);
    }

    let encoded = sketch
        .to_bytes()
        .unwrap_or_else(|err| panic!("{name} serialize_to_bytes failed: {err:?}"));
    assert!(
        !encoded.is_empty(),
        "{name} serialization output should not be empty"
    );

    let decoded = S::from_bytes(&encoded)
        .unwrap_or_else(|err| panic!("{name} deserialize_from_bytes failed: {err:?}"));

    let reencoded = decoded
        .to_bytes()
        .unwrap_or_else(|err| panic!("{name} re-serialize failed: {err:?}"));

    assert_eq!(
        encoded, reencoded,
        "{name} serialized bytes differed after round trip"
    );

    let sketch_est = sketch.estimate();
    let decoded_est = decoded.estimate();
    assert!(
        (sketch_est - decoded_est).abs() <= ERROR_TOLERANCE * sketch_est.max(1.0),
        "{name} estimate mismatch after round trip: before {sketch_est}, after {decoded_est}"
    );
    assert!(
        (sketch_est - SERDE_SAMPLE as f64).abs() <= 0.05 * SERDE_SAMPLE as f64,
        "{name} estimate {sketch_est} is far from the {SERDE_SAMPLE} values seen"
    );
}

#[test]
fn hyperloglog_round_trip_serialization() {
    assert_serialization_round_trip::<HyperLogLog<Classic>>("HyperLogLog");
}

#[test]
fn hll_ertl_round_trip_serialization() {
    assert_serialization_round_trip::<HyperLogLog<ErtlMLE>>("HllErtl");
}

#[test]
fn hllds_round_trip_serialization() {
    assert_serialization_round_trip::<HyperLogLogHIP>("HllDs");
}

#[test]
fn hyperloglog_p12_round_trip_serialization() {
    assert_serialization_round_trip::<HyperLogLogP12<Classic>>("HyperLogLogP12");
}

#[test]
fn hll_ertl_p12_round_trip_serialization() {
    assert_serialization_round_trip::<HyperLogLogP12<ErtlMLE>>("HllErtlP12");
}

#[test]
fn hllds_p12_round_trip_serialization() {
    assert_serialization_round_trip::<HyperLogLogHIPP12>("HllDsP12");
}

#[test]
fn hll_envelope_structure_and_kind_id_guard() {
    // ASAPv1 envelope header for an Ertl-MLE sketch: magic, version 0x01,
    // kind_id_len 2, kind_id [0x01, 0x02].
    let mut sketch = HyperLogLog::<ErtlMLE>::default();
    for value in 0..1000 {
        sketch.insert(&DataInput::U64(value));
    }
    let bytes = sketch.serialize_to_bytes().expect("serialize");

    assert!(bytes.starts_with(&envelope::MAGIC));
    assert_eq!(bytes[6], envelope::VERSION);
    assert_eq!(bytes[7], 2, "kind_id_len");
    assert_eq!(&bytes[8..10], &HLL_KIND_ERTL_MLE);

    let decoded =
        HyperLogLog::<ErtlMLE>::deserialize_from_bytes(&bytes, read_metadata, read_plain)
            .expect("decode");
    assert_eq!(decoded.registers_as_slice(), sketch.registers_as_slice());

    // A Classic decoder must reject Ertl-MLE bytes (kind_id mismatch).
    let refused = HyperLogLog::<Classic>::deserialize_from_bytes(&bytes, read_metadata, read_plain);
    assert_eq!(
        refusal(refused.expect_err("another kind")),
        "HLL kind_id mismatch: stored [1, 2], expected [1, 1]"
    );
}

#[test]
fn hll_hip_round_trip_preserves_state() {
    let mut sketch = HyperLogLogHIP::default();
    for value in 0..1000 {
        sketch.push(&DataInput::U64(value));
    }
    let bytes = sketch.serialize_to_bytes(write_hip).expect("serialize");
    assert!(bytes.starts_with(&envelope::MAGIC));
    assert_eq!(&bytes[8..10], &HLL_KIND_HIP);

    let decoded =
        HyperLogLogHIP::deserialize_from_bytes(&bytes, read_metadata, read_hip).expect("decode");
    assert_eq!(decoded.registers.as_slice(), sketch.registers.as_slice());
    assert_eq!(decoded.kxq0, sketch.kxq0);
    assert_eq!(decoded.kxq1, sketch.kxq1);
    assert_eq!(decoded.est, sketch.est);
}

// A custom hasher: it hashes exactly like `DefaultXxHasher` (delegation) but
// declares a DIFFERENT `HashProfile` (distinct profile id and seed list).
// Serialization is derived from the profile, so an `AltHasher` sketch serializes
// truthfully and its metadata differs from the standard profile on the wire.
#[derive(Clone, Debug)]
struct AltHasher;

impl SketchHasher for AltHasher {
    fn hash64_seeded(d: usize, key: &DataInput) -> u64 {
        DefaultXxHasher::hash64_seeded(d, key)
    }

    fn hash128_seeded(d: usize, key: &DataInput) -> u128 {
        DefaultXxHasher::hash128_seeded(d, key)
    }
}

impl HashProfile for AltHasher {
    const PROFILE_ID: &'static str = "test.alt.profile.v1";
    const ALGORITHM: &'static str = "xxh3_64_128";
    const SEED_DERIVATION: &'static str = "seed_list_index_wrap";
    const INPUT_ENCODING: &'static str = "projectasap.input.v1";
    const CANONICAL_SEED_INDEX: u32 = CANONICAL_HASH_SEED as u32;
    const MATRIX_SEED_INDEX: u32 = 0;

    fn seed_list() -> Vec<u64> {
        // A deliberately different seed list so the wire bytes differ.
        vec![1, 2, 3, 4, 5]
    }
}

#[test]
fn hll_custom_hasher_profile_round_trips_and_is_self_describing() {
    // (a) An HLL built with a custom-profile hasher round-trips.
    let mut alt = HyperLogLogImpl::<ErtlMLE, HllBucketListP14, AltHasher>::default();
    let mut std = HyperLogLog::<ErtlMLE>::default();
    for v in 0..1000 {
        alt.insert(&DataInput::U64(v));
        std.insert(&DataInput::U64(v));
    }
    let alt_bytes = alt.serialize_to_bytes().expect("alt serialize");
    let decoded =
        HyperLogLogImpl::<ErtlMLE, HllBucketListP14, AltHasher>::deserialize_from_bytes(
            &alt_bytes,
            read_metadata,
            read_plain,
        )
        .expect("alt decode");
    assert_eq!(decoded.registers_as_slice(), alt.registers_as_slice());

    // (b) Its bytes differ from the DefaultXxHasher sketch's bytes: the metadata
    // is derived from the (different) profile, so it is not a lie.
    let std_bytes = std.serialize_to_bytes().expect("std serialize");
    assert_ne!(
        alt_bytes, std_bytes,
        "a custom profile must serialize different metadata than the standard profile"
    );

    // (c) Decoding AltHasher bytes into a DefaultXxHasher-typed HLL fails closed
    // (profile mismatch), never silently accepted.
    let refused =
        HyperLogLog::<ErtlMLE>::deserialize_from_bytes(&alt_bytes, read_metadata, read_plain);
    assert_eq!(
        refusal(refused.expect_err("standard-profile decode must reject custom-profile bytes")),
        "ASAPv1 HLL envelope: metadata mismatch"
    );
}

#[test]
fn hll_metadata_rejects_unknown_keys() {
    let std = standard_hll_metadata(14);
    let known = rmp_serde::to_vec_named(&WriteMeta { metadata: &std, bogus: false });
    assert!(read_metadata(&known.expect("encode")).expect("decode").same(&std));
    let extra = rmp_serde::to_vec_named(&WriteMeta { metadata: &std, bogus: true });
    let bytes = extra.expect("encode");
    assert!(
        read_metadata(&bytes).is_err(),
        "an unexpected metadata key must be rejected"
    );
    // The refusal comes out of the decoder.
    let payload = rmp_serde::to_vec(&(serde_bytes::Bytes::new(&[0u8; 16384]),)).expect("payload");
    let bytes = envelope::encode(&HLL_KIND_CLASSIC, &bytes, &payload);
    let refused = HyperLogLog::<Classic>::deserialize_from_bytes(&bytes, read_metadata, read_plain);
    assert!(matches!(refused, Err(WireDecodeError::Codec(_))));
}

#[test]
fn hll_precision_cross_rejection() {
    let mut p12 = HyperLogLogP12::<Classic>::default();
    for v in 0..100 {
        p12.insert(&DataInput::U64(v));
    }
    let bytes = p12.serialize_to_bytes().expect("serialize");
    assert!(
        HyperLogLog::<Classic>::deserialize_from_bytes(&bytes, read_metadata, read_plain).is_err(),
        "P12 bytes must be rejected by a P14 decoder"
    );
}

fn named_metadata(precision: u32) -> Vec<u8> {
    let metadata = standard_hll_metadata(precision);
    rmp_serde::to_vec_named(&WriteMeta { metadata: &metadata, bogus: false }).expect("meta")
}

/// Builds a well-framed envelope around a crafted register bin.
fn crafted_plain(kind_id: &[u8], precision: u32, registers: Vec<u8>) -> Vec<u8> {
    let payload = rmp_serde::to_vec(&(serde_bytes::ByteBuf::from(registers),)).expect("payload");
    envelope::encode(kind_id, &named_metadata(precision), &payload)
}

#[test]
fn hll_rejects_out_of_range_register_values() {
    let bin = |len: usize, rank: u8| {
        let mut registers = vec![0u8; len];
        registers[7] = rank;
        registers
    };
    let p14 = HllBucketListP14::NUM_REGISTERS;
    let p12 = HllBucketListP12::NUM_REGISTERS;

    // The bound itself decodes, one past it does not — for both estimators
    // sharing the plain payload, and at a second precision.
    let ok = crafted_plain(&HLL_KIND_CLASSIC, 14, bin(p14, P14_MAX));
    assert!(
        HyperLogLog::<Classic>::deserialize_from_bytes(&ok, read_metadata, read_plain).is_ok()
    );
    let ok = crafted_plain(&HLL_KIND_ERTL_MLE, 12, bin(p12, P12_MAX));
    assert!(
        HyperLogLogP12::<ErtlMLE>::deserialize_from_bytes(&ok, read_metadata, read_plain).is_ok()
    );

    let over = crafted_plain(&HLL_KIND_CLASSIC, 14, bin(p14, P14_MAX + 1));
    let problem = refusal(
        HyperLogLog::<Classic>::deserialize_from_bytes(&over, read_metadata, read_plain)
            .expect_err("a register past the maximum rank must be rejected"),
    );
    assert!(
        problem.contains("exceeds the maximum rank 51"),
        "got {problem}"
    );

    let over = crafted_plain(&HLL_KIND_ERTL_MLE, 14, bin(p14, u8::MAX));
    assert!(
        HyperLogLog::<ErtlMLE>::deserialize_from_bytes(&over, read_metadata, read_plain).is_err(),
        "a register past the Ertl histogram must be rejected"
    );

    let over = crafted_plain(&HLL_KIND_ERTL_MLE, 12, bin(p12, P12_MAX + 1));
    let problem = refusal(
        HyperLogLogP12::<ErtlMLE>::deserialize_from_bytes(&over, read_metadata, read_plain)
            .expect_err("a register past the maximum rank must be rejected"),
    );
    assert!(
        problem.contains("exceeds the maximum rank 53"),
        "got {problem}"
    );

    // The HIP payload carries the same bin and is held to the same bound.
    let payload = write_hip(HipPayload {
        registers: bin(p14, P14_MAX + 1),
        hip_kxq0: (p14 as f64).to_bits(),
        hip_kxq1: 0f64.to_bits(),
        hip_est: 0f64.to_bits(),
    })
    .expect("payload");
    let over = envelope::encode(&HLL_KIND_HIP, &named_metadata(14), &payload);
    let problem = refusal(
        HyperLogLogHIP::deserialize_from_bytes(&over, read_metadata, read_hip)
            .expect_err("a register past the maximum rank must be rejected"),
    );
    assert!(
        problem.contains("exceeds the maximum rank 51"),
        "got {problem}"
    );
}

#[test]
fn hll_refuses_to_serialize_an_out_of_range_register() {
    let mut classic = HyperLogLog::<Classic>::default();
    classic.apply_delta(HllDelta {
        pos: 7,
        value: P14_MAX,
    });
    assert!(
        classic.serialize_to_bytes().is_ok(),
        "the bound itself must still serialize"
    );
    classic.apply_delta(HllDelta {
        pos: 7,
        value: P14_MAX + 1,
    });
    let problem = complaint(
        classic
            .serialize_to_bytes()
            .expect_err("a register past the maximum rank must not serialize"),
    );
    assert!(
        problem.contains("exceeds the maximum rank 51"),
        "got {problem}"
    );
    assert_eq!(
        problem,
        "ASAPv1 HLL envelope: HLL register value 52 exceeds the maximum rank 51 at precision 14"
    );

    let mut ertl = HyperLogLog::<ErtlMLE>::default();
    ertl.apply_delta(HllDelta {
        pos: 7,
        value: u8::MAX,
    });
    assert!(
        ertl.serialize_to_bytes().is_err(),
        "a register past the Ertl histogram must not serialize"
    );

    let mut p12 = HyperLogLogP12::<ErtlMLE>::default();
    p12.apply_delta(HllDelta {
        pos: 7,
        value: (HllBucketListP12::REGISTER_BITS + 2) as u8,
    });
    let problem = complaint(
        p12.serialize_to_bytes()
            .expect_err("a register past the maximum rank must not serialize"),
    );
    assert!(
        problem.contains("exceeds the maximum rank 53"),
        "got {problem}"
    );

    // HIP carries the same bin and is held to the same bound.
    let mut hip = HyperLogLogHIP::default();
    hip.registers.set(7, P14_MAX + 1);
    let problem = complaint(
        hip.serialize_to_bytes(write_hip)
            .expect_err("a register past the maximum rank must not serialize"),
    );
    assert!(
        problem.contains("exceeds the maximum rank 51"),
        "got {problem}"
    );
}

#[test]
fn hll_hip_kind_id_rejected_by_classic() {
    let mut hip = HyperLogLogHIP::default();
    for v in 0..100 {
        hip.push(&DataInput::U64(v));
    }
    let bytes = hip.serialize_to_bytes(write_hip).expect("serialize");
    assert!(
        HyperLogLog::<Classic>::deserialize_from_bytes(&bytes, read_metadata, read_plain).is_err(),
        "HIP bytes must be rejected by a Classic decoder"
    );
}

#[test]
fn the_stored_form_is_an_array_with_one_bin() {
    let mut sketch = HyperLogLog::<Classic>::default();
    sketch.apply_delta(HllDelta { pos: 3, value: 9 });
    let bytes = sketch.serialize_to_bytes().expect("serialize");
    let (kind_id, metadata, payload) = envelope::split(&bytes).expect("framed");
    assert_eq!(kind_id, &HLL_KIND_CLASSIC);
    // One element, a bin with a two-byte length of 16384.
    assert_eq!(&payload[..8], &[0x91, 0xC5, 0x40, 0x00, 0, 0, 0, 9]);
    assert_eq!(payload.len(), 4 + 16384);
    assert_eq!(&payload[4..], sketch.registers_as_slice());
    // A map of eight entries, the version first.
    assert_eq!(metadata[0], 0x88);
    assert_eq!(&metadata[1..18], b"\xB0metadata_version");
    assert_eq!(metadata, named_metadata(14));
}

#[test]
fn a_bin_of_another_length_is_refused() {
    let bytes = crafted_plain(&HLL_KIND_CLASSIC, 14, vec![0u8; 4096]);
    let refused = HyperLogLog::<Classic>::deserialize_from_bytes(&bytes, read_metadata, read_plain);
    assert_eq!(
        refusal(refused.expect_err("length")),
        "HLL register length mismatch: stored 4096, expected 16384"
    );
    let stored = registers_from_bytes::<HllBucketListP12, RmpDecodeError>(&[3u8; 4096]);
    let stored = stored.expect("right length");
    assert!(stored.as_slice().iter().all(|&r| r == 3));
    assert_eq!(registers_to_bytes(&stored).expect("in range"), vec![3u8; 4096]);
}

#[test]
fn bytes_that_are_no_envelope_are_refused() {
    let mut bytes = HyperLogLog::<Classic>::default().serialize_to_bytes().expect("serialize");
    bytes[0] = 0;
    let refused = HyperLogLog::<Classic>::deserialize_from_bytes(&bytes, read_metadata, read_plain);
    assert_eq!(refusal(refused.expect_err("magic")), "ASAPv1 envelope: bad magic");
    // A payload that is no MessagePack array is the reader's to refuse.
    let bytes = envelope::encode(&HLL_KIND_CLASSIC, &named_metadata(14), &[0xC0]);
    let refused = HyperLogLog::<Classic>::deserialize_from_bytes(&bytes, read_metadata, read_plain);
    assert!(matches!(refused, Err(WireDecodeError::Codec(_))));
    let bytes = envelope::encode(&HLL_KIND_HIP, &named_metadata(14), &[0xC0]);
    let refused = HyperLogLogHIP::deserialize_from_bytes(&bytes, read_metadata, read_hip);
    assert!(matches!(refused, Err(WireDecodeError::Codec(_))));
}

#[test]
fn the_first_register_out_of_range_is_named() {
    let mut registers = vec![0u8; 16384];
    assert!(check_register_range::<HllBucketListP14>(&registers).is_ok());
    registers[9] = 60;
    registers[10] = 70;
    assert_eq!(
        check_register_range::<HllBucketListP14>(&registers),
        Err("HLL register value 60 exceeds the maximum rank 51 at precision 14".to_string())
    );
}

#[test]
fn every_field_of_the_metadata_counts() {
    let change: [fn(&mut HllMetadata); 8] = [
        |m| m.metadata_version = 2,
        |m| m.hash_profile_id.push('x'),
        |m| m.hash_algorithm.push('x'),
        |m| m.seed_derivation.push('x'),
        |m| m.input_encoding.push('x'),
        |m| m.seed_list[3] ^= 1,
        |m| m.canonical_seed_index += 1,
        |m| m.precision = 12,
    ];
    for change in change {
        let mut metadata = standard_hll_metadata(14);
        assert!(metadata.same(&standard_hll_metadata(14)));
        change(&mut metadata);
        assert!(!metadata.same(&standard_hll_metadata(14)));
        let checked = check_metadata::<DefaultXxHasher, RmpDecodeError>(Ok(metadata), 14);
        assert_eq!(
            refusal(checked.expect_err("changed")),
            "ASAPv1 HLL envelope: metadata mismatch"
        );
    }
    let metadata = standard_hll_metadata(14);
    assert!(check_metadata::<DefaultXxHasher, RmpDecodeError>(Ok(metadata), 14).is_ok());
}

#[test]
fn a_failing_writer_fails_the_encoding() {
    let failed = || Err(rmp_serde::encode::Error::Syntax("no".to_string()));
    let sealed = seal(&HLL_KIND_HIP, Ok(vec![1]), Ok(vec![2, 3])).expect("both wrote");
    assert_eq!(sealed, envelope::encode(&HLL_KIND_HIP, &[1], &[2, 3]));
    assert!(matches!(
        seal(&HLL_KIND_HIP, failed(), Ok(vec![])),
        Err(WireEncodeError::Codec(_))
    ));
    assert!(matches!(
        seal(&HLL_KIND_HIP, Ok(vec![]), failed()),
        Err(WireEncodeError::Codec(_))
    ));
    let hip = HyperLogLogHIP::default();
    assert!(matches!(
        hip.serialize_to_bytes(|_| failed()),
        Err(WireEncodeError::Codec(_))
    ));
}

#[test]
fn an_empty_hip_sketch_has_the_sum_of_its_registers() {
    let p14 = HyperLogLogHIP::default();
    assert_eq!(f64::from_bits(p14.kxq0), 16384.0);
    assert_eq!(f64::from_bits(p14.kxq1), 0.0);
    assert_eq!(f64::from_bits(p14.est), 0.0);
    assert_eq!(f64::from_bits(HyperLogLogHIPP12::default().kxq0), 4096.0);
}

#[test]
fn an_insert_records_the_rank_of_the_canonical_hash() {
    let mut sketch = HyperLogLogP12::<Classic>::default();
    let mut expected = vec![0u8; 4096];
    for v in 0..5_000u64 {
        let hash = DefaultXxHasher::hash64_seeded(5, &DataInput::U64(v));
        let index = (hash >> 52) as usize;
        let rank = ((hash << 12) | 0xFFF).leading_zeros() as u8 + 1;
        expected[index] = expected[index].max(rank);
        sketch.insert(&DataInput::U64(v));
    }
    assert_eq!(sketch.registers_as_slice(), expected.as_slice());
    // Seen again, nothing changes; a smaller rank lowers nothing.
    sketch.insert(&DataInput::U64(17));
    sketch.apply_delta(HllDelta { pos: 0, value: 0 });
    assert_eq!(sketch.registers_as_slice(), expected.as_slice());
    assert!(sketch.serialize_to_bytes().is_ok());
}

#[test]
fn the_constants_of_the_stored_form() {
    assert_eq!(Classic::WIRE_KIND_ID, [1, 1]);
    assert_eq!(ErtlMLE::WIRE_KIND_ID, [1, 2]);
    assert_eq!(HLL_KIND_HIP, [1, 3]);
    assert_eq!(
        METADATA_KEYS,
        [
            "metadata_version",
            "hash_profile_id",
            "hash_algorithm",
            "seed_derivation",
            "input_encoding",
            "seed_list",
            "canonical_seed_index",
            "precision",
        ]
    );
    assert_eq!(
        (
            HllBucketListP12::PRECISION,
            HllBucketListP12::REGISTER_BITS,
            HllBucketListP12::NUM_REGISTERS
        ),
        (12, 52, 4096)
    );
    assert_eq!(
        (
            HllBucketListP14::PRECISION,
            HllBucketListP14::REGISTER_BITS,
            HllBucketListP14::NUM_REGISTERS
        ),
        (14, 50, 16384)
    );
    let metadata = standard_hll_metadata(12);
    assert_eq!(metadata.metadata_version, 1);
    assert_eq!(metadata.hash_profile_id, DefaultXxHasher::PROFILE_ID);
    assert_eq!(metadata.hash_algorithm, "xxh3_64_128");
    assert_eq!(metadata.seed_derivation, "seed_list_index_wrap");
    assert_eq!(metadata.input_encoding, "projectasap.input.v1");
    assert_eq!(metadata.seed_list, DefaultXxHasher::seed_list());
    assert_eq!(metadata.seed_list.len(), 20);
    assert_eq!(metadata.canonical_seed_index as usize, CANONICAL_HASH_SEED);
    assert_eq!(metadata.precision, 12);
}

#[test]
fn a_hip_sketch_is_stored_the_same_again() {
    let mut hip = HyperLogLogHIPP12::default();
    hip.registers.set(7, 30);
    hip.est = 1.5f64.to_bits();
    let bytes = hip.serialize_to_bytes(write_hip).expect("serialize");
    let back =
        HyperLogLogHIPP12::deserialize_from_bytes(&bytes, read_metadata, read_hip).expect("decode");
    assert_eq!(back.registers.as_slice(), hip.registers.as_slice());
    assert_eq!((back.kxq0, back.kxq1, back.est), (hip.kxq0, hip.kxq1, hip.est));
    assert_eq!(back.serialize_to_bytes(write_hip).expect("serialize"), bytes);
}

#[test]
fn an_array_payload_is_read_and_any_other_is_handed_on() {
    let refuse = |_: &[u8]| -> Result<Vec<u8>, RmpDecodeError> {
        Err(RmpDecodeError::Uncategorized("handed on".to_string()))
    };
    for len in [0usize, 1, 255, 256, 65_535, 65_536] {
        let registers: Vec<u8> = (0..len).map(|i| i as u8).collect();
        let payload =
            rmp_serde::to_vec(&(serde_bytes::Bytes::new(&registers),)).expect("encode");
        assert_eq!(read_plain_payload(&payload, refuse).expect("array"), registers);
    }
    // Arrays that hold no bin, or more than one, are refused here.
    for payload in [&[0x90u8][..], &[0x91], &[0x91, 0x07], &[0x92, 0xC4, 0, 0xC4, 0], &[0xDC, 0]] {
        let refused = read_plain_payload(payload, refuse).expect_err("refused");
        assert!(!matches!(refused, RmpDecodeError::Uncategorized(_)));
    }
    for payload in [&[][..], &[0x80u8], &[0xC4, 0], &[0x07], &[0xDE, 0, 0]] {
        assert!(matches!(
            read_plain_payload(payload, refuse),
            Err(RmpDecodeError::Uncategorized(_))
        ));
    }
}

#[test]
fn a_payload_that_is_a_map_is_read_too() {
    let mut registers = vec![0u8; 4096];
    registers[5] = 7;
    let map = BTreeMap::from([("registers", serde_bytes::Bytes::new(&registers))]);
    let payload = rmp_serde::to_vec(&map).expect("encode");
    let bytes = envelope::encode(&HLL_KIND_CLASSIC, &named_metadata(12), &payload);
    let back =
        HyperLogLogP12::<Classic>::deserialize_from_bytes(&bytes, read_metadata, read_plain)
            .expect("decode");
    assert_eq!(back.registers_as_slice(), registers.as_slice());
}
