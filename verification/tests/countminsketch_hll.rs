use asap_sketchlib::common::structures::vector3d::Vector3DError;
use asap_sketchlib::sketches::countminsketch_hll::{
    CountMinHllError, SketchDecodeError, StoredSketch, StoredSketchError, DEFAULT_COL_NUM,
    DEFAULT_PRECISION, DEFAULT_ROW_NUM,
};
use asap_sketchlib::sketches::hll::rank::register_and_rank;
use asap_sketchlib::{
    CountMinHll, DataInput, DefaultXxHasher, MatrixFastHash, SketchHasher, Vector3D,
};
use rmp_serde::decode::Error as RmpDecodeError;

fn key(s: &'static str) -> DataInput<'static> {
    DataInput::Str(s)
}

fn val(n: u64) -> DataInput<'static> {
    DataInput::U64(n)
}

/// The classic HyperLogLog estimate of a register array, with linear counting
/// for small counts.
fn classic_estimate(registers: &[u8]) -> f64 {
    let m = registers.len() as f64;
    let alpha = match registers.len() {
        16 => 0.673,
        32 => 0.697,
        64 => 0.709,
        _ => 0.7213 / (1.0 + 1.079 / m),
    };
    let sum: f64 = registers.iter().map(|&r| 2f64.powi(-(r as i32))).sum();
    let zeros = registers.iter().filter(|&&r| r == 0).count();
    let raw = alpha * m * m / sum;
    if raw <= 2.5 * m && zeros > 0 {
        m * (m / zeros as f64).ln()
    } else {
        raw
    }
}

/// The distinct values seen for a key.
fn estimate(sk: &CountMinHll, key: &DataInput) -> f64 {
    sk.estimate_with(key, |registers: &[u8], _row: usize| classic_estimate(registers))
}

/// The bytes of a sketch.
fn store(sk: &CountMinHll) -> Vec<u8> {
    sk.serialize_to_bytes(|s: StoredSketch| {
        rmp_serde::to_vec(&(s.data, s.rows, s.cols, s.depth, s.precision))
    })
    .expect("serialize")
}

fn read_stored(bytes: &[u8]) -> Result<StoredSketch, RmpDecodeError> {
    let (data, rows, cols, depth, precision): (Vec<u8>, usize, usize, usize, u32) =
        rmp_serde::from_slice(bytes)?;
    Ok(StoredSketch { data, rows, cols, depth, precision })
}

/// The sketch of bytes.
fn load(bytes: &[u8]) -> Result<CountMinHll, SketchDecodeError<RmpDecodeError>> {
    CountMinHll::deserialize_from_bytes(bytes, read_stored)
}

#[test]
fn default_initializes_expected_dimensions() {
    let sk = CountMinHll::default();
    assert_eq!(sk.rows(), DEFAULT_ROW_NUM);
    assert_eq!(sk.cols(), DEFAULT_COL_NUM);
    assert_eq!(sk.precision(), DEFAULT_PRECISION);
    assert_eq!(sk.registers_per_bucket(), 1 << DEFAULT_PRECISION);
    assert!(sk.as_storage().as_slice().iter().all(|&r| r == 0));
    assert_eq!((sk.rows(), sk.cols(), sk.precision()), (4, 64, 8));
}

#[test]
fn with_dimensions_uses_custom_sizes() {
    let sk = CountMinHll::<DefaultXxHasher>::with_dimensions(3, 16, 6);
    assert_eq!(sk.rows(), 3);
    assert_eq!(sk.cols(), 16);
    assert_eq!(sk.precision(), 6);
    assert_eq!(sk.registers_per_bucket(), 64);
    assert_eq!(sk.as_storage().len(), 3 * 16 * 64);
}

#[test]
fn every_column_is_reachable_and_no_row_repeats_another() {
    // Power-of-two cols means the column index is a clean slice of the packed
    // hash, so rows are independent and the load is flat. Check both: every
    // column gets hit, and two rows disagree often.
    let sk = CountMinHll::<DefaultXxHasher>::with_dimensions(4, 16, 4);
    let hash_for = |i: u64| DefaultXxHasher::hash128_seeded(0, &DataInput::U64(i));
    let mut seen = [0usize; 16];
    let mut rows_disagree = 0usize;
    for i in 0..4_000u64 {
        let h = hash_for(i);
        let c0 = MatrixFastHash::col_for_row(&h, 0, sk.cols());
        let c1 = MatrixFastHash::col_for_row(&h, 1, sk.cols());
        seen[c0] += 1;
        if c0 != c1 {
            rows_disagree += 1;
        }
    }
    assert!(
        seen.iter().all(|&n| n > 0),
        "every column must be reachable: {seen:?}"
    );
    // A flat 16-way split of 4000 keys puts ~250 in each column; allow a
    // generous band, but nothing like the 2x a folded modulo would give.
    assert!(
        seen.iter().all(|&n| (150..400).contains(&n)),
        "column load is lopsided: {seen:?}"
    );
    // Independent rows collide on 1/16 of keys; anything near 4000 would mean
    // row 1 is a copy of row 0.
    assert!(
        rows_disagree > 3_000,
        "rows 0 and 1 agree far too often ({rows_disagree} of 4000 differ)"
    );
}

#[test]
fn same_distinct_value_repeated_counts_as_one() {
    let mut sk = CountMinHll::<DefaultXxHasher>::default();
    let k = key("user_A");
    let v = val(42);
    for _ in 0..500 {
        sk.insert(&k, &v);
    }
    let est = estimate(&sk, &k);
    assert!(est < 3.0, "expected near-1 distinct estimate, got {est}");
}

#[test]
fn distinct_values_accumulate_per_key() {
    let mut sk = CountMinHll::<DefaultXxHasher>::with_dimensions(4, 64, 8);
    let k = key("user_A");
    let n = 500u64;
    for i in 0..n {
        sk.insert(&k, &val(i));
    }
    let est = estimate(&sk, &k);
    let rel_err = (est - n as f64).abs() / n as f64;
    assert!(
        rel_err < 0.25,
        "estimate {est} too far from {n} (rel_err {rel_err})"
    );
}

#[test]
fn independent_keys_do_not_inflate_each_other() {
    let mut sk = CountMinHll::<DefaultXxHasher>::with_dimensions(4, 64, 8);
    // Insert 200 distinct values for key_A and 0 for key_B.
    let ka = key("key_A");
    let kb = key("key_B");
    for i in 0..200u64 {
        sk.insert(&ka, &val(i));
    }
    let est_b = estimate(&sk, &kb);
    // key_B shares a bucket with key_A only by collision; with 64 cols the
    // collision probability is low, and taking the minimum across rows discards
    // any row where such a collision happened.
    assert!(
        est_b < 50.0,
        "key_B estimate {est_b} should be near zero (no inserts for key_B)"
    );
}

#[test]
fn merge_unions_distinct_values_per_key() {
    let mut a = CountMinHll::<DefaultXxHasher>::default();
    let mut b = CountMinHll::<DefaultXxHasher>::default();
    let k = key("user_A");
    for i in 0..1000u64 {
        a.insert(&k, &val(i));
    }
    let est_a = estimate(&a, &k);
    for i in 1000..2000u64 {
        b.insert(&k, &val(i));
    }
    a.merge(&b).expect("same shape merges");
    let merged = estimate(&a, &k);
    assert!(
        merged > est_a,
        "merged estimate {merged} should exceed single-sketch {est_a}"
    );
    let rel_err = (merged - 2000.0).abs() / 2000.0;
    assert!(
        rel_err < 0.25,
        "merged estimate {merged} too far from 2000 (rel_err {rel_err})"
    );
}

#[test]
fn merge_rejects_a_different_shape_and_leaves_the_target_alone() {
    let mut a = CountMinHll::<DefaultXxHasher>::with_dimensions(4, 32, 8);
    let b = CountMinHll::<DefaultXxHasher>::with_dimensions(4, 64, 8);
    let k = key("user_A");
    for i in 0..300u64 {
        a.insert(&k, &val(i));
    }
    let before = a.as_storage().as_slice().to_vec();
    let err = a.merge(&b).expect_err("mismatched cols must not merge");
    assert!(err.contains("different shape"), "unexpected error: {err}");
    assert_eq!(
        err,
        "cannot merge sketches of different shape: \
         (rows, cols, precision) is (4, 32, 8) against (4, 64, 8)"
    );
    assert_eq!(
        a.as_storage().as_slice(),
        before.as_slice(),
        "a rejected merge must not touch the target"
    );
}

#[test]
fn serialize_round_trip_preserves_estimates() {
    let mut sk = CountMinHll::<DefaultXxHasher>::with_dimensions(4, 32, 8);
    let k = key("user_A");
    for i in 0..1500u64 {
        sk.insert(&k, &val(i));
    }
    let bytes = store(&sk);
    let restored = load(&bytes).expect("decode");

    assert_eq!(sk.rows(), restored.rows());
    assert_eq!(sk.cols(), restored.cols());
    assert_eq!(sk.precision(), restored.precision());
    assert_eq!(sk.as_storage().as_slice(), restored.as_storage().as_slice());
    assert_eq!(estimate(&sk, &k), estimate(&restored, &k));
}

#[test]
fn insert_many_matches_sequential_inserts() {
    let k = key("user_A");
    let vals: Vec<DataInput<'static>> = (0..500u64).map(val).collect();
    let pairs: Vec<(&DataInput, &DataInput)> = vals.iter().map(|v| (&k, v)).collect();

    let mut sk_seq = CountMinHll::<DefaultXxHasher>::with_dimensions(4, 32, 8);
    for v in &vals {
        sk_seq.insert(&k, v);
    }

    let mut sk_batch = CountMinHll::<DefaultXxHasher>::with_dimensions(4, 32, 8);
    sk_batch.insert_many(&pairs);

    assert_eq!(
        sk_seq.as_storage().as_slice(),
        sk_batch.as_storage().as_slice(),
        "insert_many must produce identical state to sequential inserts"
    );
}

#[test]
fn max_rows_within_bit_capacity_is_accepted() {
    // cols=64 → column bits=6 → 21x6=126 <= 128
    let sk = CountMinHll::<DefaultXxHasher>::with_dimensions(21, 64, 6);
    assert_eq!(sk.rows(), 21);
}

#[test]
fn deserialize_rejects_depth_mismatch() {
    // Build a valid sketch, then tamper with the backing storage to create a
    // depth that doesn't match 2^precision.
    let sk = CountMinHll::<DefaultXxHasher>::with_dimensions(4, 32, 8);
    let bytes = store(&sk);
    // Deserializing the untampered bytes must succeed.
    load(&bytes).expect("decode");
    // Depth-mismatch detection is validated by the invariant check below.
    let expected_depth = 1usize << sk.precision();
    assert_eq!(sk.registers_per_bucket(), expected_depth);
    // And a tampered precision is refused.
    let buckets = sk.as_storage().clone();
    let err = CountMinHll::<DefaultXxHasher>::from_parts(buckets, 7).expect_err("depth");
    assert_eq!(
        err,
        CountMinHllError::DepthMismatch { depth: 256, precision: 7, expected: 128 }
    );
    assert_eq!(
        err.message(),
        "buckets depth 256 does not match 2^precision 7 = 128"
    );
}

#[test]
fn deserialize_recomputes_derived_fields() {
    let sk = CountMinHll::<DefaultXxHasher>::with_dimensions(4, 32, 8);
    let bytes = store(&sk);
    let restored = load(&bytes).expect("decode");
    assert_eq!(restored.p_mask(), (1u64 << 8) - 1);
    // Column routing is owned by the storage and rebuilt from `cols`.
    assert_eq!(restored.as_storage().get_mask_bits(), 5); // 32.ilog2()
}

/// An unfilled precision, width or number of rows is refused in turn.
fn refused(rows: usize, cols: usize, depth: usize, precision: u32) -> CountMinHllError {
    let buckets = Vector3D::from_parts(vec![0u8; rows * cols * depth], rows, cols, depth)
        .expect("consistent");
    CountMinHll::<DefaultXxHasher>::from_parts(buckets, precision).expect_err("refused")
}

#[test]
fn parts_that_make_no_sketch_are_refused() {
    for precision in [0u32, 19, u32::MAX] {
        let err = refused(1, 1, 1, precision);
        assert_eq!(err, CountMinHllError::PrecisionOutOfRange { precision });
        assert_eq!(
            err.message(),
            format!("precision {precision} out of range 1..=18")
        );
    }
    let err = refused(2, 17, 2, 1);
    assert_eq!(err, CountMinHllError::ColsNotPowerOfTwo { cols: 17 });
    assert_eq!(err.message(), "cols (17) must be a power of two");
    let err = refused(22, 64, 2, 1);
    assert_eq!(
        err,
        CountMinHllError::TooManyBits { rows: 22, col_bits: 6, required: 132 }
    );
    assert_eq!(
        err.message(),
        "rows (22) × column bits (6) = 132 exceeds the 128-bit packed column hash; \
         reduce rows or cols"
    );
}

#[test]
fn register_and_rank_split_the_hash() {
    let sk = CountMinHll::<DefaultXxHasher>::with_dimensions(1, 1, 8);
    // The top eight bits select the register, the first set bit behind them
    // gives the rank.
    assert_eq!(sk.register_and_rank_from_hash(0xAB80_0000_0000_0000), (0xAB, 1));
    assert_eq!(sk.register_and_rank_from_hash(0xAB00_0000_0000_0001), (0xAB, 56));
    assert_eq!(sk.register_and_rank_from_hash(0xFF00_0000_0000_0000), (0xFF, 57));
    assert_eq!(sk.register_and_rank_from_hash(0), (0, 57));
    assert_eq!(sk.register_and_rank_from_hash(u64::MAX), (0xFF, 1));
    for precision in 1..=18u32 {
        for shift in 0..64u32 {
            let hash = 0xDEAD_BEEF_CAFE_F00Du64 >> shift;
            let mask = (1u64 << precision) - 1;
            let (index, rank) = register_and_rank(hash, precision, mask);
            assert_eq!(index as u64, hash >> (64 - precision));
            let rest = hash << precision;
            let expected = if rest == 0 {
                64 - precision + 1
            } else {
                rest.leading_zeros() + 1
            };
            assert_eq!(rank as u32, expected);
        }
    }
}

#[test]
fn a_bucket_without_collisions_is_a_plain_hyperloglog() {
    let rows = 3;
    let mut sk = CountMinHll::<DefaultXxHasher>::with_dimensions(rows, 16, 6);
    let k = key("alone");
    let mut expected = vec![0u8; 64];
    for i in 0..200u64 {
        sk.insert(&k, &val(i));
        let hash = DefaultXxHasher::hash64_seeded(rows, &val(i));
        let (index, rank) = sk.register_and_rank_from_hash(hash);
        expected[index] = expected[index].max(rank);
    }
    let h = DefaultXxHasher::hash128_seeded(0, &k);
    for row in 0..rows {
        for col in 0..16 {
            let bucket = sk.as_storage().bucket_slice(row, col);
            if col == h.col_for_row(row, 16) {
                assert_eq!(bucket, expected.as_slice());
            } else {
                assert!(bucket.iter().all(|&r| r == 0));
            }
        }
    }
    // A second key can only raise registers.
    let before = sk.as_storage().as_slice().to_vec();
    for i in 0..200u64 {
        sk.insert(&key("other"), &val(1_000 + i));
    }
    let after = sk.as_storage().as_slice();
    assert!(before.iter().zip(after).all(|(b, a)| b <= a));
}

#[test]
fn inserts_commute_and_repeat_freely() {
    let mut ab = CountMinHll::<DefaultXxHasher>::with_dimensions(4, 8, 4);
    let mut ba = ab.clone();
    for i in 0..100 {
        ab.insert(&key("a"), &val(i));
    }
    for i in 0..100 {
        ab.insert(&key("b"), &val(i));
    }
    for i in (0..100).rev() {
        ba.insert(&key("b"), &val(i));
        ba.insert(&key("a"), &val(i));
        ba.insert(&key("b"), &val(i));
    }
    assert_eq!(ab.as_storage().as_slice(), ba.as_storage().as_slice());
}

#[test]
fn a_merge_is_the_union_of_the_streams() {
    let empty = CountMinHll::<DefaultXxHasher>::with_dimensions(4, 8, 5);
    let mut a = empty.clone();
    let mut b = empty.clone();
    let mut both = empty.clone();
    for i in 0..100 {
        a.insert(&key("a"), &val(i));
        both.insert(&key("a"), &val(i));
    }
    for i in 50..150 {
        b.insert(&key("b"), &val(i));
        both.insert(&key("b"), &val(i));
    }
    let mut ab = a.clone();
    ab.merge(&b).expect("one shape");
    let mut ba = b.clone();
    ba.merge(&a).expect("one shape");
    assert_eq!(ab.as_storage().as_slice(), both.as_storage().as_slice());
    assert_eq!(ba.as_storage().as_slice(), both.as_storage().as_slice());
    let again = ab.clone();
    ab.merge(&again).expect("one shape");
    assert_eq!(ab.as_storage().as_slice(), both.as_storage().as_slice());
}

#[test]
fn a_merge_checks_rows_and_precision_too() {
    let mut a = CountMinHll::<DefaultXxHasher>::with_dimensions(4, 32, 8);
    let rows = CountMinHll::<DefaultXxHasher>::with_dimensions(3, 32, 8);
    let precision = CountMinHll::<DefaultXxHasher>::with_dimensions(4, 32, 7);
    assert!(a.merge(&rows).expect_err("rows").ends_with("against (3, 32, 8)"));
    assert!(a
        .merge(&precision)
        .expect_err("precision")
        .ends_with("against (4, 32, 7)"));
}

#[test]
fn storage_can_be_written_through() {
    let mut sk = CountMinHll::<DefaultXxHasher>::with_dimensions(1, 2, 1);
    sk.as_storage_mut().as_mut_slice()[3] = 9;
    assert_eq!(sk.as_storage().as_slice(), &[0, 0, 0, 9]);
}

#[test]
fn hashes_depend_on_seed_index_and_encoding() {
    let a = DataInput::U64(0x0807_0605_0403_0201);
    let same_bytes = DataInput::Str("\u{1}\u{2}\u{3}\u{4}\u{5}\u{6}\u{7}\u{8}");
    assert_eq!(a.to_bytes(), vec![1, 2, 3, 4, 5, 6, 7, 8]);
    assert_eq!(same_bytes.to_bytes(), vec![1, 2, 3, 4, 5, 6, 7, 8]);
    for d in [0usize, 3, 19] {
        let seed = asap_sketchlib::common::hash::SEED_LIST[d];
        let h64 = DefaultXxHasher::hash64_seeded(d, &a);
        let h128 = DefaultXxHasher::hash128_seeded(d, &a);
        assert_eq!(
            h64,
            twox_hash::XxHash3_64::oneshot_with_seed(seed, &[1, 2, 3, 4, 5, 6, 7, 8])
        );
        assert_eq!(
            h128,
            twox_hash::XxHash3_128::oneshot_with_seed(seed, &[1, 2, 3, 4, 5, 6, 7, 8])
        );
        assert_eq!(h64, DefaultXxHasher::hash64_seeded(d, &same_bytes));
        // Seed indices are counted round.
        assert_eq!(h64, DefaultXxHasher::hash64_seeded(d + 20, &a));
    }
    assert_ne!(
        DefaultXxHasher::hash64_seeded(0, &a),
        DefaultXxHasher::hash64_seeded(1, &a)
    );
}

#[test]
fn a_stored_sketch_is_read_back_whole() {
    let mut sk = CountMinHll::<DefaultXxHasher>::with_dimensions(3, 16, 5);
    for n in 0..400 {
        sk.insert(&key(["a", "b", "c"][n as usize % 3]), &val(n));
    }
    let back = load(&store(&sk)).expect("decode");
    assert_eq!((back.rows(), back.cols(), back.precision()), (3, 16, 5));
    assert_eq!(back.as_storage().as_slice(), sk.as_storage().as_slice());
    assert_eq!(back.as_storage().get_mask_bits(), sk.as_storage().get_mask_bits());
    for name in ["a", "b", "c", "d"] {
        assert_eq!(estimate(&back, &key(name)), estimate(&sk, &key(name)));
    }
    assert_eq!(store(&back), store(&sk));
}

#[test]
fn what_is_wrong_with_stored_parts_is_named() {
    let stored = |len: usize, rows, cols, depth, precision| StoredSketch {
        data: vec![0; len],
        rows,
        cols,
        depth,
        precision,
    };
    let refused = |stored| CountMinHll::<DefaultXxHasher>::from_stored(stored).expect_err("refused");
    let err = refused(stored(0, 0, 4, 2, 1));
    assert_eq!(err, StoredSketchError::Storage(Vector3DError::ZeroDimension));
    assert_eq!(err.message(), "Vector3D: rows, cols and depth must all be non-zero");
    assert_eq!(
        refused(stored(0, usize::MAX, 4, 2, 1)),
        StoredSketchError::Storage(Vector3DError::Overflow)
    );
    assert_eq!(
        refused(stored(7, 1, 4, 2, 1)),
        StoredSketchError::Storage(Vector3DError::LengthMismatch { len: 7, expected: 8 })
    );
    let err = refused(stored(8, 1, 4, 2, 2));
    assert_eq!(
        err,
        StoredSketchError::Sketch(CountMinHllError::DepthMismatch {
            depth: 2,
            precision: 2,
            expected: 4
        })
    );
    assert_eq!(err.message(), "buckets depth 2 does not match 2^precision 2 = 4");
    assert!(CountMinHll::<DefaultXxHasher>::from_stored(stored(8, 1, 4, 2, 1)).is_ok());
    assert!(matches!(load(&[0xC1]), Err(SketchDecodeError::Codec(_))));
    let bytes = rmp_serde::to_vec(&(vec![0u8; 8], 1usize, 4usize, 2usize, 9u32)).expect("encode");
    assert!(matches!(
        load(&bytes),
        Err(SketchDecodeError::Stored(StoredSketchError::Sketch(
            CountMinHllError::DepthMismatch { .. }
        )))
    ));
}

#[test]
fn a_sketch_is_intact_until_its_storage_changes_shape() {
    let mut sk = CountMinHll::<DefaultXxHasher>::with_dimensions(2, 4, 3);
    assert!(sk.is_intact());
    sk.as_storage_mut().as_mut_slice()[0] = 7;
    assert!(sk.is_intact());
    // Of the same shape, but with nothing in it yet.
    *sk.as_storage_mut() = Vector3D::init(2, 4, 8);
    assert!(!sk.is_intact());
    sk.as_storage_mut().fill(0);
    assert!(sk.is_intact());
    for (rows, cols, depth) in [(2, 4, 4), (2, 5, 8), (65, 4, 8)] {
        let mut other = Vector3D::init(rows, cols, depth);
        other.fill(0);
        assert!(other.is_intact());
        *sk.as_storage_mut() = other;
        assert!(!sk.is_intact());
    }
}
