use asap_sketchlib::common::structures::matrix_storage::{
    fold_to_col, is_power_of_two, mask_bits_for_cols,
};
use asap_sketchlib::{MatrixFastHash, MatrixHashType, Vector3D, Vector3DError};

#[test]
fn fill_initializes_every_cell() {
    let mut v: Vector3D<u8> = Vector3D::init(2, 4, 3);
    assert_eq!(v.len(), 0, "init leaves storage empty until fill");
    assert!(v.is_empty());
    v.fill(0);
    assert_eq!(v.len(), 2 * 4 * 3);
    assert!(!v.is_empty());
    assert!(v.as_slice().iter().all(|&x| x == 0));
    assert_eq!((v.rows(), v.cols(), v.depth()), (2, 4, 3));
}

#[test]
fn buckets_tile_the_storage_without_gaps_or_overlap() {
    let mut v: Vector3D<u16> = Vector3D::init(3, 5, 4);
    v.fill(0);
    // Stamp each bucket with a unique marker through the bucket accessor,
    // then verify the flat storage is exactly the expected tiling.
    let depth = v.depth();
    for (index, bucket) in v.as_mut_slice().chunks_exact_mut(depth).enumerate() {
        for slot in bucket.iter_mut() {
            *slot = index as u16 + 1;
        }
    }
    let expected: Vec<u16> = (1..=15u16).flat_map(|m| std::iter::repeat_n(m, 4)).collect();
    assert_eq!(v.as_slice(), expected.as_slice());
    // First and last buckets land where the index arithmetic says.
    assert_eq!(v.bucket_slice(0, 0), &[1, 1, 1, 1]);
    assert_eq!(v.bucket_slice(2, 4), &[15, 15, 15, 15]);
    // A sweep over chunks_exact sees every bucket exactly once.
    assert_eq!(v.as_slice().chunks_exact(v.depth()).count(), 15);
}

#[test]
fn depth_one_degenerates_to_a_plain_matrix() {
    let mut v: Vector3D<i32> = Vector3D::init(2, 3, 1);
    v.fill(0);
    for (index, slot) in v.as_mut_slice().iter_mut().enumerate() {
        *slot = index as i32;
    }
    // With depth 1 the flat storage is exactly the row-major matrix.
    assert_eq!(v.as_slice(), &[0, 1, 2, 3, 4, 5]);
    assert_eq!(v.len(), v.rows() * v.cols());
}

#[test]
fn mask_bits_cover_the_column_index() {
    assert_eq!(Vector3D::<u8>::init(1, 64, 1).get_mask_bits(), 6);
    assert_eq!(Vector3D::<u8>::init(1, 1, 1).get_mask_bits(), 0);
    // Non-power-of-two widths round up to the next bit.
    assert_eq!(Vector3D::<u8>::init(1, 17, 1).get_mask_bits(), 5);
    assert_eq!(Vector3D::<u8>::init(1, 4096, 1).get_mask_bits(), 12);
}

#[test]
fn fast_insert_and_query_min_agree_on_the_same_columns() {
    let mut v: Vector3D<u32> = Vector3D::init(3, 64, 2);
    v.fill(0);
    let hash = MatrixHashType::Packed64(0x0123_4567_89AB_CDEF);
    // Write a per-row marker into the selected bucket of every row.
    v.fast_insert(
        |bucket: &mut [u32], &delta: &u32, row: usize| {
            bucket[0] += delta;
            bucket[1] = row as u32;
        },
        7u32,
        &hash,
    );
    // The minimum over the same hash sees exactly what was written.
    let min_first: u32 = v.fast_query_min(&hash, |bucket: &[u32], _: usize| bucket[0]);
    assert_eq!(min_first, 7);
    let min_row: u32 = v.fast_query_min(&hash, |bucket: &[u32], _: usize| bucket[1]);
    assert_eq!(min_row, 0, "row 0's marker is the smallest");
    // Exactly one bucket per row was touched.
    let touched = v.as_slice().chunks_exact(2).filter(|b| b[0] == 7).count();
    assert_eq!(touched, 3);
}

/// The stored fields of a container, in order.
fn store(v: &Vector3D<u8>) -> Vec<u8> {
    rmp_serde::to_vec(&(v.as_slice(), v.rows(), v.cols(), v.depth())).expect("serialize")
}

/// Reads the stored fields, and rebuilds a container from them.
fn load(bytes: &[u8]) -> Result<Vector3D<u8>, Vector3DError> {
    let (data, rows, cols, depth): (Vec<u8>, usize, usize, usize) =
        rmp_serde::from_slice(bytes).expect("deserialize");
    Vector3D::from_parts(data, rows, cols, depth)
}

#[test]
fn serde_round_trip_preserves_shape_and_contents() {
    let mut v: Vector3D<u8> = Vector3D::init(2, 8, 3);
    v.fill(0);
    let at = (8 + 5) * 3 + 2; // bucket (1, 5), slot 2
    v.as_mut_slice()[at] = 200;
    let bytes = store(&v);
    let back: Vector3D<u8> = load(&bytes).expect("deserialize");
    assert_eq!((back.rows(), back.cols(), back.depth()), (2, 8, 3));
    assert_eq!(back.as_slice(), v.as_slice());
    // Derived routing state is recomputed, not carried on the wire.
    assert_eq!(back.get_mask_bits(), v.get_mask_bits());
}

#[test]
fn deserialize_rejects_a_data_length_that_contradicts_the_dimensions() {
    // 2 * 8 * 3 = 48 elements are required; supply 47.
    let bytes = rmp_serde::to_vec(&(vec![0u8; 47], 2usize, 8usize, 3usize)).expect("serialize");
    let err = load(&bytes).expect_err("a short payload must be rejected");
    assert_eq!(err, Vector3DError::LengthMismatch { len: 47, expected: 48 });
    let err = err.message();
    assert!(
        err.contains("does not match rows * cols * depth"),
        "unexpected error: {err}"
    );
    assert_eq!(
        err,
        "Vector3D: data length 47 does not match rows * cols * depth = 48"
    );
}

#[test]
fn deserialize_rejects_zero_dimensions() {
    let data: Vec<u8> = Vec::new();
    let bytes = rmp_serde::to_vec(&(data, 2usize, 0usize, 3usize)).expect("serialize");
    let err = load(&bytes).expect_err("zero cols must be rejected");
    let err = err.message();
    assert!(
        err.contains("must all be non-zero"),
        "unexpected error: {err}"
    );
    assert_eq!(err, "Vector3D: rows, cols and depth must all be non-zero");
}

#[test]
fn from_parts_rejects_dimensions_that_overflow() {
    for (rows, cols, depth) in [(usize::MAX, 2, 1), (usize::MAX / 2, 2, 2)] {
        let err = Vector3D::<u8>::from_parts(Vec::new(), rows, cols, depth).expect_err("overflow");
        assert_eq!(err, Vector3DError::Overflow);
        assert_eq!(err.message(), "Vector3D: rows * cols * depth overflows");
    }
}

#[test]
fn a_clone_is_independent() {
    let mut v: Vector3D<u8> = Vector3D::init(1, 2, 2);
    v.fill(3);
    let copy = v.clone();
    v.as_mut_slice()[0] = 9;
    assert_eq!(copy.as_slice(), &[3, 3, 3, 3]);
    assert_eq!((copy.rows(), copy.cols(), copy.depth()), (1, 2, 2));
}

#[test]
fn a_refill_replaces_everything() {
    let mut v: Vector3D<u8> = Vector3D::init(1, 2, 2);
    v.fill(3);
    v.fill(4);
    assert_eq!(v.as_slice(), &[4, 4, 4, 4]);
}

#[test]
fn lanes_are_consecutive_slices_of_the_hash() {
    let hash: u64 = 0x0123_4567_89AB_CDEF;
    // Four bits per row, least significant row first.
    for row in 0..16usize {
        let expected = (hash >> (4 * row)) & 0xF;
        assert_eq!(hash.row_hash(row, 4, 0xF), expected as u128);
        assert_eq!(
            MatrixHashType::Packed64(hash).row_hash(row, 4, 0xF),
            expected as u128
        );
    }
    let wide: u128 = (hash as u128) << 64;
    assert_eq!(wide.row_hash(16, 4, 0xF), 0xF);
    assert_eq!(wide.row_hash(31, 4, 0xF), 0x0);
    assert_eq!(wide.row_hash(30, 4, 0xF), 0x1);
    assert_eq!(
        MatrixHashType::Packed128(wide).row_hash(16, 4, 0xF),
        0xF
    );
}

#[test]
fn a_lane_is_folded_into_a_width_that_is_no_power_of_two() {
    // Five columns take three bits; lanes 5, 6 and 7 wrap round.
    for lane in 0..8u64 {
        assert_eq!(lane.col_for_row(0, 5), (lane % 5) as usize);
    }
    assert_eq!(fold_to_col(12, 5), 2);
    assert_eq!(fold_to_col(4, 5), 4);
    // One column takes no bits at all.
    assert_eq!(u128::MAX.col_for_row(1_000, 1), 0);
}

#[test]
fn powers_of_two_are_told_apart() {
    for n in 1..=1025usize {
        assert_eq!(is_power_of_two(n), n.is_power_of_two());
    }
    assert!(is_power_of_two(1 << 63));
    assert!(!is_power_of_two(usize::MAX));
    assert_eq!(mask_bits_for_cols(usize::MAX), 64);
}

#[test]
fn query_min_takes_the_first_of_the_smallest() {
    let mut v: Vector3D<u8> = Vector3D::init(4, 1, 1);
    v.fill(0);
    v.as_mut_slice().copy_from_slice(&[5, 2, 7, 2]);
    let hash = 0u64;
    let min: (u8, usize) =
        v.fast_query_min(&hash, |bucket: &[u8], row: usize| (bucket[0], row));
    assert_eq!(min, (2, 1));
}

#[test]
fn fast_insert_leaves_other_buckets_alone() {
    let mut v: Vector3D<u8> = Vector3D::init(2, 4, 2);
    v.fill(1);
    // Row 0 reads the low two bits, row 1 the next two.
    let hash: u64 = 0b01_10;
    v.fast_insert(
        |bucket: &mut [u8], value: &u8, _row: usize| bucket[1] = *value,
        9u8,
        &hash,
    );
    assert_eq!(
        v.as_slice(),
        &[1, 1, 1, 1, 1, 9, 1, 1, 1, 1, 1, 9, 1, 1, 1, 1]
    );
}
