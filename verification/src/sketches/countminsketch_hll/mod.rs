//! Count-Min grid of HyperLogLogs (`CountMinHll`).
//!
//! A grouped distinct-count sketch: given a stream of `(key, distinct_value)`
//! pairs, it answers "how many distinct `distinct_value`s have been seen for
//! this `key`?"
//!
//! The grid is Count-Min-shaped -- `rows` independent hash rows, a minimum
//! across them, and no Count-Sketch sign anywhere -- where **every
//! `(row, col)` bucket is a small HyperLogLog**. Each insert routes `key` to
//! one column per row and records `distinct_value` into that bucket's
//! registers. Querying a key reads the same buckets and takes the **minimum**
//! of what they estimate: a bucket accumulates the distinct values of every
//! key that lands in it, so each row can only over-report, and the smallest
//! row is the tightest bound.
//!
//! Storage is a [`Vector3D<u8>`](Vector3D) of shape `rows x cols x 2^precision`:
//! the third dimension is the register array of each `(row, col)` bucket.

pub mod laws;

use super::hll;
use super::hll::rank;
use crate::common::hash::{DefaultXxHasher, SketchHasher};
use crate::common::input::DataInput;
use crate::common::structures::matrix_storage;
use crate::common::structures::matrix_storage::is_power_of_two;
use crate::common::structures::vector3d;
use crate::common::structures::vector3d::{Grid, Vector3D, Vector3DError};
use std::marker::PhantomData;
use vstd::arithmetic::power2::*;
use vstd::prelude::*;
use vstd::string::*;

verus! {

/// The rows of a default sketch.
pub const DEFAULT_ROW_NUM: usize = 4;

/// The columns of a default sketch.
pub const DEFAULT_COL_NUM: usize = 64;

/// The precision of a default sketch.
pub const DEFAULT_PRECISION: u32 = 8;

/// Position `at` is register `index` of the bucket that `hash` selects in some
/// row.
pub open spec fn hit(grid: Grid<u8>, hash: u128, index: int, at: int) -> bool {
    exists|row: int|
        0 <= row < grid.rows && at == #[trigger] grid.start(
            row,
            matrix_storage::column(&hash, row, grid.cols),
        ) + index
}

/// The grid after `rank` has been recorded in register `index` of every bucket
/// that `hash` selects.
pub open spec fn record_everywhere(grid: Grid<u8>, hash: u128, index: int, rank: u8) -> Grid<u8> {
    Grid {
        data: Seq::new(
            grid.data.len(),
            |at: int|
                if hit(grid, hash, index, at) {
                    hll::larger(grid.data[at], rank)
                } else {
                    grid.data[at]
                },
        ),
        ..grid
    }
}

/// The grid after `value` was seen for `key`. The seed of the second hash, the
/// number of rows, lies past those of the columns.
pub open spec fn insert<H: SketchHasher>(
    grid: Grid<u8>,
    precision: int,
    key: DataInput<'_>,
    value: DataInput<'_>,
) -> Grid<u8> {
    let hash = H::hash64(grid.rows, value);
    record_everywhere(
        grid,
        H::hash128(0, key),
        rank::register_of(hash, precision),
        rank::rank_of(hash, precision) as u8,
    )
}

/// The grid after the pairs were seen, in order.
pub open spec fn insert_all<H: SketchHasher>(
    grid: Grid<u8>,
    precision: int,
    pairs: Seq<(&DataInput<'_>, &DataInput<'_>)>,
) -> Grid<u8>
    decreases pairs.len(),
{
    if pairs.len() == 0 {
        grid
    } else {
        let (key, value) = pairs.last();
        insert::<H>(insert_all::<H>(grid, precision, pairs.drop_last()), precision, *key, *value)
    }
}

/// The register-wise maximum of two grids.
pub open spec fn union(a: Grid<u8>, b: Grid<u8>) -> Grid<u8> {
    Grid { data: Seq::new(a.data.len(), |at: int| hll::larger(a.data[at], b.data[at])), ..a }
}

/// Dimensions that a sketch can have: a HyperLogLog precision, a power-of-two
/// width, and rows whose column bits fit one 128-bit hash together.
pub open spec fn valid_dimensions(rows: int, cols: int, precision: int) -> bool {
    &&& 1 <= precision <= 18
    &&& rows > 0
    &&& cols > 0
    &&& matrix_storage::is_power(cols as nat)
    &&& rows * matrix_storage::column_bits(cols as nat) <= 128
}

/// A Count-Min-shaped grid whose cells are per-bucket HyperLogLog sketches.
///
/// `rows` independent hash rows each route an item to one of `cols` columns; the
/// selected `(row, col)` bucket holds a `2^precision`-register HyperLogLog that
/// records the item.
#[derive(Debug)]
pub struct CountMinHll<H: SketchHasher = DefaultXxHasher> {
    buckets: Vector3D<u8>,
    precision: u32,
    p_mask: u64,
    _hasher: PhantomData<H>,
}

impl<H: SketchHasher> View for CountMinHll<H> {
    type V = Grid<u8>;

    closed spec fn view(&self) -> Grid<u8> {
        self.buckets@
    }
}

impl<H: SketchHasher> Clone for CountMinHll<H> {
    fn clone(&self) -> (copy: Self)
        ensures
            copy.wf() == self.wf(),
            copy.spec_precision() == self.spec_precision(),
            copy@ == self@,
    {
        let buckets: Vector3D<u8> = self.buckets.clone();
        assert(buckets@.data =~= self.buckets@.data);
        Self { buckets, precision: self.precision, p_mask: self.p_mask, _hasher: PhantomData }
    }
}

impl<H: SketchHasher> CountMinHll<H> {
    /// The HyperLogLog precision.
    pub closed spec fn spec_precision(&self) -> int {
        self.precision as int
    }

    /// The backing storage.
    pub closed spec fn storage(&self) -> Vector3D<u8> {
        self.buckets
    }

    /// The dimensions are valid, every bucket has its registers, and what is
    /// derived from the dimensions fits them.
    pub closed spec fn wf(&self) -> bool {
        &&& self.buckets.wf()
        &&& self.buckets@.filled()
        &&& valid_dimensions(self.buckets@.rows, self.buckets@.cols, self.precision as int)
        &&& self.buckets@.depth == pow2(self.precision as nat)
        &&& self.p_mask == pow2(self.precision as nat) - 1
    }

    /// What well-formedness says about what can be seen.
    pub proof fn lemma_wf(&self)
        requires
            self.wf(),
        ensures
            self.storage()@ == self@,
            self.storage().wf(),
            self@.filled(),
            self@.sized(),
            valid_dimensions(self@.rows, self@.cols, self.spec_precision()),
            self@.depth == pow2(self.spec_precision() as nat),
            self@.rows <= usize::MAX,
    {
        self.buckets.lemma_wf();
    }

    /// Creates a sketch with the requested grid size and per-bucket HLL
    /// precision.
    ///
    /// `precision` is the HyperLogLog precision `p`; each bucket holds `2^p`
    /// registers.
    pub fn with_dimensions(rows: usize, cols: usize, precision: u32) -> (sketch: Self)
        requires
            valid_dimensions(rows as int, cols as int, precision as int),
            rows * cols * pow2(precision as nat) <= usize::MAX,
        ensures
            sketch.wf(),
            sketch.spec_precision() == precision,
            sketch@ == (Grid {
                rows: rows as int,
                cols: cols as int,
                depth: pow2(precision as nat) as int,
                data: Seq::new(
                    (rows * cols * pow2(precision as nat)) as nat,
                    |i: int| 0u8,
                ),
            }),
    {
        proof {
            lemma_precision(precision);
        }
        let depth: usize = 1usize << precision;
        let mut buckets: Vector3D<u8> = Vector3D::init(rows, cols, depth);
        buckets.fill(0);
        let sketch: Self = Self {
            buckets,
            precision,
            p_mask: (1u64 << precision) - 1,
            _hasher: PhantomData,
        };
        assert(sketch@.data =~= Seq::new(
            (rows * cols * pow2(precision as nat)) as nat,
            |i: int| 0u8,
        ));
        sketch
    }

    /// Number of hash rows.
    pub fn rows(&self) -> (rows: usize)
        ensures
            rows == self@.rows,
    {
        self.buckets.rows()
    }

    /// Number of columns per row.
    pub fn cols(&self) -> (cols: usize)
        ensures
            cols == self@.cols,
    {
        self.buckets.cols()
    }

    /// HyperLogLog precision `p` (each bucket has `2^p` registers).
    pub fn precision(&self) -> (precision: u32)
        ensures
            precision == self.spec_precision(),
    {
        self.precision
    }

    /// Number of HLL registers per `(row, col)` bucket.
    pub fn registers_per_bucket(&self) -> (registers: usize)
        ensures
            registers == self@.depth,
            self.wf() ==> registers == pow2(self.spec_precision() as nat),
    {
        self.buckets.depth()
    }

    /// Exposes the backing storage for inspection.
    pub fn as_storage(&self) -> (storage: &Vector3D<u8>)
        ensures
            *storage == self.storage(),
            storage@ == self@,
    {
        &self.buckets
    }

    /// Mutable access to the backing storage. The sketch stays well-formed as
    /// long as the storage keeps its shape.
    pub fn as_storage_mut(&mut self) -> (storage: &mut Vector3D<u8>)
        ensures
            *storage == old(self).storage(),
            final(self).storage() == *final(storage),
            final(self)@ == final(storage)@,
            final(self).spec_precision() == old(self).spec_precision(),
            old(self).wf() && final(storage).wf() && final(storage)@.filled()
                && final(storage)@.rows == old(self)@.rows && final(storage)@.cols
                == old(self)@.cols && final(storage)@.depth == old(self)@.depth
                ==> final(self).wf(),
    {
        &mut self.buckets
    }

    /// Computes the HLL `(register_index, rank)` pair from the HLL hash.
    ///
    /// The seed used (`rows`) is distinct from the per-row column seeds
    /// (`0..rows`), so column placement and register selection are independent.
    pub fn register_and_rank_from_hash(&self, hll_hash: u64) -> (place: (usize, u8))
        requires
            self.wf(),
        ensures
            place.0 == rank::register_of(hll_hash, self.spec_precision()),
            place.1 == rank::rank_of(hll_hash, self.spec_precision()),
            place.0 < self@.depth,
    {
        rank::register_and_rank(hll_hash, self.precision, self.p_mask)
    }

    /// Records that `distinct_value` was observed for `key`.
    ///
    /// Uses **2 hash calls** regardless of row count:
    /// 1. `hash128_seeded(0, key)` gives the packed column bits for all rows.
    /// 2. `hash64_seeded(rows, distinct_value)` gives the HLL register index and
    ///    rank (the seed is past the per-row column seeds to keep the two hashes
    ///    independent).
    pub fn insert(&mut self, key: &DataInput<'_>, distinct_value: &DataInput<'_>)
        requires
            old(self).wf(),
        ensures
            final(self).wf(),
            final(self).spec_precision() == old(self).spec_precision(),
            final(self)@ == insert::<H>(
                old(self)@,
                old(self).spec_precision(),
                *key,
                *distinct_value,
            ),
    {
        let ghost before = self@;
        let ghost storage = self.buckets;
        let rows: usize = self.buckets.rows();
        let col_hash: u128 = H::hash128_seeded(0, key);
        let hll_hash: u64 = H::hash64_seeded(rows, distinct_value);
        let (index, rank) = self.register_and_rank_from_hash(hll_hash);
        proof {
            self.lemma_wf();
            lemma_lanes_fit(before.rows, matrix_storage::column_bits(before.cols as nat) as int);
            assert(self.buckets.routes(&col_hash));
            assert forall|row: int| 0 <= row < before.rows implies before.has_bucket(
                row,
                #[trigger] matrix_storage::column(&col_hash, row, before.cols),
            ) by {
                lemma_column_in_range(col_hash, row, before.cols);
            }
            assert forall|row: int, col: int| before.has_bucket(row, col) implies #[trigger] before.bucket(
                row,
                col,
            ).len() == before.depth by {
                vector3d::lemma_bucket_in_bounds(before, row, col);
            }
        }
        self.buckets.fast_insert(record_max, (index, rank), &col_hash);
        proof {
            assert forall|row: int, col: int| before.has_bucket(row, col) implies #[trigger] self@.bucket(
                row,
                col,
            ) == (if col == matrix_storage::column(&col_hash, row, before.cols) {
                hll::record(before.bucket(row, col), index as int, rank)
            } else {
                before.bucket(row, col)
            }) by {
                let at = row as usize;
                if storage.selects(&col_hash, at as int, col) {
                    assert(before.bucket(row, col).len() == before.depth);
                }
            }
            lemma_recorded_in_every_row(before, self@, col_hash, index as int, rank);
        }
    }

    /// Inserts each `(key, distinct_value)` pair in the slice.
    pub fn insert_many(&mut self, pairs: &[(&DataInput<'_>, &DataInput<'_>)])
        requires
            old(self).wf(),
        ensures
            final(self).wf(),
            final(self).spec_precision() == old(self).spec_precision(),
            final(self)@ == insert_all::<H>(old(self)@, old(self).spec_precision(), pairs@),
    {
        let ghost before = self@;
        let ghost precision = self.spec_precision();
        let mut i: usize = 0;
        assert(pairs@.take(0) =~= Seq::empty());
        while i < pairs.len()
            invariant
                i <= pairs@.len(),
                self.wf(),
                self.spec_precision() == precision,
                self@ == insert_all::<H>(before, precision, pairs@.take(i as int)),
            decreases pairs@.len() - i,
        {
            let (key, distinct_value) = pairs[i];
            self.insert(key, distinct_value);
            i = i + 1;
            proof {
                assert(pairs@.take(i as int).drop_last() =~= pairs@.take(i - 1));
            }
        }
        assert(pairs@.take(pairs@.len() as int) =~= pairs@);
    }

    /// The minimum over the rows of what `op` answers for the bucket that
    /// `key` maps to.
    ///
    /// Each of those buckets holds an HLL over the `distinct_value`s of *every*
    /// key that hashes to it, so a bucket can only ever over-report this key's
    /// distinct count. With an estimator for `op`, the error is therefore
    /// one-sided and the minimum across rows is the tightest available
    /// estimate.
    pub fn estimate_with<F, R>(&self, key: &DataInput<'_>, op: F) -> (min: R) where
        F: Fn(&[u8], usize) -> R,
        R: PartialOrd,

        requires
            self.wf(),
            forall|registers: &[u8], row: usize|
                row < self@.rows && registers@ == self@.bucket(
                    row as int,
                    matrix_storage::column(&H::hash128(0, *key), row as int, self@.cols),
                ) ==> #[trigger] call_requires(op, (registers, row)),
        ensures
            exists|results: Seq<R>|
                {
                    &&& #[trigger] self.storage().answers(&H::hash128(0, *key), op, results)
                    &&& results.contains(min)
                    &&& vector3d::ordered::<R>() ==> min == vector3d::smallest(results)
                },
    {
        let col_hash: u128 = H::hash128_seeded(0, key);
        proof {
            self.lemma_wf();
            lemma_lanes_fit(self@.rows, matrix_storage::column_bits(self@.cols as nat) as int);
            assert(self.buckets.routes(&col_hash));
        }
        self.buckets.fast_query_min(&col_hash, op)
    }

    /// Merges another sketch by taking the element-wise register maximum.
    ///
    /// Both sketches must share the same grid dimensions and precision, so
    /// that a given `(key, distinct_value)` pair would have landed in the same
    /// register of the same bucket in either one. Merging mismatched sketches
    /// would silently mix unrelated registers, so it returns an error rather
    /// than producing a sketch whose estimates mean nothing.
    ///
    /// `self` is left untouched when the dimensions do not line up.
    pub fn merge(&mut self, other: &Self) -> (result: Result<(), String>)
        requires
            old(self).wf(),
            other.wf(),
        ensures
            final(self).wf(),
            final(self).spec_precision() == old(self).spec_precision(),
            result is Ok <==> old(self).same_shape(other),
            match result {
                Ok(()) => final(self)@ == union(old(self)@, other@),
                Err(text) => {
                    &&& *final(self) == *old(self)
                    &&& text@ == mismatch_text(
                        (old(self)@.rows, old(self)@.cols, old(self).spec_precision()),
                        (other@.rows, other@.cols, other.spec_precision()),
                    )
                },
            },
    {
        let rows: usize = self.buckets.rows();
        let cols: usize = self.buckets.cols();
        if rows != other.buckets.rows() || cols != other.buckets.cols() || self.precision
            != other.precision {
            let mut text: String =
                "cannot merge sketches of different shape: (rows, cols, precision) is ".to_owned();
            push_shape(&mut text, rows, cols, self.precision);
            text.append(" against ");
            push_shape(&mut text, other.buckets.rows(), other.buckets.cols(), other.precision);
            return Err(text);
        }
        raise_all(self.buckets.as_mut_slice(), other.buckets.as_slice());
        assert(self@.data =~= union(old(self)@, other@).data);
        Ok(())
    }

    /// Two sketches have one shape.
    pub open spec fn same_shape(&self, other: &Self) -> bool {
        &&& self@.rows == other@.rows
        &&& self@.cols == other@.cols
        &&& self.spec_precision() == other.spec_precision()
    }

    /// Rebuilds a sketch from what is stored of one. What is derived is
    /// recomputed, so stored parts cannot make it inconsistent.
    pub fn from_parts(buckets: Vector3D<u8>, precision: u32) -> (result: Result<
        Self,
        CountMinHllError,
    >)
        requires
            buckets.wf(),
            buckets@.filled(),
        ensures
            match result {
                Ok(sketch) => {
                    &&& sketch.wf()
                    &&& sketch@ == buckets@
                    &&& sketch.spec_precision() == precision
                },
                Err(error) => Some(error) == rejection(buckets@, precision),
            },
            result is Ok <==> rejection(buckets@, precision) is None,
            result is Ok <==> valid_dimensions(buckets@.rows, buckets@.cols, precision as int)
                && buckets@.depth == pow2(precision as nat),
    {
        let rows: usize = buckets.rows();
        let cols: usize = buckets.cols();
        proof {
            buckets.lemma_wf();
        }
        if precision < 1 || precision > 18 {
            return Err(CountMinHllError::PrecisionOutOfRange { precision });
        }
        proof {
            lemma_precision(precision);
        }
        let expected: usize = 1usize << precision;
        if buckets.depth() != expected {
            return Err(
                CountMinHllError::DepthMismatch { depth: buckets.depth(), precision, expected },
            );
        }
        if !is_power_of_two(cols) {
            return Err(CountMinHllError::ColsNotPowerOfTwo { cols });
        }
        let col_bits: usize = buckets.get_mask_bits() as usize;
        let required: usize = match rows.checked_mul(col_bits) {
            Some(required) => required,
            None => usize::MAX,
        };
        if required > 128 {
            return Err(CountMinHllError::TooManyBits { rows, col_bits, required });
        }
        Ok(Self { buckets, precision, p_mask: (1u64 << precision) - 1, _hasher: PhantomData })
    }

    /// Whether the sketch is well-formed. It is, unless its storage was replaced
    /// by one of another shape.
    pub fn is_intact(&self) -> (intact: bool)
        ensures
            intact == self.wf(),
    {
        if !self.buckets.is_intact() || self.precision < 1 || self.precision > 18 {
            return false;
        }
        proof {
            self.buckets.lemma_wf();
            lemma_precision(self.precision);
        }
        let col_bits: usize = self.buckets.get_mask_bits() as usize;
        let fits: bool = match self.buckets.rows().checked_mul(col_bits) {
            Some(required) => required <= 128,
            None => false,
        };
        fits && is_power_of_two(self.buckets.cols()) && self.buckets.depth()
            == 1usize << self.precision && self.p_mask == (1u64 << self.precision) - 1
    }

    /// What is stored of the sketch.
    pub fn to_stored(&self) -> (stored: StoredSketch)
        ensures
            stored.grid() == self@,
            stored.precision == self.spec_precision(),
    {
        let mut data: Vec<u8> = Vec::new();
        data.extend_from_slice(self.buckets.as_slice());
        assert(data@ =~= self@.data);
        StoredSketch {
            data,
            rows: self.buckets.rows(),
            cols: self.buckets.cols(),
            depth: self.buckets.depth(),
            precision: self.precision,
        }
    }

    /// Rebuilds a sketch from what is stored of one, or says what is wrong with
    /// it: first with the storage, then with the sketch.
    pub fn from_stored(stored: StoredSketch) -> (result: Result<Self, StoredSketchError>)
        ensures
            match result {
                Ok(sketch) => {
                    &&& sketch.wf()
                    &&& sketch@ == stored.grid()
                    &&& sketch.spec_precision() == stored.precision
                },
                Err(error) => Some(error) == stored_problem(stored),
            },
            result is Ok <==> stored_problem(stored) is None,
    {
        let precision: u32 = stored.precision;
        match Vector3D::from_parts(stored.data, stored.rows, stored.cols, stored.depth) {
            Err(error) => Err(StoredSketchError::Storage(error)),
            Ok(buckets) => match Self::from_parts(buckets, precision) {
                Err(error) => Err(StoredSketchError::Sketch(error)),
                Ok(sketch) => Ok(sketch),
            },
        }
    }

    /// Serializes the sketch with `write`, which writes what is stored of it.
    pub fn serialize_to_bytes<E, W>(&self, write: W) -> (result: Result<Vec<u8>, E>) where
        W: Fn(StoredSketch) -> Result<Vec<u8>, E>,

        requires
            forall|stored: StoredSketch|
                stored.grid() == self@ && stored.precision == self.spec_precision()
                    ==> #[trigger] call_requires(write, (stored,)),
        ensures
            encodes_to(self@, self.spec_precision(), write, result),
    {
        write(self.to_stored())
    }

    /// Deserializes a sketch with `read`, which reads what is stored of one.
    pub fn deserialize_from_bytes<E, R>(bytes: &[u8], read: R) -> (result: Result<
        Self,
        SketchDecodeError<E>,
    >) where R: Fn(&[u8]) -> Result<StoredSketch, E>
        requires
            forall|slice: &[u8]| slice@ == bytes@ ==> #[trigger] call_requires(read, (slice,)),
        ensures
            decodes_to::<H, E, R>(bytes@, read, result),
    {
        let stored: Result<StoredSketch, E> = read(bytes);
        match stored {
            Err(error) => Err(SketchDecodeError::Codec(error)),
            Ok(stored) => match Self::from_stored(stored) {
                Err(error) => Err(SketchDecodeError::Stored(error)),
                Ok(sketch) => Ok(sketch),
            },
        }
    }

    /// The mask of the register bits, derived from the precision.
    pub fn p_mask(&self) -> (mask: u64)
        requires
            self.wf(),
        ensures
            mask == pow2(self.spec_precision() as nat) - 1,
    {
        self.p_mask
    }
}

impl Default for CountMinHll<DefaultXxHasher> {
    fn default() -> (sketch: Self)
        ensures
            sketch.wf(),
            sketch.spec_precision() == 8,
            sketch@ == (Grid {
                rows: 4,
                cols: 64,
                depth: 256,
                data: Seq::new(65536, |i: int| 0u8),
            }),
    {
        proof {
            lemma2_to64();
            matrix_storage::lemma_column_bits_of_power(6);
        }
        Self::with_dimensions(DEFAULT_ROW_NUM, DEFAULT_COL_NUM, DEFAULT_PRECISION)
    }
}

/// What is stored of a [`CountMinHll`]: the registers, the shape of the storage
/// and the precision. Everything else is derived from these.
#[derive(Debug)]
pub struct StoredSketch {
    /// The registers, bucket by bucket.
    pub data: Vec<u8>,
    /// The rows.
    pub rows: usize,
    /// The columns.
    pub cols: usize,
    /// The registers of one bucket.
    pub depth: usize,
    /// The precision.
    pub precision: u32,
}

impl StoredSketch {
    /// The grid that is stored.
    pub open spec fn grid(self) -> Grid<u8> {
        Grid {
            rows: self.rows as int,
            cols: self.cols as int,
            depth: self.depth as int,
            data: self.data@,
        }
    }
}

/// Why what is stored does not make a [`CountMinHll`].
#[derive(Clone, Copy, Debug, PartialEq, Eq)]
pub enum StoredSketchError {
    /// It does not make the storage.
    Storage(Vector3DError),
    /// The storage does not make the sketch.
    Sketch(CountMinHllError),
}

/// The first thing that is wrong with what is stored, if anything is.
pub open spec fn stored_problem(stored: StoredSketch) -> Option<StoredSketchError> {
    match vector3d::parts_problem(stored.grid()) {
        Some(error) => Some(StoredSketchError::Storage(error)),
        None => match rejection(stored.grid(), stored.precision) {
            Some(error) => Some(StoredSketchError::Sketch(error)),
            None => None,
        },
    }
}

impl StoredSketchError {
    /// What is wrong, in words.
    pub fn message(&self) -> (text: String)
        ensures
            text@ == match *self {
                StoredSketchError::Storage(error) => vector3d::error_text(error),
                StoredSketchError::Sketch(error) => error_text(error),
            },
    {
        match self {
            StoredSketchError::Storage(error) => error.message(),
            StoredSketchError::Sketch(error) => error.message(),
        }
    }
}

/// Why bytes are not a sketch. `E` is the error of the reader.
#[derive(Debug)]
pub enum SketchDecodeError<E> {
    /// The bytes could not be read.
    Codec(E),
    /// What they store does not make a sketch.
    Stored(StoredSketchError),
}

/// What is written of a sketch: the writer is handed what is stored of it, and
/// its result is the result.
pub open spec fn encodes_to<E, W: Fn(StoredSketch) -> Result<Vec<u8>, E>>(
    grid: Grid<u8>,
    precision: int,
    write: W,
    result: Result<Vec<u8>, E>,
) -> bool {
    exists|stored: StoredSketch|
        {
            &&& #[trigger] call_ensures(write, (stored,), result)
            &&& stored.grid() == grid
            &&& stored.precision == precision
        }
}

/// What comes of bytes, given what the reader makes of them.
pub open spec fn decodes_to<H: SketchHasher, E, R: Fn(&[u8]) -> Result<StoredSketch, E>>(
    bytes: Seq<u8>,
    read: R,
    result: Result<CountMinHll<H>, SketchDecodeError<E>>,
) -> bool {
    exists|slice: &[u8], stored: Result<StoredSketch, E>|
        {
            &&& #[trigger] call_ensures(read, (slice,), stored)
            &&& slice@ == bytes
            &&& match stored {
                Err(error) => result == Err::<CountMinHll<H>, SketchDecodeError<E>>(
                    SketchDecodeError::Codec(error),
                ),
                Ok(stored) => match stored_problem(stored) {
                    Some(error) => result == Err::<CountMinHll<H>, SketchDecodeError<E>>(
                        SketchDecodeError::Stored(error),
                    ),
                    None => result matches Ok(sketch) && {
                        &&& sketch.wf()
                        &&& sketch@ == stored.grid()
                        &&& sketch.spec_precision() == stored.precision
                    },
                },
            }
        }
}

/// Why parts do not make a [`CountMinHll`].
#[derive(Clone, Copy, Debug, PartialEq, Eq)]
pub enum CountMinHllError {
    /// The precision is not in `1..=18`.
    PrecisionOutOfRange {
        /// The precision.
        precision: u32,
    },
    /// A bucket has not `2^precision` registers.
    DepthMismatch {
        /// The registers of a bucket.
        depth: usize,
        /// The precision.
        precision: u32,
        /// `2^precision`.
        expected: usize,
    },
    /// The width is not a power of two.
    ColsNotPowerOfTwo {
        /// The columns.
        cols: usize,
    },
    /// The column bits of all rows do not fit one 128-bit hash.
    TooManyBits {
        /// The rows.
        rows: usize,
        /// The bits of one column index.
        col_bits: usize,
        /// Their product, or the largest `usize` where it does not fit one.
        required: usize,
    },
}

/// The first thing that is wrong with stored parts, if anything is.
pub open spec fn rejection(buckets: Grid<u8>, precision: u32) -> Option<CountMinHllError> {
    let bits = matrix_storage::column_bits(buckets.cols as nat) as int;
    if !(1 <= precision <= 18) {
        Some(CountMinHllError::PrecisionOutOfRange { precision })
    } else if buckets.depth != pow2(precision as nat) {
        Some(
            CountMinHllError::DepthMismatch {
                depth: buckets.depth as usize,
                precision,
                expected: pow2(precision as nat) as usize,
            },
        )
    } else if !matrix_storage::is_power(buckets.cols as nat) {
        Some(CountMinHllError::ColsNotPowerOfTwo { cols: buckets.cols as usize })
    } else if buckets.rows * bits > 128 {
        Some(
            CountMinHllError::TooManyBits {
                rows: buckets.rows as usize,
                col_bits: bits as usize,
                required: if buckets.rows * bits <= usize::MAX {
                    (buckets.rows * bits) as usize
                } else {
                    usize::MAX
                },
            },
        )
    } else {
        None
    }
}

/// The text of a [`CountMinHllError`].
pub open spec fn error_text(error: CountMinHllError) -> Seq<char> {
    match error {
        CountMinHllError::PrecisionOutOfRange { precision } => "precision "@
            + crate::text::decimal(precision as nat) + " out of range 1..=18"@,
        CountMinHllError::DepthMismatch { depth, precision, expected } => "buckets depth "@
            + crate::text::decimal(depth as nat) + " does not match 2^precision "@
            + crate::text::decimal(precision as nat) + " = "@ + crate::text::decimal(
            expected as nat,
        ),
        CountMinHllError::ColsNotPowerOfTwo { cols } => "cols ("@ + crate::text::decimal(
            cols as nat,
        ) + ") must be a power of two"@,
        CountMinHllError::TooManyBits { rows, col_bits, required } => "rows ("@
            + crate::text::decimal(rows as nat) + ") × column bits ("@ + crate::text::decimal(
            col_bits as nat,
        ) + ") = "@ + crate::text::decimal(required as nat)
            + " exceeds the 128-bit packed column hash; reduce rows or cols"@,
    }
}

impl CountMinHllError {
    /// What is wrong, in words.
    pub fn message(&self) -> (text: String)
        ensures
            text@ == error_text(*self),
    {
        match self {
            CountMinHllError::PrecisionOutOfRange { precision } => {
                let mut text: String = "precision ".to_owned();
                crate::text::push_decimal(&mut text, *precision as u64);
                text.append(" out of range 1..=18");
                text
            },
            CountMinHllError::DepthMismatch { depth, precision, expected } => {
                let mut text: String = "buckets depth ".to_owned();
                crate::text::push_decimal(&mut text, *depth as u64);
                text.append(" does not match 2^precision ");
                crate::text::push_decimal(&mut text, *precision as u64);
                text.append(" = ");
                crate::text::push_decimal(&mut text, *expected as u64);
                text
            },
            CountMinHllError::ColsNotPowerOfTwo { cols } => {
                let mut text: String = "cols (".to_owned();
                crate::text::push_decimal(&mut text, *cols as u64);
                text.append(") must be a power of two");
                text
            },
            CountMinHllError::TooManyBits { rows, col_bits, required } => {
                let mut text: String = "rows (".to_owned();
                crate::text::push_decimal(&mut text, *rows as u64);
                text.append(") × column bits (");
                crate::text::push_decimal(&mut text, *col_bits as u64);
                text.append(") = ");
                crate::text::push_decimal(&mut text, *required as u64);
                text.append(" exceeds the 128-bit packed column hash; reduce rows or cols");
                text
            },
        }
    }
}

/// Three numbers in round brackets.
pub open spec fn shape_text(shape: (int, int, int)) -> Seq<char> {
    "("@ + crate::text::decimal(shape.0 as nat) + ", "@ + crate::text::decimal(shape.1 as nat)
        + ", "@ + crate::text::decimal(shape.2 as nat) + ")"@
}

/// Why two sketches do not merge, in words.
pub open spec fn mismatch_text(mine: (int, int, int), theirs: (int, int, int)) -> Seq<char> {
    "cannot merge sketches of different shape: (rows, cols, precision) is "@ + shape_text(mine)
        + " against "@ + shape_text(theirs)
}

/// Appends the shape of a sketch.
fn push_shape(out: &mut String, rows: usize, cols: usize, precision: u32)
    ensures
        final(out)@ == old(out)@ + shape_text((rows as int, cols as int, precision as int)),
{
    out.append("(");
    crate::text::push_decimal(out, rows as u64);
    out.append(", ");
    crate::text::push_decimal(out, cols as u64);
    out.append(", ");
    crate::text::push_decimal(out, precision as u64);
    out.append(")");
    assert(out@ =~= old(out)@ + shape_text((rows as int, cols as int, precision as int)));
}

/// Raises every register to the one at its place in `other`, unless it is
/// there already.
fn raise_all(registers: &mut [u8], other: &[u8])
    requires
        old(registers)@.len() == other@.len(),
    ensures
        final(registers)@ == Seq::new(
            other@.len(),
            |at: int| hll::larger(old(registers)@[at], other@[at]),
        ),
{
    let mut i: usize = 0;
    while i < other.len()
        invariant
            i <= other@.len(),
            registers@.len() == other@.len(),
            old(registers)@.len() == other@.len(),
            forall|at: int|
                0 <= at < i ==> #[trigger] registers@[at] == hll::larger(
                    old(registers)@[at],
                    other@[at],
                ),
            forall|at: int|
                i <= at < other@.len() ==> #[trigger] registers@[at] == old(registers)@[at],
        decreases other@.len() - i,
    {
        if registers[i] < other[i] {
            registers[i] = other[i];
        }
        i = i + 1;
    }
    assert(registers@ =~= Seq::new(
        other@.len(),
        |at: int| hll::larger(old(registers)@[at], other@[at]),
    ));
}

/// Raises one register of a bucket to a rank, unless it is there already.
fn record_max(registers: &mut [u8], place: &(usize, u8), _row: usize)
    requires
        place.0 < old(registers)@.len(),
    ensures
        final(registers)@ == hll::record(old(registers)@, place.0 as int, place.1),
        final(registers)@.len() == old(registers)@.len(),
{
    if registers[place.0] < place.1 {
        registers[place.0] = place.1;
    }
    assert(registers@ =~= hll::record(old(registers)@, place.0 as int, place.1));
}

/// The lanes of all rows fit the hash that they fit together.
proof fn lemma_lanes_fit(rows: int, bits: int)
    requires
        bits >= 0,
        rows * bits <= 128,
    ensures
        forall|row: int| 0 <= row < rows ==> #[trigger] (row * bits) < 128,
{
    assert forall|row: int| 0 <= row < rows implies #[trigger] (row * bits) < 128 by {
        assert(row * bits < 128) by (nonlinear_arith)
            requires
                0 <= row < rows,
                bits >= 0,
                rows * bits <= 128,
        ;
    }
}

/// A selected column is a column.
pub proof fn lemma_column_in_range(hash: u128, row: int, cols: int)
    requires
        cols > 0,
    ensures
        0 <= matrix_storage::column(&hash, row, cols) < cols,
{
    vstd::arithmetic::div_mod::lemma_mod_bound(
        matrix_storage::MatrixFastHash::lane(
            &hash,
            row,
            matrix_storage::column_bits(cols as nat) as int,
        ),
        cols,
    );
}

/// A position is hit exactly where it is the recorded register of a selected
/// bucket.
pub proof fn lemma_hit(grid: Grid<u8>, hash: u128, index: int, row: int, col: int, slot: int)
    requires
        grid.sized(),
        grid.has_bucket(row, col),
        0 <= index < grid.depth,
        0 <= slot < grid.depth,
    ensures
        hit(grid, hash, index, grid.start(row, col) + slot) <==> col == matrix_storage::column(
            &hash,
            row,
            grid.cols,
        ) && slot == index,
{
    let at = grid.start(row, col) + slot;
    if hit(grid, hash, index, at) {
        let other = choose|other: int|
            0 <= other < grid.rows && at == #[trigger] grid.start(
                other,
                matrix_storage::column(&hash, other, grid.cols),
            ) + index;
        let other_col = matrix_storage::column(&hash, other, grid.cols);
        lemma_column_in_range(hash, other, grid.cols);
        if row != other || col != other_col {
            vector3d::lemma_buckets_apart(grid, row, col, other, other_col);
        }
    }
}

/// Recording in the selected bucket of every row is recording everywhere.
proof fn lemma_recorded_in_every_row(
    before: Grid<u8>,
    after: Grid<u8>,
    hash: u128,
    index: int,
    rank: u8,
)
    requires
        before.sized(),
        before.filled(),
        after.filled(),
        after.rows == before.rows,
        after.cols == before.cols,
        after.depth == before.depth,
        0 <= index < before.depth,
        forall|row: int, col: int|
            before.has_bucket(row, col) ==> #[trigger] after.bucket(row, col) == (if col
                == matrix_storage::column(&hash, row, before.cols) {
                hll::record(before.bucket(row, col), index, rank)
            } else {
                before.bucket(row, col)
            }),
    ensures
        after == record_everywhere(before, hash, index, rank),
{
    let goal = record_everywhere(before, hash, index, rank);
    assert forall|at: int| 0 <= at < after.data.len() implies #[trigger] after.data[at]
        == goal.data[at] by {
        let (row, col, slot) = vector3d::law_every_position_is_in_a_bucket(before, at);
        vector3d::lemma_bucket_in_bounds(before, row, col);
        lemma_hit(before, hash, index, row, col, slot);
        assert(after.bucket(row, col)[slot] == after.data[at]);
        assert(before.bucket(row, col)[slot] == before.data[at]);
    }
    assert(after.data =~= goal.data);
}

/// The powers of two that a precision stands for.
proof fn lemma_precision(precision: u32)
    requires
        1 <= precision <= 18,
    ensures
        1usize << precision == pow2(precision as nat),
        1u64 << precision == pow2(precision as nat),
        2 <= pow2(precision as nat) <= 0x40000,
{
    lemma2_to64();
    vstd::bits::lemma_u64_shl_is_mul(1, precision as u64);
    vstd::bits::lemma_usize_shl_is_mul(1, precision as usize);
    assert(1u64 << precision == 1u64 << (precision as u64)) by (bit_vector);
    assert(1usize << precision == 1usize << (precision as usize)) by (bit_vector)
        requires
            precision <= 18,
    ;
    if precision < 18 {
        lemma_pow2_strictly_increases(precision as nat, 18);
    }
    if precision > 1 {
        lemma_pow2_strictly_increases(1, precision as nat);
    }
}

} // verus!
