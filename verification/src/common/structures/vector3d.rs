//! A matrix whose every cell is a fixed-length record.

use super::matrix_storage;
use super::matrix_storage::{fold_to_col, mask_bits_for_cols, MatrixFastHash};
use vstd::arithmetic::power2::*;
use vstd::prelude::*;
use vstd::std_specs::cmp::*;
use vstd::string::*;

verus! {

/// What a [`Vector3D`] is: its dimensions, and its elements in bucket-major
/// order.
#[verifier::ext_equal]
pub struct Grid<T> {
    pub rows: int,
    pub cols: int,
    pub depth: int,
    pub data: Seq<T>,
}

impl<T> Grid<T> {
    /// No dimension is zero.
    pub open spec fn sized(self) -> bool {
        self.rows > 0 && self.cols > 0 && self.depth > 0
    }

    /// Every bucket has its elements.
    pub open spec fn filled(self) -> bool {
        self.data.len() == self.rows * self.cols * self.depth
    }

    /// The position of the first element of a bucket.
    pub open spec fn start(self, row: int, col: int) -> int {
        (row * self.cols + col) * self.depth
    }

    /// The elements of a bucket.
    pub open spec fn bucket(self, row: int, col: int) -> Seq<T> {
        self.data.subrange(self.start(row, col), self.start(row, col) + self.depth)
    }

    /// There is such a bucket.
    pub open spec fn has_bucket(self, row: int, col: int) -> bool {
        0 <= row < self.rows && 0 <= col < self.cols
    }
}

/// A bucket lies inside the storage.
pub proof fn lemma_bucket_in_bounds<T>(grid: Grid<T>, row: int, col: int)
    requires
        grid.sized(),
        grid.has_bucket(row, col),
    ensures
        0 <= row * grid.cols,
        0 <= row * grid.cols + col < grid.rows * grid.cols,
        0 <= grid.start(row, col),
        grid.start(row, col) + grid.depth <= grid.rows * grid.cols * grid.depth,
{
    let (rows, cols, depth) = (grid.rows, grid.cols, grid.depth);
    assert(0 <= row * cols && row * cols + col < rows * cols) by (nonlinear_arith)
        requires
            0 <= row < rows,
            0 <= col < cols,
    ;
    let index = row * cols + col;
    let count = rows * cols;
    assert(0 <= index * depth && index * depth + depth <= count * depth) by (nonlinear_arith)
        requires
            0 <= index < count,
            depth > 0,
    ;
}

/// Two buckets do not overlap, and a later one lies wholly behind an earlier.
pub proof fn lemma_buckets_apart<T>(grid: Grid<T>, row: int, col: int, other: int, other_col: int)
    requires
        grid.sized(),
        grid.has_bucket(row, col),
        grid.has_bucket(other, other_col),
        row != other || col != other_col,
    ensures
        ({
            ||| grid.start(row, col) + grid.depth <= grid.start(other, other_col)
            ||| grid.start(other, other_col) + grid.depth <= grid.start(row, col)
        }),
{
    let (cols, depth) = (grid.cols, grid.depth);
    let a = row * cols + col;
    let b = other * cols + other_col;
    if row < other {
        assert(a < b) by (nonlinear_arith)
            requires
                a == row * cols + col,
                b == other * cols + other_col,
                row < other,
                0 <= col < cols,
                0 <= other_col,
        ;
    } else if other < row {
        assert(b < a) by (nonlinear_arith)
            requires
                a == row * cols + col,
                b == other * cols + other_col,
                other < row,
                0 <= col,
                0 <= other_col < cols,
        ;
    }
    if a < b {
        assert(a * depth + depth <= b * depth) by (nonlinear_arith)
            requires
                a < b,
                depth > 0,
        ;
    } else {
        assert(b * depth + depth <= a * depth) by (nonlinear_arith)
            requires
                b < a,
                depth > 0,
        ;
    }
}

/// The buckets tile the storage: each position belongs to exactly one slot of
/// one bucket, so two grids of one shape that agree on every bucket agree.
pub proof fn law_buckets_tile_the_storage<T>(a: Grid<T>, b: Grid<T>)
    requires
        a.sized(),
        a.filled(),
        b.filled(),
        a.rows == b.rows,
        a.cols == b.cols,
        a.depth == b.depth,
        forall|row: int, col: int|
            a.has_bucket(row, col) ==> #[trigger] a.bucket(row, col) == b.bucket(row, col),
    ensures
        a == b,
{
    assert forall|at: int| 0 <= at < a.data.len() implies #[trigger] a.data[at] == b.data[at] by {
        let (row, col, slot) = law_every_position_is_in_a_bucket(a, at);
        lemma_bucket_in_bounds(a, row, col);
        assert(a.bucket(row, col)[slot] == a.data[at]);
        assert(b.bucket(row, col)[slot] == b.data[at]);
        assert(a.bucket(row, col) == b.bucket(row, col));
    }
    assert(a.data =~= b.data);
}

/// What is stored of a filled container is accepted when it is rebuilt.
pub proof fn law_stored_parts_are_accepted<T>(v: Vector3D<T>)
    requires
        v.wf(),
        v@.filled(),
    ensures
        parts_problem(v@) is None,
{
    v.lemma_wf();
}

/// Every position of the storage is a slot of a bucket, which is handed back.
pub proof fn law_every_position_is_in_a_bucket<T>(grid: Grid<T>, at: int) -> (place: (
    int,
    int,
    int,
))
    requires
        grid.sized(),
        grid.filled(),
        0 <= at < grid.data.len(),
    ensures
        grid.has_bucket(place.0, place.1),
        0 <= place.2 < grid.depth,
        at == grid.start(place.0, place.1) + place.2,
{
    let (rows, cols, depth) = (grid.rows, grid.cols, grid.depth);
    let index = at / depth;
    let slot = at % depth;
    vstd::arithmetic::div_mod::lemma_fundamental_div_mod(at, depth);
    vstd::arithmetic::div_mod::lemma_mod_bound(at, depth);
    vstd::arithmetic::div_mod::lemma_div_pos_is_pos(at, depth);
    let count = rows * cols;
    assert(index < count) by (nonlinear_arith)
        requires
            depth * index <= at,
            at < count * depth,
            depth > 0,
    ;
    let row = index / cols;
    let col = index % cols;
    vstd::arithmetic::div_mod::lemma_fundamental_div_mod(index, cols);
    vstd::arithmetic::div_mod::lemma_mod_bound(index, cols);
    vstd::arithmetic::div_mod::lemma_div_pos_is_pos(index, cols);
    assert(row < rows) by (nonlinear_arith)
        requires
            cols * row <= index,
            index < rows * cols,
            cols > 0,
    ;
    assert(row * cols == cols * row) by (nonlinear_arith);
    assert(index * depth == depth * index) by (nonlinear_arith);
    (row, col, slot)
}

/// A `rows * cols` grid where each `(row, col)` cell is a contiguous run of
/// `depth` elements -- a **bucket**. Storage is a single flat `Vec<T>` in
/// bucket-major order; the element at `(row, col, d)` lives at
/// `(row * cols + col) * depth + d`.
///
/// # When to reach for it
///
/// Use `Vector3D<T>` when, and only when, each cell is made of **several
/// mutually coupled fields** -- that is, when the estimator or the update must
/// read or write those fields as a unit.
///
/// A `Vec` of arrays has exactly the same memory layout. The one thing
/// `Vector3D` adds is a **`depth` chosen at run time**: it comes from a
/// configuration value that is also read back from stored bytes, which a const
/// generic cannot express.
#[derive(Debug)]
pub struct Vector3D<T> {
    data: Vec<T>,
    rows: usize,
    cols: usize,
    depth: usize,
    mask_bits: u32,
    mask: u128,
}

/// Why parts do not make a [`Vector3D`].
#[derive(Clone, Copy, Debug, PartialEq, Eq)]
pub enum Vector3DError {
    /// A dimension is zero.
    ZeroDimension,
    /// The product of the dimensions does not fit a `usize`.
    Overflow,
    /// The data is not as long as the dimensions say.
    LengthMismatch {
        /// The length of the data.
        len: usize,
        /// The product of the dimensions.
        expected: usize,
    },
}

/// The first thing that is wrong with stored parts, if anything is.
pub open spec fn parts_problem<T>(parts: Grid<T>) -> Option<Vector3DError> {
    let expected = parts.rows * parts.cols * parts.depth;
    if parts.rows == 0 || parts.cols == 0 || parts.depth == 0 {
        Some(Vector3DError::ZeroDimension)
    } else if expected > usize::MAX {
        Some(Vector3DError::Overflow)
    } else if parts.data.len() != expected {
        Some(
            Vector3DError::LengthMismatch {
                len: parts.data.len() as usize,
                expected: expected as usize,
            },
        )
    } else {
        None
    }
}

/// The text of a [`Vector3DError`].
pub open spec fn error_text(error: Vector3DError) -> Seq<char> {
    match error {
        Vector3DError::ZeroDimension => "Vector3D: rows, cols and depth must all be non-zero"@,
        Vector3DError::Overflow => "Vector3D: rows * cols * depth overflows"@,
        Vector3DError::LengthMismatch { len, expected } => "Vector3D: data length "@
            + crate::text::decimal(len as nat) + " does not match rows * cols * depth = "@
            + crate::text::decimal(expected as nat),
    }
}

impl Vector3DError {
    /// What is wrong, in words.
    pub fn message(&self) -> (text: String)
        ensures
            text@ == error_text(*self),
    {
        match self {
            Vector3DError::ZeroDimension => {
                "Vector3D: rows, cols and depth must all be non-zero".to_owned()
            },
            Vector3DError::Overflow => "Vector3D: rows * cols * depth overflows".to_owned(),
            Vector3DError::LengthMismatch { len, expected } => {
                let mut text: String = "Vector3D: data length ".to_owned();
                crate::text::push_decimal(&mut text, *len as u64);
                text.append(" does not match rows * cols * depth = ");
                crate::text::push_decimal(&mut text, *expected as u64);
                text
            },
        }
    }
}

/// `op` may answer `result` for a bucket that holds `bucket`.
pub open spec fn bucket_answer<T, R, F: Fn(&[T], usize) -> R>(
    op: F,
    row: usize,
    bucket: Seq<T>,
    result: R,
) -> bool {
    exists|slice: &[T]| slice@ == bucket && #[trigger] call_ensures(op, (slice, row), result)
}

/// `<` on `R` means what its specification says.
pub open spec fn ordered<R: PartialOrd>() -> bool {
    R::obeys_partial_cmp_spec()
}

/// `x < y`.
pub open spec fn less<R: PartialOrd>(x: R, y: R) -> bool {
    x.is_lt(&y)
}

/// The first of the smallest among `results`, by `<`.
pub open spec fn smallest<R: PartialOrd>(results: Seq<R>) -> R
    decreases results.len(),
{
    if results.len() <= 1 {
        results[0]
    } else {
        let rest = smallest(results.drop_last());
        if less(results.last(), rest) {
            results.last()
        } else {
            rest
        }
    }
}

/// The smallest of the per-row results is their minimum: where `<` is an
/// order, none of them is smaller.
pub proof fn law_no_result_is_smaller<R: PartialOrd>(results: Seq<R>, at: int)
    requires
        0 <= at < results.len(),
        forall|x: R| !#[trigger] less(x, x),
        forall|x: R, y: R, z: R| #[trigger]
            less(x, y) && #[trigger] less(y, z) ==> less(x, z),
    ensures
        !less(results[at], smallest(results)),
    decreases results.len(),
{
    if results.len() > 1 {
        if at < results.len() - 1 {
            law_no_result_is_smaller(results.drop_last(), at);
            assert(results.drop_last()[at] == results[at]);
        }
    }
}

impl<T> View for Vector3D<T> {
    type V = Grid<T>;

    closed spec fn view(&self) -> Grid<T> {
        Grid {
            rows: self.rows as int,
            cols: self.cols as int,
            depth: self.depth as int,
            data: self.data@,
        }
    }
}

impl<T: Clone> Clone for Vector3D<T> {
    fn clone(&self) -> (copy: Self)
        ensures
            copy.wf() == self.wf(),
            copy@.rows == self@.rows,
            copy@.cols == self@.cols,
            copy@.depth == self@.depth,
            copy@.data.len() == self@.data.len(),
            forall|i: int|
                0 <= i < self@.data.len() ==> cloned(self@.data[i], #[trigger] copy@.data[i]),
    {
        Self {
            data: self.data.clone(),
            rows: self.rows,
            cols: self.cols,
            depth: self.depth,
            mask_bits: self.mask_bits,
            mask: self.mask,
        }
    }
}

impl<T> Vector3D<T> {
    /// The dimensions are not zero and fit a `usize` together, and the routing
    /// state is the one that the number of columns asks for.
    pub closed spec fn wf(&self) -> bool {
        &&& self@.sized()
        &&& self.rows * self.cols * self.depth <= usize::MAX
        &&& self.mask_bits == matrix_storage::column_bits(self.cols as nat)
        &&& self.mask_bits <= 64
        &&& self.mask == pow2(self.mask_bits as nat) - 1
    }

    /// The column that `hash` selects in `row`.
    pub open spec fn routed<H: MatrixFastHash>(&self, hash: &H, row: int) -> int {
        matrix_storage::column(hash, row, self@.cols)
    }

    /// `hash` selects column `col` in `row`.
    pub open spec fn selects<H: MatrixFastHash>(&self, hash: &H, row: int, col: int) -> bool {
        0 <= row < self@.rows && col == self.routed(hash, row)
    }

    /// `hash` selects a column in every row.
    pub open spec fn routes<H: MatrixFastHash>(&self, hash: &H) -> bool {
        forall|row: int|
            0 <= row < self@.rows ==> #[trigger] hash.has_lane(
                row,
                matrix_storage::column_bits(self@.cols as nat) as int,
            )
    }

    /// `results` are answers of `op` for the buckets that `hash` selects, row
    /// by row.
    pub open spec fn answers<H: MatrixFastHash, F: Fn(&[T], usize) -> R, R>(
        &self,
        hash: &H,
        op: F,
        results: Seq<R>,
    ) -> bool {
        &&& results.len() == self@.rows
        &&& forall|row: int|
            0 <= row < self@.rows ==> bucket_answer(
                op,
                row as usize,
                self@.bucket(row, self.routed(hash, row)),
                #[trigger] results[row],
            )
    }

    /// What well-formedness says about the dimensions.
    pub proof fn lemma_wf(&self)
        requires
            self.wf(),
        ensures
            self@.sized(),
            self@.rows * self@.cols * self@.depth <= usize::MAX,
            self@.rows <= usize::MAX,
            self@.cols <= usize::MAX,
            self@.depth <= usize::MAX,
    {
    }

    /// Whether the container is well-formed and every bucket has its elements.
    /// Storage that was handed out to be replaced may be neither.
    pub fn is_intact(&self) -> (intact: bool)
        ensures
            intact == (self.wf() && self@.filled()),
    {
        if self.rows == 0 || self.cols == 0 || self.depth == 0 {
            return false;
        }
        let expected: usize = match self.rows.checked_mul(self.cols) {
            Some(buckets) => match buckets.checked_mul(self.depth) {
                Some(expected) => expected,
                None => {
                    return false;
                },
            },
            None => {
                proof {
                    let (buckets, depth) = (self.rows * self.cols, self.depth as int);
                    assert(buckets * depth >= buckets) by (nonlinear_arith)
                        requires
                            depth >= 1,
                            buckets >= 0,
                    ;
                }
                return false;
            },
        };
        let mask_bits: u32 = mask_bits_for_cols(self.cols);
        proof {
            matrix_storage::lemma_shifted_bit(mask_bits);
            lemma_pow2_pos(mask_bits as nat);
        }
        self.mask_bits == mask_bits && self.mask == (1u128 << mask_bits) - 1 && self.data.len()
            == expected
    }

    /// Rebuilds a container from what is stored of one. The routing state is
    /// derived from `cols`, so stored parts cannot make it inconsistent.
    pub fn from_parts(data: Vec<T>, rows: usize, cols: usize, depth: usize) -> (result: Result<
        Self,
        Vector3DError,
    >)
        ensures
            match result {
                Ok(v) => {
                    &&& v.wf()
                    &&& v@ == (Grid {
                        rows: rows as int,
                        cols: cols as int,
                        depth: depth as int,
                        data: data@,
                    })
                    &&& v@.filled()
                },
                Err(error) => Some(error) == parts_problem(
                    (Grid {
                        rows: rows as int,
                        cols: cols as int,
                        depth: depth as int,
                        data: data@,
                    }),
                ),
            },
            result is Ok <==> parts_problem(
                (Grid {
                    rows: rows as int,
                    cols: cols as int,
                    depth: depth as int,
                    data: data@,
                }),
            ) is None,
            result is Ok <==> rows > 0 && cols > 0 && depth > 0 && data@.len() == rows * cols
                * depth,
    {
        let len: usize = data.len();
        if rows == 0 || cols == 0 || depth == 0 {
            return Err(Vector3DError::ZeroDimension);
        }
        let buckets: usize = match rows.checked_mul(cols) {
            Some(buckets) => buckets,
            None => {
                assert(rows * cols * depth >= rows * cols) by (nonlinear_arith)
                    requires
                        depth >= 1,
                        rows * cols >= 0,
                ;
                return Err(Vector3DError::Overflow);
            },
        };
        let expected: usize = match buckets.checked_mul(depth) {
            Some(expected) => expected,
            None => {
                return Err(Vector3DError::Overflow);
            },
        };
        if len != expected {
            return Err(Vector3DError::LengthMismatch { len, expected });
        }
        let mask_bits: u32 = mask_bits_for_cols(cols);
        proof {
            matrix_storage::lemma_shifted_bit(mask_bits);
            lemma_pow2_pos(mask_bits as nat);
        }
        Ok(Self { data, rows, cols, depth, mask_bits, mask: (1u128 << mask_bits) - 1 })
    }

    /// Creates a container sized for `rows * cols * depth` elements, with the
    /// storage left empty.
    ///
    /// The bucket accessors are only valid once [`Self::fill`] has populated
    /// the storage; until then [`Self::len`] reports `0`.
    pub fn init(rows: usize, cols: usize, depth: usize) -> (v: Self)
        requires
            rows > 0,
            cols > 0,
            depth > 0,
            rows * cols * depth <= usize::MAX,
        ensures
            v.wf(),
            v@ == (Grid {
                rows: rows as int,
                cols: cols as int,
                depth: depth as int,
                data: Seq::<T>::empty(),
            }),
    {
        let mask_bits: u32 = mask_bits_for_cols(cols);
        proof {
            matrix_storage::lemma_shifted_bit(mask_bits);
            lemma_pow2_pos(mask_bits as nat);
            assert(rows * cols <= rows * cols * depth) by (nonlinear_arith)
                requires
                    depth >= 1,
                    rows * cols >= 0,
            ;
        }
        Self {
            data: Vec::with_capacity(rows * cols * depth),
            rows,
            cols,
            depth,
            mask_bits,
            mask: (1u128 << mask_bits) - 1,
        }
    }

    /// Replaces the entire container with `rows * cols * depth` clones of
    /// `value`, reusing the existing allocation.
    pub fn fill(&mut self, value: T) where T: Clone
        requires
            old(self).wf(),
        ensures
            final(self).wf(),
            final(self)@.rows == old(self)@.rows,
            final(self)@.cols == old(self)@.cols,
            final(self)@.depth == old(self)@.depth,
            final(self)@.filled(),
            forall|i: int|
                0 <= i < final(self)@.data.len() ==> cloned(value, #[trigger] final(self)@.data[i]),
    {
        proof {
            let (rows, cols, depth) = (self.rows, self.cols, self.depth);
            assert(rows * cols <= rows * cols * depth) by (nonlinear_arith)
                requires
                    depth >= 1,
                    rows * cols >= 0,
            ;
            assert(rows * cols * depth > 0) by (nonlinear_arith)
                requires
                    rows > 0,
                    cols > 0,
                    depth > 0,
            ;
        }
        self.data.clear();
        self.data.resize(self.rows * self.cols * self.depth, value);
    }

    /// The column that the hash selects in `row`.
    fn col_for_row<H: MatrixFastHash>(&self, hashed_val: &H, row: usize) -> (col: usize)
        requires
            self.wf(),
            self.routes(hashed_val),
            row < self@.rows,
        ensures
            col == self.routed(hashed_val, row as int),
            col < self@.cols,
    {
        assert(hashed_val.has_lane(
            row as int,
            matrix_storage::column_bits(self@.cols as nat) as int,
        ));
        let raw: u128 = hashed_val.row_hash(row, self.mask_bits, self.mask);
        fold_to_col(raw, self.cols)
    }

    /// The position of the first element of a bucket.
    fn bucket_start(&self, row: usize, col: usize) -> (start: usize)
        requires
            self.wf(),
            self@.has_bucket(row as int, col as int),
        ensures
            start == self@.start(row as int, col as int),
            start + self@.depth <= self@.rows * self@.cols * self@.depth,
    {
        proof {
            lemma_bucket_in_bounds(self@, row as int, col as int);
            let index = row * self.cols + col;
            let depth = self.depth;
            assert(index <= index * depth) by (nonlinear_arith)
                requires
                    depth >= 1,
                    index >= 0,
            ;
        }
        (row * self.cols + col) * self.depth
    }

    /// Returns the number of rows.
    pub fn rows(&self) -> (rows: usize)
        ensures
            rows == self@.rows,
    {
        self.rows
    }

    /// Returns the number of columns.
    pub fn cols(&self) -> (cols: usize)
        ensures
            cols == self@.cols,
    {
        self.cols
    }

    /// Returns the per-bucket depth (length of each `(row, col)` cell).
    pub fn depth(&self) -> (depth: usize)
        ensures
            depth == self@.depth,
    {
        self.depth
    }

    /// Returns the total number of elements.
    pub fn len(&self) -> (len: usize)
        ensures
            len == self@.data.len(),
    {
        self.data.len()
    }

    /// Returns `true` when the container stores no elements.
    pub fn is_empty(&self) -> (empty: bool)
        ensures
            empty == (self@.data.len() == 0),
    {
        self.data.len() == 0
    }

    /// Provides immutable access to the flattened storage.
    ///
    /// Chunks of [`Self::depth`] elements are the buckets in `(row, col)`
    /// order.
    pub fn as_slice(&self) -> (slice: &[T])
        ensures
            slice@ == self@.data,
    {
        self.data.as_slice()
    }

    /// Provides mutable access to the flattened storage.
    ///
    /// Chunks of [`Self::depth`] elements are the buckets in `(row, col)`
    /// order -- the shape a periodic full-table sweep wants.
    pub fn as_mut_slice(&mut self) -> (slice: &mut [T])
        ensures
            slice@ == old(self)@.data,
            final(self)@ == (Grid { data: final(slice)@, ..old(self)@ }),
            final(self).wf() == old(self).wf(),
    {
        self.data.as_mut_slice()
    }

    /// Returns the `(row, col)` bucket slice.
    pub fn bucket_slice(&self, row: usize, col: usize) -> (bucket: &[T])
        requires
            self.wf(),
            self@.filled(),
            self@.has_bucket(row as int, col as int),
        ensures
            bucket@ == self@.bucket(row as int, col as int),
            bucket@.len() == self@.depth,
    {
        let start: usize = self.bucket_start(row, col);
        &self.data.as_slice()[start..start + self.depth]
    }

    /// The `(row, col)` bucket slice, for an update.
    fn bucket_mut(&mut self, row: usize, col: usize) -> (bucket: &mut [T])
        requires
            old(self).wf(),
            old(self)@.filled(),
            old(self)@.has_bucket(row as int, col as int),
        ensures
            bucket@ == old(self)@.bucket(row as int, col as int),
            bucket@.len() == old(self)@.depth,
            final(self).wf(),
            ({
                let start = old(self)@.start(row as int, col as int);
                let before = old(self)@.data;
                final(self)@ == (Grid {
                    data: before.subrange(0, start) + final(bucket)@ + before.subrange(
                        start + old(self)@.depth,
                        before.len() as int,
                    ),
                    ..old(self)@
                })
            }),
    {
        let start: usize = self.bucket_start(row, col);
        let depth: usize = self.depth;
        let (_, tail) = self.data.as_mut_slice().split_at_mut(start);
        let (bucket, _) = tail.split_at_mut(depth);
        bucket
    }

    /// Returns the bit width needed to represent one column index.
    ///
    /// A packed hash carries `rows * get_mask_bits()` bits of column
    /// selection; callers that pack all rows into one `u128` must check that
    /// product against 128 before hashing.
    pub fn get_mask_bits(&self) -> (bits: u32)
        requires
            self.wf(),
        ensures
            bits == matrix_storage::column_bits(self@.cols as nat),
            bits <= 64,
    {
        self.mask_bits
    }

    /// Inserts along every row using a hashed column selection.
    ///
    /// For each row a column is selected from `hashed_val`, yielding one
    /// `(row, col)` bucket; the closure receives that **bucket slice**, the
    /// value, and the row index.
    pub fn fast_insert<H, F, V>(&mut self, op: F, value: V, hashed_val: &H) where
        H: MatrixFastHash,
        F: Fn(&mut [T], &V, usize),
        V: Clone,

        requires
            old(self).wf(),
            old(self)@.filled(),
            old(self).routes(hashed_val),
            forall|bucket: &mut [T], row: usize|
                row < old(self)@.rows && bucket@ == old(self)@.bucket(
                    row as int,
                    old(self).routed(hashed_val, row as int),
                ) ==> #[trigger] call_requires(op, (bucket, &value, row)),
            forall|bucket: &mut [T], row: usize|
                row < old(self)@.rows && bucket@ == old(self)@.bucket(
                    row as int,
                    old(self).routed(hashed_val, row as int),
                ) && #[trigger] call_ensures(op, (bucket, &value, row), ())
                    ==> final(bucket)@.len() == bucket@.len(),
        ensures
            final(self).wf(),
            final(self)@.rows == old(self)@.rows,
            final(self)@.cols == old(self)@.cols,
            final(self)@.depth == old(self)@.depth,
            final(self)@.filled(),
            forall|row: usize, col: int| #[trigger]
                old(self).selects(hashed_val, row as int, col) ==> exists|bucket: &mut [T]|
                    {
                        &&& #[trigger] call_ensures(op, (bucket, &value, row), ())
                        &&& bucket@ == old(self)@.bucket(row as int, col)
                        &&& final(bucket)@ == final(self)@.bucket(row as int, col)
                    },
            forall|row: int, col: int|
                old(self)@.has_bucket(row, col) && !old(self).selects(hashed_val, row, col)
                    ==> #[trigger] final(self)@.bucket(row, col) == old(self)@.bucket(row, col),
    {
        let ghost before = self@;
        let ghost start_self = *self;
        let rows: usize = self.rows;
        let mut row: usize = 0;
        while row < rows
            invariant
                row <= rows,
                rows == before.rows,
                start_self == *old(self),
                before == start_self@,
                before.sized(),
                before.filled(),
                self.wf(),
                self@.rows == before.rows,
                self@.cols == before.cols,
                self@.depth == before.depth,
                self@.filled(),
                start_self.routes(hashed_val),
                forall|bucket: &mut [T], r: usize|
                    r < before.rows && bucket@ == before.bucket(
                        r as int,
                        start_self.routed(hashed_val, r as int),
                    ) ==> #[trigger] call_requires(op, (bucket, &value, r)),
                forall|bucket: &mut [T], r: usize|
                    r < before.rows && bucket@ == before.bucket(
                        r as int,
                        start_self.routed(hashed_val, r as int),
                    ) && #[trigger] call_ensures(op, (bucket, &value, r), ())
                        ==> final(bucket)@.len() == bucket@.len(),
                forall|r: usize, c: int| #[trigger]
                    start_self.selects(hashed_val, r as int, c) && r < row
                        ==> exists|bucket: &mut [T]|
                        {
                            &&& #[trigger] call_ensures(op, (bucket, &value, r), ())
                            &&& bucket@ == before.bucket(r as int, c)
                            &&& final(bucket)@ == self@.bucket(r as int, c)
                        },
                forall|r: int, c: int|
                    before.has_bucket(r, c) && (r >= row || !start_self.selects(hashed_val, r, c))
                        ==> #[trigger] self@.bucket(r, c) == before.bucket(r, c),
            decreases rows - row,
        {
            let col: usize = self.col_for_row(hashed_val, row);
            let ghost last = self@;
            proof {
                lemma_bucket_in_bounds(last, row as int, col as int);
            }
            op(self.bucket_mut(row, col), &value, row);
            proof {
                assert forall|r: int, c: int|
                    before.has_bucket(r, c) && (r != row || c != col) implies
                    #[trigger] self@.bucket(r, c) == last.bucket(r, c) by {
                    lemma_bucket_in_bounds(last, r, c);
                    lemma_buckets_apart(last, row as int, col as int, r, c);
                    assert(self@.bucket(r, c) =~= last.bucket(r, c));
                }
            }
            row = row + 1;
        }
    }

    /// Queries every row through a hashed column selection and returns the
    /// minimum of the per-row results.
    ///
    /// The closure receives the bucket slice and the row index.
    pub fn fast_query_min<H, F, R>(&self, hashed_val: &H, op: F) -> (min: R) where
        H: MatrixFastHash,
        F: Fn(&[T], usize) -> R,
        R: PartialOrd,

        requires
            self.wf(),
            self@.filled(),
            self.routes(hashed_val),
            forall|bucket: &[T], row: usize|
                row < self@.rows && bucket@ == self@.bucket(
                    row as int,
                    self.routed(hashed_val, row as int),
                ) ==> #[trigger] call_requires(op, (bucket, row)),
        ensures
            exists|results: Seq<R>|
                {
                    &&& #[trigger] self.answers(hashed_val, op, results)
                    &&& results.contains(min)
                    &&& ordered::<R>() ==> min == smallest(results)
                },
    {
        let col: usize = self.col_for_row(hashed_val, 0);
        let mut min: R = op(self.bucket_slice(0, col), 0);
        let mut row: usize = 1;
        let ghost mut results: Seq<R> = seq![min];
        proof {
            assert(bucket_answer(
                op,
                0,
                self@.bucket(0, self.routed(hashed_val, 0)),
                results[0],
            ));
        }
        while row < self.rows
            invariant
                1 <= row <= self.rows,
                self.wf(),
                self@.filled(),
                self.routes(hashed_val),
                forall|bucket: &[T], r: usize|
                    r < self@.rows && bucket@ == self@.bucket(
                        r as int,
                        self.routed(hashed_val, r as int),
                    ) ==> #[trigger] call_requires(op, (bucket, r)),
                results.len() == row,
                forall|r: int|
                    0 <= r < row ==> bucket_answer(
                        op,
                        r as usize,
                        self@.bucket(r, self.routed(hashed_val, r)),
                        #[trigger] results[r],
                    ),
                results.contains(min),
                ordered::<R>() ==> min == smallest(results),
            decreases self.rows - row,
        {
            let col: usize = self.col_for_row(hashed_val, row);
            let candidate: R = op(self.bucket_slice(row, col), row);
            let ghost before = results;
            proof {
                results = results.push(candidate);
                assert(results.drop_last() =~= before);
                assert(results.last() == candidate);
                assert(bucket_answer(
                    op,
                    row,
                    self@.bucket(row as int, self.routed(hashed_val, row as int)),
                    candidate,
                ));
                let at = choose|i: int| 0 <= i < before.len() && before[i] == min;
                assert(results[at] == min);
                assert(results[row as int] == candidate);
            }
            if candidate < min {
                min = candidate;
            }
            row = row + 1;
        }
        proof {
            assert(self.answers(hashed_val, op, results));
        }
        min
    }
}

/// Buckets lie in `(row, col)` order, each right behind the one before: along a
/// row column by column, and then on to the next row.
pub proof fn law_buckets_lie_in_order<T>(grid: Grid<T>, row: int, col: int)
    ensures
        grid.start(0, 0) == 0,
        grid.start(row, col + 1) == grid.start(row, col) + grid.depth,
        grid.start(row + 1, 0) == grid.start(row, grid.cols - 1) + grid.depth,
{
    let (cols, depth) = (grid.cols, grid.depth);
    assert((0 * cols + 0) * depth == 0) by (nonlinear_arith);
    assert((row * cols + (col + 1)) * depth == (row * cols + col) * depth + depth)
        by (nonlinear_arith);
    assert(((row + 1) * cols + 0) * depth == (row * cols + (cols - 1)) * depth + depth)
        by (nonlinear_arith);
}

/// A bucket is the run of `depth` elements from its start on.
pub proof fn law_bucket_is_its_run<T>(grid: Grid<T>, row: int, col: int, d: int)
    requires
        grid.sized(),
        grid.filled(),
        grid.has_bucket(row, col),
        0 <= d < grid.depth,
    ensures
        grid.bucket(row, col).len() == grid.depth,
        grid.bucket(row, col)[d] == grid.data[(row * grid.cols + col) * grid.depth + d],
{
    lemma_bucket_in_bounds(grid, row, col);
}

/// A query asks every row: there is one answer for each, to the bucket in the
/// column that the hash selects there.
pub proof fn law_every_row_is_asked<T, H: MatrixFastHash, F: Fn(&[T], usize) -> R, R>(
    v: Vector3D<T>,
    hash: H,
    op: F,
    results: Seq<R>,
    row: usize,
)
    requires
        v.answers(&hash, op, results),
        row < v@.rows,
    ensures
        results.len() == v@.rows,
        exists|slice: &[T]|
            {
                &&& #[trigger] call_ensures(op, (slice, row), results[row as int])
                &&& slice@ == v@.bucket(
                    row as int,
                    hash.lane(
                        row as int,
                        matrix_storage::column_bits(v@.cols as nat) as int,
                    ) % v@.cols,
                )
            },
{
    let result = results[row as int];
    let at = row as int;
    assert(bucket_answer(op, at as usize, v@.bucket(at, v.routed(&hash, at)), results[at]));
}

/// The smallest of the results is one of them.
pub proof fn law_smallest_is_a_result<R: PartialOrd>(results: Seq<R>)
    requires
        results.len() > 0,
    ensures
        results.contains(smallest(results)),
    decreases results.len(),
{
    if results.len() == 1 {
        assert(results[0] == smallest(results));
    } else {
        let rest = results.drop_last();
        law_smallest_is_a_result(rest);
        let i = choose|i: int| 0 <= i < rest.len() && rest[i] == smallest(rest);
        assert(results[i] == rest[i]);
        assert(results[results.len() - 1] == results.last());
    }
}

/// A hash selects one column in every row, and none outside the rows: that of
/// its lane, folded into the width.
pub proof fn law_one_column_is_selected_per_row<T, H: MatrixFastHash>(
    v: Vector3D<T>,
    hash: H,
    row: int,
    col: int,
)
    ensures
        v.selects(&hash, row, col) <==> 0 <= row < v@.rows && col == hash.lane(
            row,
            matrix_storage::column_bits(v@.cols as nat) as int,
        ) % v@.cols,
        v.routes(&hash) && 0 <= row < v@.rows ==> hash.has_lane(
            row,
            matrix_storage::column_bits(v@.cols as nat) as int,
        ),
{
}

/// Numbers are compared as numbers, so the smallest of numeric results is at
/// most every one of them.
pub proof fn law_smallest_number(results: Seq<u64>, at: int)
    requires
        0 <= at < results.len(),
    ensures
        ordered::<u64>(),
        smallest(results) <= results[at],
        results.contains(smallest(results)),
{
    law_no_result_is_smaller(results, at);
    law_smallest_is_a_result(results);
    assert(less(results[at], smallest(results)) <==> results[at] < smallest(results));
}

/// A grid has room for its buckets: none where a dimension is zero, and one for
/// each pair of a row and a column.
pub proof fn law_grid_shape<T>(grid: Grid<T>, row: int, col: int)
    ensures
        grid.sized() <==> grid.rows > 0 && grid.cols > 0 && grid.depth > 0,
        grid.filled() <==> grid.data.len() == grid.rows * grid.cols * grid.depth,
        grid.has_bucket(row, col) <==> 0 <= row < grid.rows && 0 <= col < grid.cols,
{
}

/// A refusal of stored parts says what is true of them: a dimension is zero; or
/// none is and they do not fit a `usize` together; or they do, and the data is
/// of another length, which is given with the one that was expected.
pub proof fn law_refused_parts_are_as_said<T>(parts: Grid<T>)
    requires
        parts.rows >= 0,
        parts.cols >= 0,
        parts.depth >= 0,
        parts.data.len() <= usize::MAX,
    ensures
        ({
            let expected = parts.rows * parts.cols * parts.depth;
            let zero = parts.rows == 0 || parts.cols == 0 || parts.depth == 0;
            match parts_problem(parts) {
                Some(Vector3DError::ZeroDimension) => zero,
                Some(Vector3DError::Overflow) => !zero && expected > usize::MAX,
                Some(Vector3DError::LengthMismatch { len, expected: told }) => {
                    &&& !zero
                    &&& told == expected
                    &&& len == parts.data.len()
                    &&& len != told
                },
                None => !zero && parts.data.len() == expected,
            }
        }),
{
    let (rows, cols, depth) = (parts.rows, parts.cols, parts.depth);
    assert(rows * cols * depth >= 0) by (nonlinear_arith)
        requires
            rows >= 0,
            cols >= 0,
            depth >= 0,
    ;
}

} // verus!
