//! What holds of every stream that a grid of HyperLogLogs has seen.

use super::super::hll;
use super::super::hll::rank;
use super::{CountMinHll, CountMinHllError, SketchDecodeError, StoredSketch};
use crate::common::hash::SketchHasher;
use crate::common::input::DataInput;
use crate::common::structures::matrix_storage;
use crate::common::structures::vector3d;
use crate::common::structures::vector3d::Grid;
use vstd::arithmetic::power2::*;
use vstd::prelude::*;

verus! {

/// A register never goes down.
pub proof fn law_insert_never_lowers<H: SketchHasher>(
    grid: Grid<u8>,
    precision: int,
    key: DataInput<'_>,
    value: DataInput<'_>,
    at: int,
)
    requires
        0 <= at < grid.data.len(),
    ensures
        super::insert::<H>(grid, precision, key, value).data[at] >= grid.data[at],
{
}

/// A pair that was seen before changes nothing.
pub proof fn law_repeated_insert_changes_nothing<H: SketchHasher>(
    grid: Grid<u8>,
    precision: int,
    key: DataInput<'_>,
    value: DataInput<'_>,
)
    ensures
        ({
            let once = super::insert::<H>(grid, precision, key, value);
            super::insert::<H>(once, precision, key, value) == once
        }),
{
    let once = super::insert::<H>(grid, precision, key, value);
    let twice = super::insert::<H>(once, precision, key, value);
    let hash = H::hash128(0, key);
    let index = rank::register_of(H::hash64(grid.rows, value), precision);
    assert forall|at: int| 0 <= at < once.data.len() implies #[trigger] twice.data[at]
        == once.data[at] by {
        lemma_hit_depends_on_shape(grid, once, hash, index, at);
    }
    assert(twice.data =~= once.data);
}

/// Which positions are hit depends on the shape alone.
proof fn lemma_hit_depends_on_shape(a: Grid<u8>, b: Grid<u8>, hash: u128, index: int, at: int)
    requires
        a.rows == b.rows,
        a.cols == b.cols,
        a.depth == b.depth,
    ensures
        super::hit(a, hash, index, at) == super::hit(b, hash, index, at),
{
    if super::hit(a, hash, index, at) {
        let row = choose|row: int|
            0 <= row < a.rows && at == #[trigger] a.start(
                row,
                matrix_storage::column(&hash, row, a.cols),
            ) + index;
        assert(at == b.start(row, matrix_storage::column(&hash, row, b.cols)) + index);
    }
    if super::hit(b, hash, index, at) {
        let row = choose|row: int|
            0 <= row < b.rows && at == #[trigger] b.start(
                row,
                matrix_storage::column(&hash, row, b.cols),
            ) + index;
        assert(at == a.start(row, matrix_storage::column(&hash, row, a.cols)) + index);
    }
}

/// The order in which two pairs are seen does not matter.
pub proof fn law_inserts_commute<H: SketchHasher>(
    grid: Grid<u8>,
    precision: int,
    key: DataInput<'_>,
    value: DataInput<'_>,
    other_key: DataInput<'_>,
    other_value: DataInput<'_>,
)
    ensures
        super::insert::<H>(
            super::insert::<H>(grid, precision, key, value),
            precision,
            other_key,
            other_value,
        ) == super::insert::<H>(
            super::insert::<H>(grid, precision, other_key, other_value),
            precision,
            key,
            value,
        ),
{
    let one = super::insert::<H>(grid, precision, key, value);
    let other = super::insert::<H>(grid, precision, other_key, other_value);
    let left = super::insert::<H>(one, precision, other_key, other_value);
    let right = super::insert::<H>(other, precision, key, value);
    let hash = H::hash128(0, key);
    let index = rank::register_of(H::hash64(grid.rows, value), precision);
    let other_hash = H::hash128(0, other_key);
    let other_index = rank::register_of(H::hash64(grid.rows, other_value), precision);
    assert forall|at: int| 0 <= at < left.data.len() implies #[trigger] left.data[at]
        == right.data[at] by {
        lemma_hit_depends_on_shape(grid, other, hash, index, at);
        lemma_hit_depends_on_shape(grid, one, other_hash, other_index, at);
    }
    assert(left.data =~= right.data);
}

/// Two grids have one shape, and as many registers.
pub open spec fn alike(a: Grid<u8>, b: Grid<u8>) -> bool {
    &&& a.rows == b.rows
    &&& a.cols == b.cols
    &&& a.depth == b.depth
    &&& a.data.len() == b.data.len()
}

/// A merge with itself changes nothing, the order of a merge does not matter,
/// and neither does how three merges are grouped.
pub proof fn law_merge_is_a_semilattice(a: Grid<u8>, b: Grid<u8>, c: Grid<u8>)
    requires
        alike(a, b),
        alike(b, c),
    ensures
        super::union(a, a) == a,
        super::union(a, b) == super::union(b, a),
        super::union(super::union(a, b), c) == super::union(a, super::union(b, c)),
{
    assert(super::union(a, a).data =~= a.data);
    assert(super::union(a, b).data =~= super::union(b, a).data);
    assert(super::union(super::union(a, b), c).data =~= super::union(a, super::union(b, c)).data);
}

/// A merge never lowers a register of either side.
pub proof fn law_merge_never_lowers(a: Grid<u8>, b: Grid<u8>, at: int)
    requires
        alike(a, b),
        0 <= at < a.data.len(),
    ensures
        super::union(a, b).data[at] >= a.data[at],
        super::union(a, b).data[at] >= b.data[at],
{
}

/// An insert before a merge is an insert after it.
proof fn lemma_insert_after_union<H: SketchHasher>(
    a: Grid<u8>,
    b: Grid<u8>,
    precision: int,
    key: DataInput<'_>,
    value: DataInput<'_>,
)
    requires
        alike(a, b),
    ensures
        super::union(a, super::insert::<H>(b, precision, key, value)) == super::insert::<H>(
            super::union(a, b),
            precision,
            key,
            value,
        ),
{
    let left = super::union(a, super::insert::<H>(b, precision, key, value));
    let both = super::union(a, b);
    let right = super::insert::<H>(both, precision, key, value);
    let hash = H::hash128(0, key);
    let index = rank::register_of(H::hash64(b.rows, value), precision);
    assert forall|at: int| 0 <= at < left.data.len() implies #[trigger] left.data[at]
        == right.data[at] by {
        lemma_hit_depends_on_shape(b, both, hash, index, at);
    }
    assert(left.data =~= right.data);
}

/// Inserts keep the shape.
proof fn lemma_insert_all_shape<H: SketchHasher>(
    grid: Grid<u8>,
    precision: int,
    pairs: Seq<(&DataInput<'_>, &DataInput<'_>)>,
)
    ensures
        alike(grid, super::insert_all::<H>(grid, precision, pairs)),
    decreases pairs.len(),
{
    if pairs.len() > 0 {
        lemma_insert_all_shape::<H>(grid, precision, pairs.drop_last());
    }
}

/// Every register is zero.
pub open spec fn blank(grid: Grid<u8>) -> bool {
    forall|at: int| 0 <= at < grid.data.len() ==> #[trigger] grid.data[at] == 0
}

/// A merge is the union of the streams: merging a sketch of one stream with a
/// sketch of another gives the sketch of the two streams one after the other.
pub proof fn law_merge_is_the_union_of_streams<H: SketchHasher>(
    empty: Grid<u8>,
    precision: int,
    first: Seq<(&DataInput<'_>, &DataInput<'_>)>,
    second: Seq<(&DataInput<'_>, &DataInput<'_>)>,
)
    requires
        blank(empty),
    ensures
        super::union(
            super::insert_all::<H>(empty, precision, first),
            super::insert_all::<H>(empty, precision, second),
        ) == super::insert_all::<H>(empty, precision, first + second),
    decreases second.len(),
{
    let a = super::insert_all::<H>(empty, precision, first);
    lemma_insert_all_shape::<H>(empty, precision, first);
    if second.len() == 0 {
        assert(first + second =~= first);
        assert(super::union(a, empty).data =~= a.data);
    } else {
        let earlier = second.drop_last();
        let (key, value) = second.last();
        law_merge_is_the_union_of_streams::<H>(empty, precision, first, earlier);
        lemma_insert_all_shape::<H>(empty, precision, earlier);
        let b = super::insert_all::<H>(empty, precision, earlier);
        lemma_insert_after_union::<H>(a, b, precision, *key, *value);
        assert((first + second).drop_last() =~= first + earlier);
        assert((first + second).last() == second.last());
    }
}

/// The registers of one HyperLogLog that was given `values`, each hashed under
/// seed index `seed`.
pub open spec fn registers_of<H: SketchHasher>(
    precision: int,
    seed: int,
    values: Seq<DataInput<'_>>,
) -> Seq<u8>
    decreases values.len(),
{
    if values.len() == 0 {
        Seq::new(pow2(precision as nat), |i: int| 0u8)
    } else {
        let hash = H::hash64(seed, values.last());
        hll::record(
            registers_of::<H>(precision, seed, values.drop_last()),
            rank::register_of(hash, precision),
            rank::rank_of(hash, precision) as u8,
        )
    }
}

/// The values of the pairs whose key is sent to column `col` in `row`.
pub open spec fn values_sent_to<'a, H: SketchHasher>(
    pairs: Seq<(&DataInput<'_>, &DataInput<'a>)>,
    row: int,
    col: int,
    cols: int,
) -> Seq<DataInput<'a>>
    decreases pairs.len(),
{
    if pairs.len() == 0 {
        Seq::empty()
    } else {
        let (key, value) = pairs.last();
        let earlier = values_sent_to::<H>(pairs.drop_last(), row, col, cols);
        if matrix_storage::column(&H::hash128(0, *key), row, cols) == col {
            earlier.push(*value)
        } else {
            earlier
        }
    }
}

/// The values that were paired with `key`.
pub open spec fn values_of<'a>(
    pairs: Seq<(&DataInput<'_>, &DataInput<'a>)>,
    key: DataInput<'_>,
) -> Seq<DataInput<'a>>
    decreases pairs.len(),
{
    if pairs.len() == 0 {
        Seq::empty()
    } else {
        let (k, value) = pairs.last();
        let earlier = values_of(pairs.drop_last(), key);
        if *k == key {
            earlier.push(*value)
        } else {
            earlier
        }
    }
}

/// Every bucket is a HyperLogLog of its own: it holds exactly the registers
/// that the values sent to it give.
pub proof fn law_every_bucket_is_a_hyperloglog<H: SketchHasher>(
    empty: Grid<u8>,
    precision: int,
    pairs: Seq<(&DataInput<'_>, &DataInput<'_>)>,
    row: int,
    col: int,
)
    requires
        1 <= precision <= 18,
        empty.sized(),
        empty.filled(),
        empty.depth == pow2(precision as nat),
        blank(empty),
        empty.has_bucket(row, col),
    ensures
        super::insert_all::<H>(empty, precision, pairs).bucket(row, col) == registers_of::<H>(
            precision,
            empty.rows,
            values_sent_to::<H>(pairs, row, col, empty.cols),
        ),
    decreases pairs.len(),
{
    vector3d::lemma_bucket_in_bounds(empty, row, col);
    if pairs.len() == 0 {
        assert(empty.bucket(row, col) =~= Seq::new(pow2(precision as nat), |i: int| 0u8));
    } else {
        let (key, value) = pairs.last();
        let before = super::insert_all::<H>(empty, precision, pairs.drop_last());
        lemma_insert_all_shape::<H>(empty, precision, pairs.drop_last());
        law_every_bucket_is_a_hyperloglog::<H>(empty, precision, pairs.drop_last(), row, col);
        lemma_insert_in_bucket::<H>(before, precision, *key, *value, row, col);
        let earlier = values_sent_to::<H>(pairs.drop_last(), row, col, empty.cols);
        assert(earlier.push(*value).drop_last() =~= earlier);
    }
}

/// What an insert does to one bucket.
proof fn lemma_insert_in_bucket<H: SketchHasher>(
    grid: Grid<u8>,
    precision: int,
    key: DataInput<'_>,
    value: DataInput<'_>,
    row: int,
    col: int,
)
    requires
        1 <= precision <= 18,
        grid.sized(),
        grid.filled(),
        grid.depth == pow2(precision as nat),
        grid.has_bucket(row, col),
    ensures
        super::insert::<H>(grid, precision, key, value).bucket(row, col) == (if col
            == matrix_storage::column(&H::hash128(0, key), row, grid.cols) {
            hll::record(
                grid.bucket(row, col),
                rank::register_of(H::hash64(grid.rows, value), precision),
                rank::rank_of(H::hash64(grid.rows, value), precision) as u8,
            )
        } else {
            grid.bucket(row, col)
        }),
{
    let hash = H::hash64(grid.rows, value);
    let index = rank::register_of(hash, precision);
    rank::lemma_rank_bounds(hash, precision);
    vector3d::lemma_bucket_in_bounds(grid, row, col);
    let after = super::insert::<H>(grid, precision, key, value);
    let goal = if col == matrix_storage::column(&H::hash128(0, key), row, grid.cols) {
        hll::record(
            grid.bucket(row, col),
            index,
            rank::rank_of(hash, precision) as u8,
        )
    } else {
        grid.bucket(row, col)
    };
    assert forall|slot: int| 0 <= slot < grid.depth implies #[trigger] after.bucket(row, col)[slot]
        == goal[slot] by {
        super::lemma_hit(grid, H::hash128(0, key), index, row, col, slot);
        assert(after.bucket(row, col)[slot] == after.data[grid.start(row, col) + slot]);
        assert(grid.bucket(row, col)[slot] == grid.data[grid.start(row, col) + slot]);
    }
    assert(after.bucket(row, col) =~= goal);
}

/// Collisions can only raise a register, never lower it: in every row, the
/// bucket of a key has at least the registers that its own values give.
pub proof fn law_collisions_only_raise<H: SketchHasher>(
    empty: Grid<u8>,
    precision: int,
    pairs: Seq<(&DataInput<'_>, &DataInput<'_>)>,
    key: DataInput<'_>,
    row: int,
    slot: int,
)
    requires
        1 <= precision <= 18,
        empty.sized(),
        empty.filled(),
        empty.depth == pow2(precision as nat),
        blank(empty),
        0 <= row < empty.rows,
        0 <= slot < empty.depth,
    ensures
        ({
            let col = matrix_storage::column(&H::hash128(0, key), row, empty.cols);
            super::insert_all::<H>(empty, precision, pairs).bucket(row, col)[slot]
                >= registers_of::<H>(precision, empty.rows, values_of(pairs, key))[slot]
        }),
{
    let col = matrix_storage::column(&H::hash128(0, key), row, empty.cols);
    super::lemma_column_in_range(H::hash128(0, key), row, empty.cols);
    law_every_bucket_is_a_hyperloglog::<H>(empty, precision, pairs, row, col);
    lemma_own_values_below::<H>(precision, empty.rows, pairs, key, row, empty.cols);
}

/// The registers of a HyperLogLog are as many as its precision says.
proof fn lemma_registers_len<H: SketchHasher>(
    precision: int,
    seed: int,
    values: Seq<DataInput<'_>>,
)
    requires
        1 <= precision <= 18,
    ensures
        registers_of::<H>(precision, seed, values).len() == pow2(precision as nat),
    decreases values.len(),
{
    if values.len() > 0 {
        lemma_registers_len::<H>(precision, seed, values.drop_last());
        rank::lemma_rank_bounds(H::hash64(seed, values.last()), precision);
    }
}

proof fn lemma_own_values_below<H: SketchHasher>(
    precision: int,
    seed: int,
    pairs: Seq<(&DataInput<'_>, &DataInput<'_>)>,
    key: DataInput<'_>,
    row: int,
    cols: int,
)
    requires
        1 <= precision <= 18,
    ensures
        ({
            let col = matrix_storage::column(&H::hash128(0, key), row, cols);
            let own = registers_of::<H>(precision, seed, values_of(pairs, key));
            let all = registers_of::<H>(
                precision,
                seed,
                values_sent_to::<H>(pairs, row, col, cols),
            );
            forall|slot: int|
                0 <= slot < pow2(precision as nat) ==> #[trigger] own[slot] <= all[slot]
        }),
    decreases pairs.len(),
{
    let col = matrix_storage::column(&H::hash128(0, key), row, cols);
    if pairs.len() > 0 {
        let (k, value) = pairs.last();
        let earlier = pairs.drop_last();
        lemma_own_values_below::<H>(precision, seed, earlier, key, row, cols);
        let mine = values_of(earlier, key);
        let sent = values_sent_to::<H>(earlier, row, col, cols);
        assert(mine.push(*value).drop_last() =~= mine);
        assert(sent.push(*value).drop_last() =~= sent);
        lemma_registers_len::<H>(precision, seed, mine);
        lemma_registers_len::<H>(precision, seed, sent);
        rank::lemma_rank_bounds(H::hash64(seed, *value), precision);
        let own = registers_of::<H>(precision, seed, values_of(pairs, key));
        let all = registers_of::<H>(precision, seed, values_sent_to::<H>(pairs, row, col, cols));
        assert forall|slot: int| 0 <= slot < pow2(precision as nat) implies #[trigger] own[slot]
            <= all[slot] by {
            let a = registers_of::<H>(precision, seed, mine)[slot];
            let b = registers_of::<H>(precision, seed, sent)[slot];
            assert(a <= b);
        }
    }
}

/// Nothing is added by the grid: in a row where no other key is sent to the
/// bucket of a key, the bucket holds exactly the registers that the values of
/// that key give.
pub proof fn law_unshared_bucket_is_exact<H: SketchHasher>(
    empty: Grid<u8>,
    precision: int,
    pairs: Seq<(&DataInput<'_>, &DataInput<'_>)>,
    key: DataInput<'_>,
    row: int,
)
    requires
        1 <= precision <= 18,
        empty.sized(),
        empty.filled(),
        empty.depth == pow2(precision as nat),
        blank(empty),
        0 <= row < empty.rows,
        forall|i: int|
            0 <= i < pairs.len() && matrix_storage::column(
                &H::hash128(0, *(#[trigger] pairs[i]).0),
                row,
                empty.cols,
            ) == matrix_storage::column(&H::hash128(0, key), row, empty.cols) ==> *pairs[i].0
                == key,
    ensures
        ({
            let col = matrix_storage::column(&H::hash128(0, key), row, empty.cols);
            super::insert_all::<H>(empty, precision, pairs).bucket(row, col) == registers_of::<H>(
                precision,
                empty.rows,
                values_of(pairs, key),
            )
        }),
{
    let col = matrix_storage::column(&H::hash128(0, key), row, empty.cols);
    super::lemma_column_in_range(H::hash128(0, key), row, empty.cols);
    law_every_bucket_is_a_hyperloglog::<H>(empty, precision, pairs, row, col);
    lemma_only_own_values::<H>(pairs, key, row, empty.cols);
}

proof fn lemma_only_own_values<H: SketchHasher>(
    pairs: Seq<(&DataInput<'_>, &DataInput<'_>)>,
    key: DataInput<'_>,
    row: int,
    cols: int,
)
    requires
        forall|i: int|
            0 <= i < pairs.len() && matrix_storage::column(
                &H::hash128(0, *(#[trigger] pairs[i]).0),
                row,
                cols,
            ) == matrix_storage::column(&H::hash128(0, key), row, cols) ==> *pairs[i].0 == key,
    ensures
        values_sent_to::<H>(
            pairs,
            row,
            matrix_storage::column(&H::hash128(0, key), row, cols),
            cols,
        ) == values_of(pairs, key),
    decreases pairs.len(),
{
    if pairs.len() > 0 {
        let earlier = pairs.drop_last();
        assert forall|i: int|
            0 <= i < earlier.len() && matrix_storage::column(
                &H::hash128(0, *(#[trigger] earlier[i]).0),
                row,
                cols,
            ) == matrix_storage::column(&H::hash128(0, key), row, cols) implies *earlier[i].0
            == key by {
            assert(earlier[i] == pairs[i]);
        }
        lemma_only_own_values::<H>(earlier, key, row, cols);
        assert(pairs.last() == pairs[pairs.len() - 1]);
    }
}

/// No register of `a` is above the one at its place in `b`.
pub open spec fn below(a: Seq<u8>, b: Seq<u8>) -> bool {
    a.len() == b.len() && forall|i: int| 0 <= i < a.len() ==> #[trigger] a[i] <= b[i]
}

/// The error is one-sided: under an estimator that does not go down when a
/// register goes up, no row estimates less for a key than the values of that key
/// alone would give, so neither does the minimum across the rows. And a row
/// where no other key is sent to its bucket estimates exactly that, so one such
/// row makes the minimum the estimate of a HyperLogLog of its own.
pub proof fn law_rows_only_over_report<H: SketchHasher>(
    empty: Grid<u8>,
    precision: int,
    pairs: Seq<(&DataInput<'_>, &DataInput<'_>)>,
    key: DataInput<'_>,
    row: int,
    estimator: spec_fn(Seq<u8>) -> int,
)
    requires
        1 <= precision <= 18,
        empty.sized(),
        empty.filled(),
        empty.depth == pow2(precision as nat),
        blank(empty),
        0 <= row < empty.rows,
        forall|a: Seq<u8>, b: Seq<u8>| #[trigger] below(a, b) ==> estimator(a) <= estimator(b),
    ensures
        ({
            let col = matrix_storage::column(&H::hash128(0, key), row, empty.cols);
            let own = registers_of::<H>(precision, empty.rows, values_of(pairs, key));
            let found = super::insert_all::<H>(empty, precision, pairs).bucket(row, col);
            let shared = exists|i: int|
                0 <= i < pairs.len() && *(#[trigger] pairs[i]).0 != key && matrix_storage::column(
                    &H::hash128(0, *pairs[i].0),
                    row,
                    empty.cols,
                ) == col;
            &&& estimator(own) <= estimator(found)
            &&& !shared ==> estimator(own) == estimator(found)
        }),
{
    let col = matrix_storage::column(&H::hash128(0, key), row, empty.cols);
    let own = registers_of::<H>(precision, empty.rows, values_of(pairs, key));
    let found = super::insert_all::<H>(empty, precision, pairs).bucket(row, col);
    super::lemma_column_in_range(H::hash128(0, key), row, empty.cols);
    law_every_bucket_is_a_hyperloglog::<H>(empty, precision, pairs, row, col);
    lemma_registers_len::<H>(precision, empty.rows, values_of(pairs, key));
    lemma_registers_len::<H>(
        precision,
        empty.rows,
        values_sent_to::<H>(pairs, row, col, empty.cols),
    );
    assert forall|slot: int| 0 <= slot < own.len() implies #[trigger] own[slot] <= found[slot] by {
        law_collisions_only_raise::<H>(empty, precision, pairs, key, row, slot);
    }
    assert(below(own, found));
    let shared = exists|i: int|
        0 <= i < pairs.len() && *(#[trigger] pairs[i]).0 != key && matrix_storage::column(
            &H::hash128(0, *pairs[i].0),
            row,
            empty.cols,
        ) == col;
    if !shared {
        law_unshared_bucket_is_exact::<H>(empty, precision, pairs, key, row);
    }
}

/// What is stored of a sketch is accepted when it is rebuilt.
pub proof fn law_stored_sketch_is_accepted<H: SketchHasher>(
    sketch: CountMinHll<H>,
    stored: StoredSketch,
)
    requires
        sketch.wf(),
        stored.grid() == sketch@,
        stored.precision == sketch.spec_precision(),
    ensures
        super::stored_problem(stored) is None,
{
    sketch.lemma_wf();
    vector3d::law_stored_parts_are_accepted(sketch.storage());
}

/// The reader reads back what the writer wrote.
pub open spec fn reads_back<
    E,
    F,
    W: Fn(StoredSketch) -> Result<Vec<u8>, E>,
    R: Fn(&[u8]) -> Result<StoredSketch, F>,
>(write: W, read: R) -> bool {
    forall|
        stored: StoredSketch,
        written: Result<Vec<u8>, E>,
        slice: &[u8],
        back: Result<StoredSketch, F>,
    |
        #[trigger] call_ensures(write, (stored,), written) && (written matches Ok(bytes)
            && slice@ == bytes@) && #[trigger] call_ensures(read, (slice,), back) ==> (
        back matches Ok(back) && back.grid() == stored.grid() && back.precision
            == stored.precision)
}

/// A sketch is read back as it was written: from the bytes of one comes a sketch
/// of the same shape, with the same registers and the same precision. The reader
/// only has to read back what the writer wrote.
pub proof fn law_sketch_is_read_back<
    H: SketchHasher,
    E,
    F,
    W: Fn(StoredSketch) -> Result<Vec<u8>, E>,
    R: Fn(&[u8]) -> Result<StoredSketch, F>,
>(
    sketch: CountMinHll<H>,
    write: W,
    encoded: Result<Vec<u8>, E>,
    bytes: Vec<u8>,
    read: R,
    result: Result<CountMinHll<H>, SketchDecodeError<F>>,
)
    requires
        sketch.wf(),
        super::encodes_to(sketch@, sketch.spec_precision(), write, encoded),
        encoded == Ok::<Vec<u8>, E>(bytes),
        reads_back(write, read),
        super::decodes_to::<H, F, R>(bytes@, read, result),
    ensures
        result matches Ok(back) && {
            &&& back.wf()
            &&& back@ == sketch@
            &&& back.spec_precision() == sketch.spec_precision()
        },
{
    let stored = choose|stored: StoredSketch|
        {
            &&& #[trigger] call_ensures(write, (stored,), encoded)
            &&& stored.grid() == sketch@
            &&& stored.precision == sketch.spec_precision()
        };
    let (slice, back) = choose|slice: &[u8], back: Result<StoredSketch, F>|
        {
            &&& #[trigger] call_ensures(read, (slice,), back)
            &&& slice@ == bytes@
            &&& match back {
                Err(error) => result == Err::<CountMinHll<H>, SketchDecodeError<F>>(
                    SketchDecodeError::Codec(error),
                ),
                Ok(back) => match super::stored_problem(back) {
                    Some(error) => result == Err::<CountMinHll<H>, SketchDecodeError<F>>(
                        SketchDecodeError::Stored(error),
                    ),
                    None => result matches Ok(sketch) && {
                        &&& sketch.wf()
                        &&& sketch@ == back.grid()
                        &&& sketch.spec_precision() == back.precision
                    },
                },
            }
        };
    assert(back matches Ok(back) && back.grid() == stored.grid());
    law_stored_sketch_is_accepted(sketch, back->Ok_0);
}

/// Sketches with the same grid answer alike: what one answers for a key, row by
/// row, the other answers too.
pub proof fn law_same_grid_answers_alike<H: SketchHasher, F: Fn(&[u8], usize) -> R, R>(
    a: CountMinHll<H>,
    b: CountMinHll<H>,
    key: DataInput<'_>,
    op: F,
    results: Seq<R>,
)
    requires
        a.wf(),
        b.wf(),
        a@ == b@,
    ensures
        a.storage().answers(&H::hash128(0, key), op, results) <==> b.storage().answers(
            &H::hash128(0, key),
            op,
            results,
        ),
{
    a.lemma_wf();
    b.lemma_wf();
}

/// An insert records the value once in every row: in the column that the hash of
/// the key selects there, the register that the hash of the value selects is
/// raised to its rank, unless it is higher already. Every other register, in
/// that bucket and in all others, is as it was.
pub proof fn law_insert_records_once_in_every_row<H: SketchHasher>(
    grid: Grid<u8>,
    precision: int,
    key: DataInput<'_>,
    value: DataInput<'_>,
    row: int,
    col: int,
    slot: int,
)
    requires
        1 <= precision <= 18,
        grid.sized(),
        grid.filled(),
        grid.depth == pow2(precision as nat),
        grid.has_bucket(row, col),
        0 <= slot < grid.depth,
    ensures
        ({
            let after = super::insert::<H>(grid, precision, key, value);
            let hash = H::hash64(grid.rows, value);
            let old = grid.bucket(row, col)[slot];
            let new = after.bucket(row, col)[slot];
            let rank = rank::rank_of(hash, precision);
            let recorded = col == matrix_storage::column(&H::hash128(0, key), row, grid.cols)
                && slot == rank::register_of(hash, precision);
            &&& after.rows == grid.rows && after.cols == grid.cols && after.depth == grid.depth
            &&& after.filled()
            &&& !recorded ==> new == old
            &&& recorded ==> new >= rank && new >= old
            &&& recorded ==> new == rank || new == old
        }),
{
    let after = super::insert::<H>(grid, precision, key, value);
    let hash = H::hash64(grid.rows, value);
    let index = rank::register_of(hash, precision);
    rank::lemma_rank_bounds(hash, precision);
    vector3d::lemma_bucket_in_bounds(grid, row, col);
    super::lemma_hit(grid, H::hash128(0, key), index, row, col, slot);
    let at = grid.start(row, col) + slot;
    assert(after.bucket(row, col)[slot] == after.data[at]);
    assert(grid.bucket(row, col)[slot] == grid.data[at]);
}

/// A merged register is the larger of the two at its place.
pub proof fn law_merge_takes_the_larger_register(a: Grid<u8>, b: Grid<u8>, at: int)
    requires
        0 <= at < a.data.len(),
        a.data.len() == b.data.len(),
    ensures
        ({
            let merged = super::union(a, b);
            &&& merged.data.len() == a.data.len()
            &&& merged.rows == a.rows && merged.cols == a.cols && merged.depth == a.depth
            &&& merged.data[at] >= a.data[at] && merged.data[at] >= b.data[at]
            &&& merged.data[at] == a.data[at] || merged.data[at] == b.data[at]
        }),
{
}

/// Sketches merge exactly where rows, columns and precision are the same.
pub proof fn law_only_one_shape_merges<H: SketchHasher>(a: CountMinHll<H>, b: CountMinHll<H>)
    ensures
        a.same_shape(&b) <==> a@.rows == b@.rows && a@.cols == b@.cols && a.spec_precision()
            == b.spec_precision(),
{
}

/// What is stored makes a sketch exactly where the precision is one of a
/// HyperLogLog, a bucket has a register for each of its indices, the width is a
/// power of two whose index bits fit one 128-bit hash for all rows, and every
/// register is there.
pub proof fn law_stored_sketch_is_checked(stored: StoredSketch)
    ensures
        super::stored_problem(stored) is None <==> {
            &&& 1 <= stored.precision <= 18
            &&& stored.depth == pow2(stored.precision as nat)
            &&& stored.rows > 0
            &&& stored.data@.len() == stored.rows * stored.cols * stored.depth
            &&& exists|e: nat| stored.cols == #[trigger] pow2(e) && stored.rows * e <= 128
        },
        stored.grid().rows == stored.rows,
        stored.grid().cols == stored.cols,
        stored.grid().depth == stored.depth,
        stored.grid().data == stored.data@,
{
    let (rows, cols, depth) = (stored.rows as int, stored.cols as int, stored.depth as int);
    assert(stored.data.len() == stored.data@.len());
    lemma_pow2_pos(stored.precision as nat);
    if stored.cols > 0 {
        let bits = matrix_storage::column_bits(stored.cols as nat);
        matrix_storage::law_powers_of_two(stored.cols as nat, bits);
        if exists|e: nat| stored.cols == #[trigger] pow2(e) && stored.rows * e <= 128 {
            let e = choose|e: nat| stored.cols == #[trigger] pow2(e) && stored.rows * e <= 128;
            matrix_storage::law_powers_of_two(stored.cols as nat, e);
        }
        if super::stored_problem(stored) is None {
            assert(stored.cols == pow2(bits) && stored.rows * bits <= 128);
        }
    } else if exists|e: nat| stored.cols == #[trigger] pow2(e) && stored.rows * e <= 128 {
        let e = choose|e: nat| stored.cols == #[trigger] pow2(e) && stored.rows * e <= 128;
        lemma_pow2_pos(e);
    }
}

/// What is decoded is a sketch: bytes are only accepted where the reader read
/// what is stored of one, and then the sketch has its registers, its shape and
/// its precision.
pub proof fn law_decoded_sketch_is_what_was_read<
    H: SketchHasher,
    E,
    R: Fn(&[u8]) -> Result<StoredSketch, E>,
>(
    bytes: Seq<u8>,
    read: R,
    result: Result<CountMinHll<H>, SketchDecodeError<E>>,
)
    requires
        super::decodes_to::<H, E, R>(bytes, read, result),
    ensures
        result matches Ok(sketch) ==> sketch.wf() && exists|
            slice: &[u8],
            stored: Result<StoredSketch, E>,
        |
            {
                &&& #[trigger] call_ensures(read, (slice,), stored)
                &&& slice@ == bytes
                &&& stored matches Ok(stored) && {
                    &&& sketch@.rows == stored.rows
                    &&& sketch@.cols == stored.cols
                    &&& sketch@.depth == stored.depth
                    &&& sketch@.data == stored.data@
                    &&& sketch.spec_precision() == stored.precision
                }
            },
{
}

/// A refusal of parts says what is true of them, with the numbers that it is
/// about; and of several reasons it gives the first.
pub proof fn law_refused_sketch_is_as_said(buckets: Grid<u8>, precision: u32)
    requires
        0 < buckets.rows <= usize::MAX,
        0 < buckets.cols <= usize::MAX,
        0 < buckets.depth <= usize::MAX,
    ensures
        ({
            let in_range = 1 <= precision <= 18;
            let deep = buckets.depth == pow2(precision as nat);
            let power = exists|e: nat| buckets.cols == #[trigger] pow2(e);
            match super::rejection(buckets, precision) {
                Some(CountMinHllError::PrecisionOutOfRange { precision: told }) => !in_range && told
                    == precision,
                Some(CountMinHllError::DepthMismatch { depth, precision: told, expected }) => {
                    &&& in_range && !deep
                    &&& depth == buckets.depth
                    &&& told == precision
                    &&& expected == pow2(precision as nat)
                },
                Some(CountMinHllError::ColsNotPowerOfTwo { cols }) => {
                    &&& in_range && deep && !power
                    &&& cols == buckets.cols
                },
                Some(CountMinHllError::TooManyBits { rows, col_bits, required }) => {
                    &&& in_range && deep && power
                    &&& rows == buckets.rows
                    &&& buckets.cols == pow2(col_bits as nat)
                    &&& rows * col_bits > 128
                    &&& rows * col_bits <= usize::MAX ==> required == rows * col_bits
                    &&& rows * col_bits > usize::MAX ==> required == usize::MAX
                },
                None => in_range && deep && power,
            }
        }),
{
    let cols = buckets.cols as nat;
    let bits = matrix_storage::column_bits(cols);
    matrix_storage::law_powers_of_two(cols, bits);
    if 1 <= precision <= 18 {
        lemma2_to64();
        if precision < 18 {
            lemma_pow2_strictly_increases(precision as nat, 18);
        }
    }
    if matrix_storage::is_power(cols) {
        let e = choose|e: nat| cols == #[trigger] pow2(e);
        matrix_storage::law_powers_of_two(cols, e);
        assert(buckets.cols == pow2(bits));
        lemma2_to64_rest();
        if bits >= 64 {
            if bits > 64 {
                lemma_pow2_strictly_increases(64, bits);
            }
        }
    }
}

} // verus!
